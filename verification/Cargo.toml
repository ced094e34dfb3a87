[package]
name = "rpx"
version = "0.1.0"
edition = "2021"
publish = false

[dependencies]
cliclack = "=0.5.7"
deb822-fast = "=0.2.3"
directories = "=6.0.0"
flate2 = "=1.1.10"
keyring = "=4.2.0"
miette = { version = "=7.6.0", features = ["fancy"] }
petname = "=3.2.0"
pubgrub = "=0.4.0"
r-description-parser = "=0.4.0"
r-metadata = "=0.4.0"
r-package-installer = "=0.2.0"
r-packages-parser = "=0.4.0"
relative-path = "=2.0.3"
reqwest = { version = "=0.13.5", default-features = false, features = ["rustls"] }
rpassword = "=7.5.4"
semver = "=1.0.28"
serde = { version = "=1.0.229", features = ["derive"] }
serde_json = "=1.0.154"
sha2 = "=0.11.1"
tar = "=0.4.46"
target-lexicon = "=0.13.5"
tempfile = "=3.27.0"
time = "=0.3.55"
tokio = { version = "=1.54.1", features = ["rt-multi-thread", "macros", "process", "fs", "sync", "io-util"] }
url = "=2.5.8"
