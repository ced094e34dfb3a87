use rpx::cli::{
    Cli, CliError, Commands, HelpTopic, InitArgs, InitLicense, RepoAdditionalAddArgs,
    RepoAdditionalCommands, RepoAdditionalRemoveArgs, RepoBaseCommands, RepoBaseResetArgs,
    RepoBaseSetArgs, RepoCommands, RepoListArgs, RepoRemoteArgs, RepoRemoteCommands,
    RepositoryType,
};
use rpx::description::DependencyField;

fn try_parse(arguments: &[&str]) -> Result<Cli, CliError> {
    Cli::try_parse_from(&arguments.iter().map(|a| a.to_string()).collect::<Vec<_>>())
}

fn parse(arguments: &[&str]) -> Commands {
    try_parse(arguments).expect("command should parse").command
}

#[test]
fn parses_init_defaults() {
    assert!(matches!(
        parse(&["rpx", "init"]),
        Commands::Init(InitArgs {
            path: None,
            name: None,
            title: None,
            description: None,
            author_name: None,
            author_email: None,
            license: None,
        })
    ));
}

#[test]
fn parses_init_target_and_metadata() {
    assert!(matches!(
        parse(&[
            "rpx",
            "init",
            "projects/example",
            "--name",
            "example.pkg",
            "--title",
            "Example Package",
            "--description",
            "An example package.",
            "--author-name",
            "Example Author",
            "--author-email",
            "author@example.com",
            "--license",
            "apache-2.0",
        ]),
        Commands::Init(InitArgs {
            path: Some(path),
            name: Some(name),
            title: Some(title),
            description: Some(description),
            author_name: Some(author_name),
            author_email: Some(author_email),
            license: Some(license),
        }) if path == "projects/example"
            && name == "example.pkg"
            && title == "Example Package"
            && description == "An example package."
            && author_name == "Example Author"
            && author_email == "author@example.com"
            && license == InitLicense::Apache2
    ));
}

#[test]
fn parses_add_dependency_fields() {
    for (flag, expected) in [
        (None, DependencyField::Imports),
        (Some("--depends"), DependencyField::Depends),
        (Some("--imports"), DependencyField::Imports),
        (Some("--linking-to"), DependencyField::LinkingTo),
        (Some("--suggests"), DependencyField::Suggests),
        (Some("--dev"), DependencyField::Suggests),
    ] {
        let mut arguments = vec!["rpx", "add"];
        arguments.extend(flag);
        arguments.push("digest@>=0.6.37");

        let Commands::Add {
            packages,
            dependency_type,
        } = parse(&arguments)
        else {
            panic!("add command should parse");
        };

        assert_eq!(packages, ["digest@>=0.6.37"]);
        assert_eq!(DependencyField::from(dependency_type), expected);
    }
}

#[test]
fn rejects_multiple_add_dependency_fields() {
    let flags = ["--depends", "--imports", "--linking-to", "--suggests"];

    assert!(flags.iter().enumerate().all(|(index, first)| {
        flags
            .iter()
            .skip(index + 1)
            .all(|second| try_parse(&["rpx", "add", first, second, "digest"]).is_err())
    }));
    assert!(try_parse(&["rpx", "add", "--enhances", "digest"]).is_err());
}

#[test]
fn add_help_lists_supported_dependency_fields() {
    let Err(CliError::Help(topic, true)) = try_parse(&["rpx", "add", "--help"]) else {
        panic!("help should be asked for");
    };
    assert_eq!(topic, HelpTopic::Add);
    let help = topic.text(true);

    assert!(
        [
            "--depends",
            "--imports",
            "--linking-to",
            "--suggests",
            "--dev",
        ]
        .iter()
        .all(|flag| help.contains(flag))
    );
    assert!(!help.contains("--enhances"));
}

#[test]
fn parses_base_repository_commands() {
    assert!(matches!(
        parse(&["rpx", "repo", "base", "set", "https://example.test/cran"]),
        Commands::Repo {
            command: RepoCommands::Base {
                command: RepoBaseCommands::SetUrl(RepoBaseSetArgs { url })
            }
        } if url == "https://example.test/cran"
    ));
    assert!(matches!(
        parse(&["rpx", "repo", "base", "reset", "--remove-credential"]),
        Commands::Repo {
            command: RepoCommands::Base {
                command: RepoBaseCommands::Reset(RepoBaseResetArgs {
                    remove_credential: true
                })
            }
        }
    ));
}

#[test]
fn parses_explicit_and_shortcut_additional_commands() {
    for arguments in [
        vec!["rpx", "repo", "add", "https://example.test/cran"],
        vec![
            "rpx",
            "repo",
            "additional",
            "add",
            "https://example.test/cran",
        ],
    ] {
        assert!(matches!(
            parse(&arguments),
            Commands::Repo {
                command: RepoCommands::Add(RepoAdditionalAddArgs { url })
                    | RepoCommands::Additional {
                        command: RepoAdditionalCommands::Add(RepoAdditionalAddArgs { url })
                    }
            } if url == "https://example.test/cran"
        ));
    }
}

#[test]
fn parses_explicit_and_shortcut_additional_removals() {
    for arguments in [
        vec![
            "rpx",
            "repo",
            "remove",
            "https://example.test/cran",
            "--remove-credential",
        ],
        vec![
            "rpx",
            "repo",
            "additional",
            "remove",
            "https://example.test/cran",
            "--remove-credential",
        ],
    ] {
        assert!(matches!(
            parse(&arguments),
            Commands::Repo {
                command: RepoCommands::Remove(RepoAdditionalRemoveArgs {
                    url,
                    remove_credential: true
                }) | RepoCommands::Additional {
                    command: RepoAdditionalCommands::Remove(RepoAdditionalRemoveArgs {
                        url,
                        remove_credential: true
                    })
                }
            } if url == "https://example.test/cran"
        ));
    }
}

#[test]
fn parses_remote_repository_commands_without_git_specific_types() {
    assert!(matches!(
        parse(&["rpx", "repo", "remote", "add", "github::owner/repository@main"]),
        Commands::Repo {
            command: RepoCommands::Remote {
                command: RepoRemoteCommands::Add(RepoRemoteArgs { remote })
            }
        } if remote == "github::owner/repository@main"
    ));
}

#[test]
fn parses_repository_list_filter() {
    assert!(matches!(
        parse(&["rpx", "repo", "list", "--type", "remote"]),
        Commands::Repo {
            command: RepoCommands::List(RepoListArgs {
                repository_type: Some(RepositoryType::Remote)
            })
        }
    ));
}

#[test]
fn reads_values_after_an_equals_sign() {
    assert!(matches!(
        parse(&["rpx", "init", "--name=a=b", "--", "--path"]),
        Commands::Init(InitArgs { path: Some(path), name: Some(name), .. })
            if path == "--path" && name == "a=b"
    ));
}

#[test]
fn runs_commands_as_written() {
    for arguments in [
        vec!["rpx", "run", "R", "--no-save", "-e", "--help"],
        vec!["rpx", "run", "--", "R", "--no-save", "-e", "--help"],
    ] {
        assert!(matches!(
            parse(&arguments),
            Commands::Run { command } if command == ["R", "--no-save", "-e", "--help"]
        ));
    }
}

#[test]
fn parses_simple_commands() {
    assert!(matches!(parse(&["rpx", "lock"]), Commands::Lock {}));
    assert!(matches!(parse(&["rpx", "status"]), Commands::Status));
    assert!(matches!(parse(&["rpx", "clean"]), Commands::Clean));
    assert!(matches!(
        parse(&["rpx", "sync", "--install-system"]),
        Commands::Sync { install_system: true, install_only_system: false }
    ));
    assert!(matches!(
        parse(&["rpx", "remove", "a", "b"]),
        Commands::Remove { packages } if packages == ["a", "b"]
    ));
}

#[test]
fn tells_each_fault_of_a_command_line() {
    assert!(matches!(
        try_parse(&["rpx"]),
        Err(CliError::MissingCommand(HelpTopic::Rpx))
    ));
    assert!(matches!(try_parse(&["rpx", "--version"]), Err(CliError::Version)));
    assert!(matches!(
        try_parse(&["rpx", "help", "sync"]),
        Err(CliError::Help(HelpTopic::Sync, true))
    ));
    assert!(matches!(
        try_parse(&["rpx", "frobnicate"]),
        Err(CliError::UnknownCommand { name }) if name == "frobnicate"
    ));
    assert!(matches!(
        try_parse(&["rpx", "lock", "now"]),
        Err(CliError::UnexpectedArgument { argument }) if argument == "now"
    ));
    assert!(matches!(
        try_parse(&["rpx", "init", "--name"]),
        Err(CliError::MissingValue { option }) if option == "name"
    ));
    assert!(matches!(
        try_parse(&["rpx", "init", "--name", "--title"]),
        Err(CliError::MissingValue { option }) if option == "name"
    ));
    assert!(matches!(
        try_parse(&["rpx", "init", "--name", "a", "--name", "b"]),
        Err(CliError::RepeatedOption { option }) if option == "name"
    ));
    assert!(matches!(
        try_parse(&["rpx", "init", "--license", "beer"]),
        Err(CliError::InvalidValue { option, value }) if option == "license" && value == "beer"
    ));
    assert!(matches!(
        try_parse(&["rpx", "add", "--dev"]),
        Err(CliError::MissingArgument { name: "PACKAGE[@CONSTRAINTVERSION]" })
    ));
    assert!(matches!(
        try_parse(&["rpx", "add", "--suggests", "--dev", "a"]),
        Err(CliError::RepeatedOption { option }) if option == "dev"
    ));
    assert!(matches!(
        try_parse(&["rpx", "sync", "--install-system", "--install-only-system"]),
        Err(CliError::ConflictingOptions(HelpTopic::Sync))
    ));
    assert_eq!(
        try_parse(&["rpx", "lock", "now"]).unwrap_err().message(),
        "unexpected argument 'now' found"
    );
    assert_eq!(
        try_parse(&["rpx", "init", "--license", "beer"]).unwrap_err().message(),
        "invalid value 'beer' for '--license'"
    );
}

#[test]
fn every_subcommand_has_its_own_help() {
    let topic = |arguments: &[&str]| match try_parse(arguments) {
        Err(CliError::Help(topic, at_length)) => (topic, at_length),
        other => panic!("help should be asked for: {other:?}"),
    };
    assert_eq!(topic(&["rpx", "repo", "--help"]), (HelpTopic::Repo, true));
    assert_eq!(topic(&["rpx", "repo", "list", "--help"]), (HelpTopic::RepoList, true));
    assert_eq!(topic(&["rpx", "repo", "add", "-h"]), (HelpTopic::RepoAdd, false));
    assert_eq!(topic(&["rpx", "repo", "remove", "x", "-h"]), (HelpTopic::RepoRemove, false));
    assert_eq!(topic(&["rpx", "repo", "base", "set", "-h"]), (HelpTopic::RepoBaseSet, false));
    assert_eq!(topic(&["rpx", "repo", "base", "reset", "-h"]), (HelpTopic::RepoBaseReset, false));
    assert_eq!(
        topic(&["rpx", "repo", "additional", "add", "-h"]),
        (HelpTopic::RepoAdditionalAdd, false)
    );
    assert_eq!(
        topic(&["rpx", "repo", "additional", "remove", "-h"]),
        (HelpTopic::RepoAdditionalRemove, false)
    );
    assert_eq!(
        topic(&["rpx", "repo", "remote", "add", "-h"]),
        (HelpTopic::RepoRemoteAdd, false)
    );
    assert_eq!(
        topic(&["rpx", "repo", "remote", "remove", "-h"]),
        (HelpTopic::RepoRemoteRemove, false)
    );
    assert_eq!(topic(&["rpx", "help"]), (HelpTopic::Rpx, true));
    assert_eq!(topic(&["rpx", "help", "help"]), (HelpTopic::Help, true));
    assert_eq!(topic(&["rpx", "help", "repo", "add"]), (HelpTopic::RepoAdd, true));
    assert_eq!(topic(&["rpx", "help", "repo", "base", "set"]), (HelpTopic::RepoBaseSet, true));
    assert_eq!(topic(&["rpx", "repo", "help", "remote"]), (HelpTopic::RepoRemote, true));
    assert_eq!(
        topic(&["rpx", "repo", "base", "help", "help"]),
        (HelpTopic::RepoBaseHelp, true)
    );
    for arguments in [vec!["rpx", "help", "repo", "now"], vec!["rpx", "help", "lock", "now"]] {
        assert!(matches!(
            try_parse(&arguments),
            Err(CliError::UnknownCommand { name }) if name == "now"
        ));
    }
    assert_eq!(
        HelpTopic::RepoRemove.text(true),
        "Remove an additional repository (shortcut)\n\nUsage: rpx repo remove [OPTIONS] <URL>\n\n\
Arguments:\n  <URL>  Repository base URL\n\nOptions:\n      --remove-credential  Also remove any \
stored API key for this repository's origin\n  -h, --help               Print help\n"
    );
    assert!(HelpTopic::Lock.text(false).starts_with("Resolve project dependencies\n"));
    assert!(HelpTopic::Lock.text(true).starts_with("Resolve project dependencies from"));
}
