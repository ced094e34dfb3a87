//! Dependencies of R projects: what a project asks for, which versions fit together, and how
//! its library is brought to hold exactly those.
use vstd::prelude::*;

pub mod add;
pub mod artifact;
pub mod audit;
pub mod bytes;
pub mod cache;
pub mod catalog;
pub mod cli;
pub mod description;
pub mod digest;
pub mod document;
pub mod git;
pub mod http;
pub mod init;
pub mod listing;
pub mod location;
pub mod lockfile;
pub mod metadata;
pub mod order;
pub mod path;
pub mod pin;
pub mod project;
pub mod r;
pub mod range;
pub mod remote;
pub mod repo;
pub mod report;
pub mod repository;
pub mod resolution;
pub mod resolver;
pub mod schedule;
pub mod sorted;
pub mod sorting;
pub mod status;
pub mod sync;
pub mod text;
pub mod uri;
pub mod wire;

verus! {

} // verus!
