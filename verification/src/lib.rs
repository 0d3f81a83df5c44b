//! Decides whether a captured development environment is still valid and
//! replays it as shell statements.
//!
//! * [`env`] computes the changes between two snapshots of environment
//!   variables and folds chained changes into one; [`env_laws`] proves what
//!   holds of them for all snapshots.
//! * [`sums`] fingerprints a list of watched files into one signature.
//! * [`bash`] renders arbitrary bytes as a word that a shell reads back
//!   byte for byte; [`shell_word`] proves that it does.
//! * [`cache`] turns a record of changes and checksums into bytes and back,
//!   on the building blocks of [`codec`].
//! * [`status`] judges an environment against its record.
//! * [`hook`] writes the shell script that brings a shell into the cached
//!   environment.
//! * [`config`] puts the paths of a project together.
//! * [`bytes`] orders byte strings and [`order`] sorts by them.

pub mod bash;
pub mod bytes;
pub mod cache;
pub mod codec;
pub mod config;
pub mod env;
pub mod env_laws;
pub mod hook;
pub mod order;
pub mod shell_word;
pub mod status;
pub mod sums;
