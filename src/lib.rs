//! A personal shell-alias and script manager.
//!
//! The library holds the logic of the manager: the alias statement codec,
//! an in-memory model of the entity store with its group invariants, the
//! fuzzy name resolver and the generator of the shell run-control file.
//! Persistence, prompts and the command line live outside of it.

pub mod text;
pub mod model;
pub mod codec;
pub mod runcom;
pub mod paths;
pub mod store;
pub mod resolve;
pub mod legacy;
