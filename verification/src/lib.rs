//! A verified core for indexing the symlinks found under a root directory:
//! lexical path algebra, symlink validation, skip patterns, the walker's
//! decisions and the persistence rules of the symlink table.
use vstd::prelude::*;

pub mod text;
pub mod path;
pub mod symlink;
pub mod sqlite;
pub mod clock;
pub mod database;
pub mod skip;
pub mod walker;
pub mod config;
pub mod cli;

verus! {
} // verus!
