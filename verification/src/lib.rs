//! Memora is a build artifact cache for Git repositories.  Its purpose is to
//! minimize redundant builds by recognising that when none of an artifact's
//! inputs changed between two revisions, the outputs produced at the earlier
//! revision are still valid at the later one.
//!
//! The crate is organised as a decision core: every rule of the cache engine
//! (artifact resolution, required-revision computation, candidate selection,
//! copy planning) is a verified function over facts about the repository and
//! the cache directory.  The facts themselves are gathered by a thin driver
//! that runs the version-control tool and the filesystem operations, records
//! each answer, and retries the engine until no fact is missing.

//! Modules: [`git`] models repositories, objects and the recorded ancestry
//! facts; [`cache`] holds the engine — artifact resolution, required-revision
//! computation, candidate selection, and the copy plans of `get` and
//! `insert`; [`pattern`] is the `%` placeholder grammar; [`config`] the
//! manifest; [`fs`] the recursive-copy planner; [`util`] small string and
//! path helpers.

pub mod cache;
pub mod config;
pub mod fs;
pub mod git;
pub mod pattern;
pub mod util;
