//! Extension-loading engine for a script-driven text editor: an ordered
//! search-path accumulator, directory scanning for loadable scripts, a
//! build-versioned persistent scan cache, deferred (lazy) package
//! activation, and a bounded-concurrency install scheduler.

pub mod cache;
pub mod codec;
pub mod install;
pub mod lazy;
pub mod plugin;
pub mod run;
pub mod runtimepath;
pub mod setup;
pub mod text;
pub mod walk;

use vstd::prelude::*;

verus! {

/// Separator between entries in the editor's serialized option values.
pub const OPT_SEP: char = ',';

} // verus!
