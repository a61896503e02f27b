//! Cross-file awareness core for a language server over a scripting
//! language whose files source one another at runtime.
//!
//! The crate parses cross-file directives out of file text, resolves the
//! paths they name, keeps a bidirectional dependency graph, caches parsed
//! metadata and per-file analysis artifacts, ranks open files by activity,
//! plans revalidation fan-out after an edit, and gates diagnostic
//! publication so each document version is published at most once.

pub mod uri;
pub mod urimap;
pub mod gate;
pub mod activity;
pub mod scope;
pub mod types;
pub mod graph;
pub mod reval;
pub mod codec;
pub mod cache;
pub mod directive;
pub mod path_resolve;
pub mod parent;
pub mod index;
pub mod coordinator;

use vstd::prelude::*;

verus! {

/// A capacity that fell to zero falls back to `default`.
pub fn non_zero_or(value: usize, default: usize) -> (r: usize)
    requires
        default >= 1,
    ensures
        r == if value >= 1 { value as int } else { default as int },
        r >= 1,
{
    if value >= 1 {
        value
    } else {
        default
    }
}

} // verus!
