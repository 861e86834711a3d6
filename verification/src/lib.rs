//! A scoped filesystem access-control gate.
//!
//! A [`guard::ScopeGuard`] owns an allow-list of normalized directory paths,
//! each flagged recursive or non-recursive, and answers authorization
//! queries for file-path access requests. Paths are normalized into
//! sequences of segments, and matching is segment-aware: a recursive grant
//! for `/data` covers `/data/file.txt` but never `/data2/file.txt`.

pub mod guard;
pub mod laws;
pub mod norm;
