//! Wikilink resolution and cross-reference linking engine.
//!
//! A corpus of known document locations is built once; for each document,
//! reference tokens of the form `[[name]]` are resolved against the corpus
//! and rewritten as Markdown links whose paths are relative to the
//! referencing document's location.

pub mod links;
pub mod location;
pub mod relpath;
pub mod resolve;
pub mod rewrite;

use vstd::prelude::*;

verus! {

} // verus!
