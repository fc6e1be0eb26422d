//! Link construction: the two rewritten forms of a reference token.
//!
//! A token whose name resolves becomes a resolved link
//! `[name](relative-path)`; one that matches no corpus stem becomes the stub
//! link `[name](./)`. A relativizer failure (a referencing location with no
//! segments) renders that one token as an empty substitution instead of
//! stopping the run.

use vstd::prelude::*;
use crate::location::{Location, SLASH, DOT, loc_stem};
use crate::relpath::{encoded_rel_path, relative_path};
use crate::resolve::{corpus_view, resolve, resolve_spec, lemma_resolve_first};

verus! {

/// Byte value of `[`.
pub const LBRACKET: u8 = 91;

/// Byte value of `]`.
pub const RBRACKET: u8 = 93;

/// Byte value of `(`.
pub const LPAREN: u8 = 40;

/// Byte value of `)`.
pub const RPAREN: u8 = 41;

/// The stub link `[name](./)`, produced when no corpus stem equals the name.
pub open spec fn stub_link_spec(name: Seq<u8>) -> Seq<u8> {
    seq![LBRACKET] + name + seq![RBRACKET, LPAREN, DOT, SLASH, RPAREN]
}

/// The resolved link `[name](path)` with the percent-encoded path relative
/// to the referencing document, or the empty substitution when no relative
/// path exists because the referencing location has no segments.
pub open spec fn resolved_link_spec(
    name: Seq<u8>,
    target: Seq<Seq<u8>>,
    refloc: Seq<Seq<u8>>,
) -> Seq<u8> {
    if refloc.len() == 0 {
        Seq::empty()
    } else {
        seq![LBRACKET] + name + seq![RBRACKET, LPAREN] + encoded_rel_path(target, refloc)
            + seq![RPAREN]
    }
}

/// What a reference token turns into: the resolved link for the first
/// corpus document whose stem equals the name, else the stub link.
pub open spec fn find_reference_spec(
    name: Seq<u8>,
    corpus: Seq<Seq<Seq<u8>>>,
    refloc: Seq<Seq<u8>>,
) -> Seq<u8> {
    match resolve_spec(name, corpus) {
        Some(i) => resolved_link_spec(name, corpus[i], refloc),
        None => stub_link_spec(name),
    }
}

/// Builds the stub link `[reference](./)`.
pub fn stub_link(reference: &[u8]) -> (r: Vec<u8>)
    ensures
        r@ == stub_link_spec(reference@),
{
    let mut r: Vec<u8> = Vec::new();
    r.push(LBRACKET);
    crate::location::push_bytes(&mut r, reference);
    r.push(RBRACKET);
    r.push(LPAREN);
    r.push(DOT);
    r.push(SLASH);
    r.push(RPAREN);
    proof {
        assert(r@ =~= stub_link_spec(reference@));
    }
    r
}

/// Builds the resolved link for the document at `entry`, as referenced by
/// name from the document at `entry_path`.
pub fn format_link(entry: &Location, reference: &[u8], entry_path: &Location) -> (r: Vec<u8>)
    ensures
        r@ == resolved_link_spec(reference@, entry@, entry_path@),
{
    match relative_path(entry, entry_path) {
        None => Vec::new(),
        Some(path) => {
            let mut r: Vec<u8> = Vec::new();
            r.push(LBRACKET);
            crate::location::push_bytes(&mut r, reference);
            r.push(RBRACKET);
            r.push(LPAREN);
            crate::location::push_bytes(&mut r, path.as_slice());
            r.push(RPAREN);
            proof {
                assert(r@ =~= resolved_link_spec(reference@, entry@, entry_path@));
            }
            r
        },
    }
}

/// Resolves `reference` against the corpus and renders the outcome: the
/// resolved link for the first document whose filename stem equals the
/// reference, or the stub link `[reference](./)` when none matches.
pub fn find_reference(reference: &[u8], entries: &Vec<Location>, entry_path: &Location) -> (r:
    Vec<u8>)
    ensures
        r@ == find_reference_spec(reference@, corpus_view(entries@), entry_path@),
{
    match resolve(reference, entries) {
        Some(i) => {
            proof {
                assert(corpus_view(entries@)[i as int] == entries@[i as int]@);
            }
            format_link(&entries[i], reference, entry_path)
        },
        None => stub_link(reference),
    }
}

/// Stub correctness: a reference name that matches no corpus stem always
/// rewrites to the stub link `[name](./)`.
pub proof fn lemma_stub_when_unresolved(
    name: Seq<u8>,
    corpus: Seq<Seq<Seq<u8>>>,
    refloc: Seq<Seq<u8>>,
)
    requires
        forall|i: int| 0 <= i < corpus.len() ==> loc_stem(#[trigger] corpus[i]) != name,
    ensures
        find_reference_spec(name, corpus, refloc) == stub_link_spec(name),
{
    lemma_resolve_first(name, corpus, 0);
}

} // verus!
