//! Reference resolution: mapping a reference name to the first document in
//! the corpus whose filename stem equals the name.
//!
//! The corpus is an ordered collection of locations; resolution is a plain
//! first-match lookup. When several documents share a stem, the one that
//! appears earliest in enumeration order wins — a deliberate, deterministic,
//! order-dependent tie-break.

use vstd::prelude::*;
use crate::location::{Location, bytes_eq, loc_stem};

verus! {

/// The mathematical corpus: the view of each location, in order.
pub open spec fn corpus_view(entries: Seq<Location>) -> Seq<Seq<Seq<u8>>> {
    entries.map_values(|l: Location| l@)
}

/// First index at or after `k` whose stem equals `name`, if any.
pub open spec fn resolve_from(name: Seq<u8>, corpus: Seq<Seq<Seq<u8>>>, k: int) -> Option<int>
    decreases corpus.len() - k,
{
    if k < 0 || k >= corpus.len() {
        None
    } else if loc_stem(corpus[k]) == name {
        Some(k)
    } else {
        resolve_from(name, corpus, k + 1)
    }
}

/// The index of the document a reference name resolves to: the first
/// location in the corpus whose stem equals the name.
pub open spec fn resolve_spec(name: Seq<u8>, corpus: Seq<Seq<Seq<u8>>>) -> Option<int> {
    resolve_from(name, corpus, 0)
}

/// What resolution returns: the matched index is in range, its stem equals
/// the name, nothing earlier matches; a miss means nothing matches at all.
/// Because resolution is a function of the name and the corpus alone,
/// repeating it on the same corpus ordering always picks the same document.
pub proof fn lemma_resolve_first(name: Seq<u8>, corpus: Seq<Seq<Seq<u8>>>, k: int)
    requires
        0 <= k <= corpus.len(),
    ensures
        match resolve_from(name, corpus, k) {
            Some(m) => {
                &&& k <= m < corpus.len()
                &&& loc_stem(corpus[m]) == name
                &&& forall|j: int| k <= j < m ==> loc_stem(#[trigger] corpus[j]) != name
            },
            None => forall|j: int| k <= j < corpus.len() ==> loc_stem(#[trigger] corpus[j]) != name,
        },
    decreases corpus.len() - k,
{
    if k < corpus.len() && loc_stem(corpus[k]) != name {
        lemma_resolve_first(name, corpus, k + 1);
    }
}

/// Resolution always picks the first matching document: if the document at
/// index `i` matches `name`, resolution yields some index no later than `i`,
/// that index matches, and no earlier index does.
pub proof fn lemma_tie_break_first(name: Seq<u8>, corpus: Seq<Seq<Seq<u8>>>, i: int)
    requires
        0 <= i < corpus.len(),
        loc_stem(corpus[i]) == name,
    ensures
        resolve_spec(name, corpus) matches Some(m) && m <= i
            && loc_stem(corpus[m]) == name
            && forall|j: int| 0 <= j < m ==> loc_stem(#[trigger] corpus[j]) != name,
{
    lemma_resolve_first(name, corpus, 0);
}

/// Looks `reference` up in the corpus: the index of the first location whose
/// filename stem equals the reference name, or nothing when no stem matches.
pub fn resolve(reference: &[u8], entries: &Vec<Location>) -> (r: Option<usize>)
    ensures
        match r {
            Some(i) => i < entries@.len()
                && resolve_spec(reference@, corpus_view(entries@)) == Some(i as int),
            None => resolve_spec(reference@, corpus_view(entries@)) is None,
        },
{
    let ghost corpus = corpus_view(entries@);
    let n = entries.len();
    let mut i: usize = 0;
    while i < n
        invariant
            i <= n,
            n == entries@.len(),
            corpus == corpus_view(entries@),
            corpus.len() == n,
            resolve_from(reference@, corpus, 0) == resolve_from(reference@, corpus, i as int),
        decreases n - i,
    {
        let entry = &entries[i];
        proof {
            assert(corpus[i as int] == entry@);
        }
        if entry.segments.len() == 0 {
            let empty: Vec<u8> = Vec::new();
            if bytes_eq(reference, empty.as_slice()) {
                return Some(i);
            }
        } else {
            let last = &entry.segments[entry.segments.len() - 1];
            proof {
                assert(entry@.last() == last@);
            }
            let stem = crate::location::stem_of(last.as_slice());
            if bytes_eq(reference, stem.as_slice()) {
                return Some(i);
            }
        }
        i = i + 1;
    }
    None
}

} // verus!
