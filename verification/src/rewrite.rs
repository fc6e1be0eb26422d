//! The link rewriter: a single left-to-right pass over document text that
//! finds reference tokens `[[name]]` and substitutes resolved or stub links.
//!
//! Matching is non-greedy and non-nested: the first `]]` after a `[[` always
//! closes the token, and scanning resumes after the consumed `]]`, so
//! adjacent tokens never overlap. All non-token text is preserved verbatim.

use vstd::prelude::*;
use crate::links::{LBRACKET, RBRACKET, find_reference, find_reference_spec};
use crate::location::Location;
use crate::resolve::corpus_view;

verus! {

/// An opening delimiter `[[` starts at index `i` of `s`.
pub open spec fn open_at(s: Seq<u8>, i: int) -> bool {
    0 <= i && i + 2 <= s.len() && s[i] == LBRACKET && s[i + 1] == LBRACKET
}

/// A closing delimiter `]]` starts at index `i` of `s`.
pub open spec fn close_at(s: Seq<u8>, i: int) -> bool {
    0 <= i && i + 2 <= s.len() && s[i] == RBRACKET && s[i + 1] == RBRACKET
}

/// A reference token occurs somewhere in `s`: an opening delimiter with a
/// closing delimiter no earlier than the end of the opening one.
pub open spec fn has_token(s: Seq<u8>) -> bool {
    exists|i: int, j: int| #[trigger] open_at(s, i) && #[trigger] close_at(s, j) && i + 2 <= j
}

/// Position of the first opening delimiter at or after `k`, if any.
pub open spec fn first_open_from(s: Seq<u8>, k: int) -> Option<int>
    decreases s.len() - k,
{
    if k < 0 || k + 2 > s.len() {
        None
    } else if open_at(s, k) {
        Some(k)
    } else {
        first_open_from(s, k + 1)
    }
}

/// Position of the first closing delimiter at or after `k`, if any.
pub open spec fn first_close_from(s: Seq<u8>, k: int) -> Option<int>
    decreases s.len() - k,
{
    if k < 0 || k + 2 > s.len() {
        None
    } else if close_at(s, k) {
        Some(k)
    } else {
        first_close_from(s, k + 1)
    }
}

/// What the found positions mean: a hit is the least opening delimiter at or
/// after `k`; a miss means there is none.
pub proof fn lemma_first_open_from(s: Seq<u8>, k: int)
    requires
        0 <= k,
    ensures
        match first_open_from(s, k) {
            Some(i) => k <= i && open_at(s, i) && forall|m: int| k <= m < i ==> !open_at(s, m),
            None => forall|m: int| m >= k ==> !open_at(s, m),
        },
    decreases s.len() - k,
{
    if !(k + 2 > s.len()) && !open_at(s, k) {
        lemma_first_open_from(s, k + 1);
    }
}

/// What the found positions mean, for closing delimiters.
pub proof fn lemma_first_close_from(s: Seq<u8>, k: int)
    requires
        0 <= k,
    ensures
        match first_close_from(s, k) {
            Some(i) => k <= i && close_at(s, i) && forall|m: int| k <= m < i ==> !close_at(s, m),
            None => forall|m: int| m >= k ==> !close_at(s, m),
        },
    decreases s.len() - k,
{
    if !(k + 2 > s.len()) && !close_at(s, k) {
        lemma_first_close_from(s, k + 1);
    }
}

proof fn lemma_first_open_at(s: Seq<u8>, k: int, i: int)
    requires
        0 <= k <= i,
        open_at(s, i),
        forall|m: int| k <= m < i ==> !open_at(s, m),
    ensures
        first_open_from(s, k) == Some(i),
    decreases i - k,
{
    if k < i {
        lemma_first_open_at(s, k + 1, i);
    }
}

proof fn lemma_first_close_at(s: Seq<u8>, k: int, i: int)
    requires
        0 <= k <= i,
        close_at(s, i),
        forall|m: int| k <= m < i ==> !close_at(s, m),
    ensures
        first_close_from(s, k) == Some(i),
    decreases i - k,
{
    if k < i {
        lemma_first_close_at(s, k + 1, i);
    }
}

/// The rewritten form of the text from position `pos` on: up to the next
/// token the text is kept verbatim, the token becomes its link, and the rest
/// is rewritten in turn; with no further token the tail is kept whole.
pub open spec fn rewrite_from(
    text: Seq<u8>,
    corpus: Seq<Seq<Seq<u8>>>,
    refloc: Seq<Seq<u8>>,
    pos: int,
) -> Seq<u8>
    decreases text.len() - pos,
{
    if pos < 0 || pos > text.len() {
        Seq::empty()
    } else {
        match first_open_from(text, pos) {
            None => text.skip(pos),
            Some(i) => match first_close_from(text, i + 2) {
                None => text.skip(pos),
                Some(j) => if pos <= i && i + 2 <= j && j + 2 <= text.len() {
                    text.subrange(pos, i) + find_reference_spec(
                        text.subrange(i + 2, j),
                        corpus,
                        refloc,
                    ) + rewrite_from(text, corpus, refloc, j + 2)
                } else {
                    text.skip(pos)
                },
            },
        }
    }
}

/// The rewritten form of a whole document.
pub open spec fn rewrite_spec(text: Seq<u8>, corpus: Seq<Seq<Seq<u8>>>, refloc: Seq<Seq<u8>>) -> Seq<
    u8,
> {
    rewrite_from(text, corpus, refloc, 0)
}

/// Finds the first opening delimiter `[[` at or after `from`.
fn find_open(text: &[u8], from: usize) -> (r: Option<usize>)
    ensures
        match r {
            Some(i) => from <= i && i + 2 <= text@.len() && first_open_from(text@, from as int)
                == Some(i as int),
            None => first_open_from(text@, from as int) is None,
        },
{
    let len = text.len();
    let mut m = from;
    while m < len && m + 1 < len
        invariant
            from <= m,
            len == text@.len(),
            first_open_from(text@, from as int) == first_open_from(text@, m as int),
        decreases len - m,
    {
        if *vstd::slice::slice_index_get(text, m) == LBRACKET && *vstd::slice::slice_index_get(
            text,
            m + 1,
        ) == LBRACKET {
            return Some(m);
        }
        m = m + 1;
    }
    None
}

/// Finds the first closing delimiter `]]` at or after `from`.
fn find_close(text: &[u8], from: usize) -> (r: Option<usize>)
    ensures
        match r {
            Some(i) => from <= i && i + 2 <= text@.len() && first_close_from(text@, from as int)
                == Some(i as int),
            None => first_close_from(text@, from as int) is None,
        },
{
    let len = text.len();
    let mut m = from;
    while m < len && m + 1 < len
        invariant
            from <= m,
            len == text@.len(),
            first_close_from(text@, from as int) == first_close_from(text@, m as int),
        decreases len - m,
    {
        if *vstd::slice::slice_index_get(text, m) == RBRACKET && *vstd::slice::slice_index_get(
            text,
            m + 1,
        ) == RBRACKET {
            return Some(m);
        }
        m = m + 1;
    }
    None
}

/// Rewrites every reference token in `text` left to right: the name between
/// the delimiters is resolved against `entries` and replaced by its resolved
/// or stub link relative to the document at `entry`; all other text is kept
/// verbatim and in order.
pub fn find_wikilinks(text: &[u8], entries: &Vec<Location>, entry: &Location) -> (r: Vec<u8>)
    ensures
        r@ == rewrite_spec(text@, corpus_view(entries@), entry@),
{
    let ghost corpus = corpus_view(entries@);
    let len = text.len();
    let mut out: Vec<u8> = Vec::new();
    let mut pos: usize = 0;
    proof {
        assert(out@ + rewrite_from(text@, corpus, entry@, 0) =~= rewrite_spec(
            text@,
            corpus,
            entry@,
        ));
    }
    loop
        invariant
            pos <= len,
            len == text@.len(),
            corpus == corpus_view(entries@),
            rewrite_spec(text@, corpus, entry@) == out@ + rewrite_from(
                text@,
                corpus,
                entry@,
                pos as int,
            ),
        decreases len - pos,
    {
        let ghost pre = out@;
        match find_open(text, pos) {
            None => {
                crate::location::push_bytes(&mut out, vstd::slice::slice_subrange(text, pos, len));
                proof {
                    assert(rewrite_from(text@, corpus, entry@, pos as int) == text@.skip(
                        pos as int,
                    ));
                    assert(text@.subrange(pos as int, len as int) =~= text@.skip(pos as int));
                }
                return out;
            },
            Some(i) => {
                match find_close(text, i + 2) {
                    None => {
                        crate::location::push_bytes(
                            &mut out,
                            vstd::slice::slice_subrange(text, pos, len),
                        );
                        proof {
                            if first_open_from(text@, pos as int) matches Some(oi) {
                                assert(rewrite_from(text@, corpus, entry@, pos as int) == text@.skip(
                                    pos as int,
                                ));
                            }
                            assert(text@.subrange(pos as int, len as int) =~= text@.skip(
                                pos as int,
                            ));
                        }
                        return out;
                    },
                    Some(j) => {
                        proof {
                            lemma_first_open_from(text@, pos as int);
                            lemma_first_close_from(text@, i + 2 as int);
                        }
                        crate::location::push_bytes(
                            &mut out,
                            vstd::slice::slice_subrange(text, pos, i),
                        );
                        let name = vstd::slice::slice_subrange(text, i + 2, j);
                        let link = find_reference(name, entries, entry);
                        crate::location::push_bytes(&mut out, link.as_slice());
                        proof {
                            assert(rewrite_from(text@, corpus, entry@, pos as int) == text@.subrange(
                                pos as int,
                                i as int,
                            ) + find_reference_spec(
                                text@.subrange(i + 2 as int, j as int),
                                corpus,
                                entry@,
                            ) + rewrite_from(text@, corpus, entry@, j + 2 as int));
                            assert(out@ + rewrite_from(text@, corpus, entry@, j + 2 as int) =~= pre
                                + rewrite_from(text@, corpus, entry@, pos as int));
                        }
                        pos = j + 2;
                    },
                }
            },
        }
    }
}

/// A byte string that can stand between token delimiters as a name: it holds
/// no closing delimiter of its own and does not end with `]`, so the `]]`
/// written after it is the first closing delimiter that follows the opening
/// one.
pub open spec fn valid_name(n: Seq<u8>) -> bool {
    &&& forall|m: int| !close_at(n, m)
    &&& (n.len() > 0 ==> n[n.len() - 1] != RBRACKET)
}

/// The raw text of a reference token carrying the name `n`.
pub open spec fn token(n: Seq<u8>) -> Seq<u8> {
    seq![LBRACKET, LBRACKET] + n + seq![RBRACKET, RBRACKET]
}

/// Non-overlap of adjacent tokens: text made of two back-to-back tokens with
/// nothing between them is rewritten as exactly two independent
/// substitutions, in left-to-right order, neither consuming the other's
/// delimiters.
#[verifier::rlimit(60)]
pub proof fn lemma_adjacent_tokens(
    a: Seq<u8>,
    b: Seq<u8>,
    corpus: Seq<Seq<Seq<u8>>>,
    refloc: Seq<Seq<u8>>,
)
    requires
        valid_name(a),
        valid_name(b),
    ensures
        rewrite_spec(token(a) + token(b), corpus, refloc) == find_reference_spec(a, corpus, refloc)
            + find_reference_spec(b, corpus, refloc),
{
    let text = token(a) + token(b);
    let la = a.len() as int;
    let lb = b.len() as int;
    let len = la + lb + 8;
    assert(text.len() == len);
    assert forall|m: int| 0 <= m < la implies text[2 + m] == a[m] by {
        assert(token(a)[2 + m] == a[m]);
    }
    assert forall|m: int| 0 <= m < lb implies text[la + 6 + m] == b[m] by {
        assert(token(b)[2 + m] == b[m]);
    }
    assert(text[0] == LBRACKET && text[1] == LBRACKET);
    assert(text[la + 2] == RBRACKET && text[la + 3] == RBRACKET);
    assert(text[la + 4] == LBRACKET && text[la + 5] == LBRACKET);
    assert(text[la + lb + 6] == RBRACKET && text[la + lb + 7] == RBRACKET);

    // The first token: opened at 0, closed by the first `]]` at la + 2.
    assert(open_at(text, 0));
    lemma_first_open_at(text, 0, 0);
    assert forall|m: int| 2 <= m < la + 2 implies !close_at(text, m) by {
        if m < la + 1 {
            if close_at(text, m) {
                assert(a[m - 2] == RBRACKET && a[m - 1] == RBRACKET);
                assert(close_at(a, m - 2));
            }
        } else {
            assert(text[m] == a[la - 1]);
        }
    }
    assert(close_at(text, la + 2));
    lemma_first_close_at(text, 2, la + 2);

    // The second token: opened at la + 4, closed at la + lb + 6.
    assert(open_at(text, la + 4));
    lemma_first_open_at(text, la + 4, la + 4);
    assert forall|m: int| la + 6 <= m < la + lb + 6 implies !close_at(text, m) by {
        if m < la + lb + 5 {
            if close_at(text, m) {
                assert(b[m - la - 6] == RBRACKET && b[m - la - 5] == RBRACKET);
                assert(close_at(b, m - la - 6));
            }
        } else {
            assert(text[m] == b[lb - 1]);
        }
    }
    assert(close_at(text, la + lb + 6));
    lemma_first_close_at(text, la + 6, la + lb + 6);

    // Nothing follows the second token.
    assert(first_open_from(text, len) is None);
    assert(rewrite_from(text, corpus, refloc, len) =~= Seq::<u8>::empty());

    // Unfold the two rewriting steps and collapse the concatenations.
    assert(text.subrange(2, la + 2) =~= a);
    assert(text.subrange(la + 6, la + lb + 6) =~= b);
    assert(text.subrange(0, 0) =~= Seq::<u8>::empty());
    assert(text.subrange(la + 4, la + 4) =~= Seq::<u8>::empty());
    assert(rewrite_from(text, corpus, refloc, la + 4) == text.subrange(la + 4, la + 4)
        + find_reference_spec(b, corpus, refloc) + rewrite_from(text, corpus, refloc, len));
    assert(rewrite_spec(text, corpus, refloc) == text.subrange(0, 0) + find_reference_spec(
        a,
        corpus,
        refloc,
    ) + rewrite_from(text, corpus, refloc, la + 4));
    assert(rewrite_spec(text, corpus, refloc) =~= find_reference_spec(a, corpus, refloc)
        + find_reference_spec(b, corpus, refloc));
}

/// Idempotence of non-token text: a document containing no reference token
/// is rewritten to itself, byte for byte.
pub proof fn lemma_no_token_identity(
    text: Seq<u8>,
    corpus: Seq<Seq<Seq<u8>>>,
    refloc: Seq<Seq<u8>>,
)
    requires
        !has_token(text),
    ensures
        rewrite_spec(text, corpus, refloc) == text,
{
    lemma_first_open_from(text, 0);
    match first_open_from(text, 0) {
        None => {
            assert(text.skip(0) =~= text);
        },
        Some(i) => {
            lemma_first_close_from(text, i + 2);
            match first_close_from(text, i + 2) {
                None => {
                    assert(text.skip(0) =~= text);
                },
                Some(j) => {
                    assert(open_at(text, i) && close_at(text, j) && i + 2 <= j);
                    assert(has_token(text));
                },
            }
        },
    }
}

} // verus!
