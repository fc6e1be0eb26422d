//! The path relativizer: a pure function computing a percent-encoded
//! relative path between two locations in a tree.
//!
//! Convention: the path is a true relative path from the *directory* of the
//! referencing document (its location without the final filename segment) to
//! the target file, obtained by ancestor-diffing — one `..` for each segment
//! of the referencing directory below the shared ancestor, then the descent
//! into the target. Spaces in the rendered path are percent-encoded as `%20`.

use vstd::prelude::*;
use crate::location::{Location, loc_wf, is_prefix_of, build_output_path_spec, SLASH, DOT};

verus! {

/// Byte value of ` `, the one character the encoder must replace.
pub const SPACE: u8 = 32;

/// Byte value of `%`.
pub const PERCENT: u8 = 37;

/// Byte value of `2`.
pub const DIGIT_TWO: u8 = 50;

/// Byte value of `0`.
pub const DIGIT_ZERO: u8 = 48;

/// The parent-directory path segment, `..`.
pub open spec fn updir() -> Seq<u8> {
    seq![DOT, DOT]
}

/// End of the common prefix of `a` and `b` scanning from index `k`.
pub open spec fn cpl_from(a: Seq<Seq<u8>>, b: Seq<Seq<u8>>, k: int) -> int
    decreases a.len() - k,
{
    if 0 <= k < a.len() && k < b.len() && a[k] == b[k] {
        cpl_from(a, b, k + 1)
    } else {
        k
    }
}

/// Length of the longest common prefix of two segment sequences.
pub open spec fn common_prefix_len(a: Seq<Seq<u8>>, b: Seq<Seq<u8>>) -> int {
    cpl_from(a, b, 0)
}

/// The common-prefix length is in range, the prefixes agree below it, and
/// the sequences differ at it when both continue.
pub proof fn lemma_cpl(a: Seq<Seq<u8>>, b: Seq<Seq<u8>>, k: int)
    requires
        0 <= k <= a.len(),
        k <= b.len(),
    ensures
        k <= cpl_from(a, b, k) <= a.len(),
        cpl_from(a, b, k) <= b.len(),
        forall|j: int| k <= j < cpl_from(a, b, k) ==> a[j] == b[j],
        cpl_from(a, b, k) < a.len() && cpl_from(a, b, k) < b.len()
            ==> a[cpl_from(a, b, k)] != b[cpl_from(a, b, k)],
    decreases a.len() - k,
{
    if 0 <= k < a.len() && k < b.len() && a[k] == b[k] {
        lemma_cpl(a, b, k + 1);
    }
}

/// `n` consecutive parent-directory segments.
pub open spec fn ups(n: int) -> Seq<Seq<u8>>
    decreases n,
{
    if n <= 0 {
        Seq::empty()
    } else {
        seq![updir()] + ups(n - 1)
    }
}

/// The relative path from the directory `refdir` to the file at `target`,
/// as a sequence of path components: climb out of everything below the
/// shared ancestor, then descend into the target.
pub open spec fn rel_components(target: Seq<Seq<u8>>, refdir: Seq<Seq<u8>>) -> Seq<Seq<u8>> {
    let k = common_prefix_len(refdir, target);
    ups(refdir.len() - k) + target.skip(k)
}

/// Follows a component sequence from a starting directory: a `..` component
/// steps up to the parent (staying put at the root), any other component
/// steps down into the named entry.
pub open spec fn navigate(dir: Seq<Seq<u8>>, comps: Seq<Seq<u8>>) -> Seq<Seq<u8>>
    decreases comps.len(),
{
    if comps.len() == 0 {
        dir
    } else if comps[0] == updir() {
        if dir.len() == 0 {
            navigate(dir, comps.skip(1))
        } else {
            navigate(dir.take(dir.len() - 1), comps.skip(1))
        }
    } else {
        navigate(dir.push(comps[0]), comps.skip(1))
    }
}

proof fn lemma_navigate_ups(dir: Seq<Seq<u8>>, n: int)
    requires
        0 <= n <= dir.len(),
    ensures
        navigate(dir, ups(n)) == dir.take(dir.len() - n),
    decreases n,
{
    if n <= 0 {
        assert(dir.take(dir.len() - 0) =~= dir);
    } else {
        let rest = dir.take(dir.len() - 1);
        assert(ups(n)[0] == updir());
        assert(ups(n).skip(1) =~= ups(n - 1));
        lemma_navigate_ups(rest, n - 1);
        assert(rest.take(rest.len() - (n - 1)) =~= dir.take(dir.len() - n));
    }
}

proof fn lemma_navigate_descend(dir: Seq<Seq<u8>>, comps: Seq<Seq<u8>>)
    requires
        forall|i: int| 0 <= i < comps.len() ==> #[trigger] comps[i] != updir(),
    ensures
        navigate(dir, comps) == dir + comps,
    decreases comps.len(),
{
    if comps.len() == 0 {
        assert(dir + comps =~= dir);
    } else {
        lemma_navigate_descend(dir.push(comps[0]), comps.skip(1));
        assert(dir.push(comps[0]) + comps.skip(1) =~= dir + comps);
    }
}

proof fn lemma_navigate_concat(dir: Seq<Seq<u8>>, a: Seq<Seq<u8>>, b: Seq<Seq<u8>>)
    ensures
        navigate(dir, a + b) == navigate(navigate(dir, a), b),
    decreases a.len(),
{
    if a.len() == 0 {
        assert(a + b =~= b);
    } else {
        assert((a + b)[0] == a[0]);
        assert((a + b).skip(1) =~= a.skip(1) + b);
        if a[0] == updir() {
            if dir.len() == 0 {
                lemma_navigate_concat(dir, a.skip(1), b);
            } else {
                lemma_navigate_concat(dir.take(dir.len() - 1), a.skip(1), b);
            }
        } else {
            lemma_navigate_concat(dir.push(a[0]), a.skip(1), b);
        }
    }
}

/// Resolution correctness of the relativizer: following the computed
/// relative components from the referencing directory lands exactly on the
/// target location.
pub proof fn lemma_rel_components_navigate(target: Seq<Seq<u8>>, refdir: Seq<Seq<u8>>)
    requires
        loc_wf(target),
    ensures
        navigate(refdir, rel_components(target, refdir)) == target,
{
    let k = common_prefix_len(refdir, target);
    lemma_cpl(refdir, target, 0);
    lemma_navigate_concat(refdir, ups(refdir.len() - k), target.skip(k));
    lemma_navigate_ups(refdir, refdir.len() - k);
    assert forall|i: int| 0 <= i < target.skip(k).len() implies #[trigger] target.skip(k)[i]
        != updir() by {
        assert(target.skip(k)[i] == target[k + i]);
    }
    lemma_navigate_descend(refdir.take(k), target.skip(k));
    assert(refdir.take(k) =~= target.take(k));
    assert(target.take(k) + target.skip(k) =~= target);
}

proof fn lemma_cpl_shared_prefix(p: Seq<Seq<u8>>, a: Seq<Seq<u8>>, b: Seq<Seq<u8>>, m: int)
    requires
        0 <= m,
    ensures
        cpl_from(p + a, p + b, p.len() + m) == p.len() + cpl_from(a, b, m),
    decreases a.len() - m,
{
    if 0 <= m < a.len() && m < b.len() && a[m] == b[m] {
        assert((p + a)[p.len() + m] == a[m]);
        assert((p + b)[p.len() + m] == b[m]);
        lemma_cpl_shared_prefix(p, a, b, m + 1);
    } else {
        assert((p + a).len() == p.len() + a.len());
        if p.len() + m < (p + a).len() && p.len() + m < (p + b).len() {
            assert((p + a)[p.len() + m] == a[m]);
            assert((p + b)[p.len() + m] == b[m]);
        }
    }
}

proof fn lemma_cpl_below_prefix(p: Seq<Seq<u8>>, a: Seq<Seq<u8>>, b: Seq<Seq<u8>>, k: int)
    requires
        0 <= k <= p.len(),
    ensures
        cpl_from(p + a, p + b, k) == cpl_from(p + a, p + b, p.len() as int),
    decreases p.len() - k,
{
    if k < p.len() {
        assert((p + a)[k] == p[k]);
        assert((p + b)[k] == p[k]);
        lemma_cpl_below_prefix(p, a, b, k + 1);
    }
}

/// The relative components between two locations do not change when both are
/// moved below a different common prefix: they depend only on the positions
/// below the shared root.
pub proof fn lemma_rel_components_shared_prefix(
    p: Seq<Seq<u8>>,
    target: Seq<Seq<u8>>,
    refdir: Seq<Seq<u8>>,
)
    ensures
        rel_components(p + target, p + refdir) == rel_components(target, refdir),
{
    lemma_cpl_below_prefix(p, refdir, target, 0);
    lemma_cpl_shared_prefix(p, refdir, target, 0);
    let k = common_prefix_len(refdir, target);
    assert(common_prefix_len(p + refdir, p + target) == p.len() + k);
    lemma_cpl(refdir, target, 0);
    assert((p + refdir).len() - (p.len() + k) == refdir.len() - k);
    assert((p + target).skip(p.len() + k) =~= target.skip(k));
}

/// Path components joined with `/` separators.
pub open spec fn join_slash(comps: Seq<Seq<u8>>) -> Seq<u8>
    decreases comps.len(),
{
    if comps.len() == 0 {
        Seq::empty()
    } else if comps.len() == 1 {
        comps[0]
    } else {
        comps[0] + seq![SLASH] + join_slash(comps.skip(1))
    }
}

/// The space character percent-encoded; all other bytes kept verbatim.
pub open spec fn encode_spaces_spec(s: Seq<u8>) -> Seq<u8>
    decreases s.len(),
{
    if s.len() == 0 {
        Seq::empty()
    } else if s[0] == SPACE {
        seq![PERCENT, DIGIT_TWO, DIGIT_ZERO] + encode_spaces_spec(s.skip(1))
    } else {
        seq![s[0]] + encode_spaces_spec(s.skip(1))
    }
}

/// No literal space survives encoding.
pub proof fn lemma_encode_no_spaces(s: Seq<u8>)
    ensures
        forall|i: int|
            0 <= i < encode_spaces_spec(s).len() ==> #[trigger] encode_spaces_spec(s)[i] != SPACE,
    decreases s.len(),
{
    if s.len() > 0 {
        lemma_encode_no_spaces(s.skip(1));
        let head: Seq<u8> = if s[0] == SPACE {
            seq![PERCENT, DIGIT_TWO, DIGIT_ZERO]
        } else {
            seq![s[0]]
        };
        let tail = encode_spaces_spec(s.skip(1));
        assert forall|i: int| 0 <= i < encode_spaces_spec(s).len() implies #[trigger] encode_spaces_spec(
            s,
        )[i] != SPACE by {
            assert(encode_spaces_spec(s) == head + tail);
            if i < head.len() {
                assert(encode_spaces_spec(s)[i] == head[i]);
            } else {
                assert(encode_spaces_spec(s)[i] == tail[i - head.len()]);
            }
        }
    }
}

/// Resolution correctness across the mirrored output tree: for documents
/// `target` and `refloc` below the input directory, following the computed
/// relative components from the *output* directory of the referencing
/// document lands exactly on the *output* location of the target — the
/// relative path in a rewritten link stays correct after both documents move
/// to their mirrored output positions.
pub proof fn lemma_resolution_correctness_output(
    target: Seq<Seq<u8>>,
    refloc: Seq<Seq<u8>>,
    input_dir: Seq<Seq<u8>>,
    output_dir: Seq<Seq<u8>>,
)
    requires
        loc_wf(target),
        loc_wf(output_dir),
        is_prefix_of(input_dir, target),
        is_prefix_of(input_dir, refloc),
        refloc.len() > input_dir.len(),
    ensures
        ({
            let out_ref = build_output_path_spec(refloc, input_dir, output_dir);
            let out_target = build_output_path_spec(target, input_dir, output_dir);
            navigate(
                out_ref.take(out_ref.len() - 1),
                rel_components(target, refloc.take(refloc.len() - 1)),
            ) == out_target
        }),
{
    let n = input_dir.len() as int;
    let t0 = target.skip(n);
    let r0 = refloc.skip(n);
    let r0dir = r0.take(r0.len() - 1);
    let refdir = refloc.take(refloc.len() - 1);
    let out_ref = build_output_path_spec(refloc, input_dir, output_dir);
    let out_target = build_output_path_spec(target, input_dir, output_dir);

    assert(refloc =~= input_dir + r0);
    assert(refdir =~= input_dir + r0dir);
    assert(target =~= input_dir + t0);
    assert(out_target =~= output_dir + t0);
    assert(out_ref =~= output_dir + r0);
    assert(out_ref.take(out_ref.len() - 1) =~= output_dir + r0dir);

    lemma_rel_components_shared_prefix(input_dir, t0, r0dir);
    lemma_rel_components_shared_prefix(output_dir, t0, r0dir);
    assert(rel_components(target, refdir) == rel_components(out_target, output_dir + r0dir));

    assert(loc_wf(out_target)) by {
        assert forall|i: int| 0 <= i < out_target.len() implies {
            &&& (#[trigger] out_target[i]).len() > 0
            &&& (forall|j: int| 0 <= j < out_target[i].len() ==> out_target[i][j] != SLASH)
            &&& out_target[i] != seq![DOT, DOT]
        } by {
            if i < output_dir.len() {
                assert(out_target[i] == output_dir[i]);
            } else {
                assert(out_target[i] == target[n + (i - output_dir.len())]);
            }
        }
    }
    lemma_rel_components_navigate(out_target, output_dir + r0dir);
}

/// The rendered relative path from the directory of the referencing
/// document `refloc` to the file at `target`, before percent-encoding.
pub open spec fn rel_path_spec(target: Seq<Seq<u8>>, refloc: Seq<Seq<u8>>) -> Seq<u8> {
    join_slash(rel_components(target, refloc.take(refloc.len() - 1)))
}

/// The percent-encoded rendered relative path.
pub open spec fn encoded_rel_path(target: Seq<Seq<u8>>, refloc: Seq<Seq<u8>>) -> Seq<u8> {
    encode_spaces_spec(rel_path_spec(target, refloc))
}

proof fn lemma_ups_props(n: int)
    ensures
        n <= 0 ==> ups(n).len() == 0,
        n > 0 ==> ups(n).len() == n,
        forall|i: int| 0 <= i < ups(n).len() ==> #[trigger] ups(n)[i] == updir(),
    decreases n,
{
    if n > 0 {
        lemma_ups_props(n - 1);
        assert forall|i: int| 0 <= i < ups(n).len() implies #[trigger] ups(n)[i] == updir() by {
            if i > 0 {
                assert(ups(n)[i] == ups(n - 1)[i - 1]);
            }
        }
    }
}

proof fn lemma_join_push(comps: Seq<Seq<u8>>, x: Seq<u8>)
    ensures
        comps.len() == 0 ==> join_slash(comps.push(x)) == x,
        comps.len() > 0 ==> join_slash(comps.push(x)) == join_slash(comps) + seq![SLASH] + x,
    decreases comps.len(),
{
    if comps.len() == 0 {
        assert(join_slash(comps.push(x)) == comps.push(x)[0]);
    } else if comps.len() == 1 {
        assert(comps.push(x).skip(1) =~= seq![x]);
        assert(join_slash(seq![x]) == x);
    } else {
        assert(comps.push(x).skip(1) =~= comps.skip(1).push(x));
        lemma_join_push(comps.skip(1), x);
        assert(comps[0] + seq![SLASH] + (join_slash(comps.skip(1)) + seq![SLASH] + x) =~= (comps[0]
            + seq![SLASH] + join_slash(comps.skip(1))) + seq![SLASH] + x);
    }
}

/// Length of the longest common prefix of the first `refdir_len` segments of
/// `reference` and the segments of `target`.
fn common_prefix_exec(reference: &Location, refdir_len: usize, target: &Location) -> (k: usize)
    requires
        refdir_len <= reference@.len(),
    ensures
        k as int == common_prefix_len(reference@.take(refdir_len as int), target@),
        k <= refdir_len,
        k <= target@.len(),
{
    let ghost refdir = reference@.take(refdir_len as int);
    let t_len = target.segments.len();
    let mut k: usize = 0;
    while k < refdir_len && k < t_len
        invariant
            k <= refdir_len,
            k <= t_len,
            t_len == target@.len(),
            refdir == reference@.take(refdir_len as int),
            refdir.len() == refdir_len,
            refdir_len <= reference@.len(),
            cpl_from(refdir, target@, 0) == cpl_from(refdir, target@, k as int),
        decreases refdir_len - k,
    {
        proof {
            assert(refdir[k as int] == reference.segments@[k as int]@);
            assert(target@[k as int] == target.segments@[k as int]@);
        }
        let same = crate::location::bytes_eq(
            reference.segments[k].as_slice(),
            target.segments[k].as_slice(),
        );
        if !same {
            proof {
                assert(cpl_from(refdir, target@, k as int) == k as int);
            }
            return k;
        }
        k = k + 1;
    }
    proof {
        assert(cpl_from(refdir, target@, k as int) == k as int);
    }
    k
}

/// Percent-encodes `s`: each space becomes `%20`, every other byte is kept.
pub fn encode_spaces(s: &[u8]) -> (r: Vec<u8>)
    ensures
        r@ == encode_spaces_spec(s@),
{
    let n = s.len();
    let mut r: Vec<u8> = Vec::new();
    let mut i: usize = 0;
    proof {
        assert(s@.skip(0) =~= s@);
        assert(r@ + encode_spaces_spec(s@) =~= encode_spaces_spec(s@));
    }
    while i < n
        invariant
            i <= n,
            n == s@.len(),
            r@ + encode_spaces_spec(s@.skip(i as int)) == encode_spaces_spec(s@),
        decreases n - i,
    {
        let ghost pre = r@;
        let ghost rest = s@.skip(i as int);
        proof {
            assert(rest[0] == s@[i as int]);
            assert(rest.skip(1) =~= s@.skip(i + 1 as int));
        }
        let b = *vstd::slice::slice_index_get(s, i);
        if b == SPACE {
            r.push(PERCENT);
            r.push(DIGIT_TWO);
            r.push(DIGIT_ZERO);
            proof {
                assert(r@ =~= pre + seq![PERCENT, DIGIT_TWO, DIGIT_ZERO]);
                assert(r@ + encode_spaces_spec(s@.skip(i + 1 as int)) =~= pre
                    + encode_spaces_spec(rest));
            }
        } else {
            r.push(b);
            proof {
                assert(r@ =~= pre + seq![rest[0]]);
                assert(r@ + encode_spaces_spec(s@.skip(i + 1 as int)) =~= pre
                    + encode_spaces_spec(rest));
            }
        }
        i = i + 1;
    }
    proof {
        assert(s@.skip(n as int) =~= Seq::<u8>::empty());
        assert(r@ + encode_spaces_spec(Seq::<u8>::empty()) =~= r@);
    }
    r
}

/// The percent-encoded relative path from the directory of the referencing
/// document `reference` to the file at `target`. Fails — returning nothing —
/// exactly when the referencing location has no segments, so that no
/// referencing directory exists to start from.
pub fn relative_path(target: &Location, reference: &Location) -> (r: Option<Vec<u8>>)
    ensures
        r is None <==> reference@.len() == 0,
        r matches Some(p) ==> p@ == encoded_rel_path(target@, reference@),
{
    let ref_len = reference.segments.len();
    if ref_len == 0 {
        return None;
    }
    let refdir_len = ref_len - 1;
    let ghost refdir = reference@.take(refdir_len as int);
    let t_len = target.segments.len();
    let k = common_prefix_exec(reference, refdir_len, target);
    let u = refdir_len - k;
    let ghost comps = rel_components(target@, refdir);
    let ghost total = u + (t_len - k) as int;
    proof {
        lemma_ups_props(u as int);
        assert(comps.len() == total);
        assert forall|i: int| 0 <= i < u implies #[trigger] comps[i] == updir() by {
            assert(comps[i] == ups(u as int)[i]);
        }
        assert forall|i: int| u <= i < total implies #[trigger] comps[i] == target@[k + (i
            - u)] by {
            assert(comps[i] == target@.skip(k as int)[i - u]);
        }
    }
    let mut out: Vec<u8> = Vec::new();
    let mut c: usize = 0;
    proof {
        assert(out@ =~= join_slash(comps.take(0)));
    }
    while c < u
        invariant
            c <= u,
            k <= t_len,
            comps.len() == total,
            total == u + (t_len - k),
            out@ == join_slash(comps.take(c as int)),
            forall|i: int| 0 <= i < u ==> #[trigger] comps[i] == updir(),
        decreases u - c,
    {
        proof {
            lemma_join_push(comps.take(c as int), comps[c as int]);
            assert(comps.take(c + 1 as int) =~= comps.take(c as int).push(comps[c as int]));
        }
        let ghost pre = out@;
        if c > 0 {
            out.push(SLASH);
        }
        out.push(DOT);
        out.push(DOT);
        proof {
            if c > 0 {
                assert(out@ =~= pre + seq![SLASH] + updir());
            } else {
                assert(out@ =~= updir());
            }
        }
        c = c + 1;
    }
    let mut d = k;
    while d < t_len
        invariant
            k <= d <= t_len,
            t_len == target@.len(),
            u == refdir_len - k,
            comps.len() == total,
            total == u + (t_len - k),
            out@ == join_slash(comps.take(u + (d - k) as int)),
            forall|i: int| u <= i < total ==> #[trigger] comps[i] == target@[k + (i - u)],
        decreases t_len - d,
    {
        let ghost ci = u + (d - k) as int;
        proof {
            lemma_join_push(comps.take(ci), comps[ci]);
            assert(comps.take(ci + 1) =~= comps.take(ci).push(comps[ci]));
            assert(comps[ci] == target@[d as int]);
        }
        let ghost pre = out@;
        if u > 0 || d > k {
            out.push(SLASH);
        }
        let seg = &target.segments[d];
        proof {
            assert(seg@ == target@[d as int]);
        }
        crate::location::push_bytes(&mut out, seg.as_slice());
        proof {
            if ci > 0 {
                assert(out@ =~= pre + seq![SLASH] + comps[ci]);
            } else {
                assert(out@ =~= comps[ci]);
            }
        }
        d = d + 1;
    }
    proof {
        assert(comps.take(total) =~= comps);
        assert(out@ == rel_path_spec(target@, reference@));
    }
    let encoded = encode_spaces(out.as_slice());
    Some(encoded)
}

} // verus!
