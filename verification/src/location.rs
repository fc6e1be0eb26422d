//! Document locations: hierarchical positions in the source tree, modelled
//! as a sequence of path segments, and the filename-stem computation used to
//! match reference names against documents.

use vstd::prelude::*;

verus! {

/// Byte value of `/`, the segment separator in rendered paths.
pub const SLASH: u8 = 47;

/// Byte value of `.`, the extension separator in filenames.
pub const DOT: u8 = 46;

/// A document's position in the tree: the names of the directories on the
/// way down, ending with the filename itself.
pub struct Location {
    pub segments: Vec<Vec<u8>>,
}

/// The mathematical value of a segment vector: each segment as a byte
/// sequence, in order.
pub open spec fn segs_view(segs: Seq<Vec<u8>>) -> Seq<Seq<u8>> {
    segs.map_values(|s: Vec<u8>| s@)
}

proof fn lemma_segs_view_push(segs: Seq<Vec<u8>>, x: Vec<u8>)
    ensures
        segs_view(segs.push(x)) == segs_view(segs).push(x@),
{
    assert forall|m: int| 0 <= m < segs.len() + 1 implies segs_view(segs.push(x))[m] == segs_view(
        segs,
    ).push(x@)[m] by {
        if m < segs.len() {
            assert(segs.push(x)[m] == segs[m]);
        } else {
            assert(segs.push(x)[m] == x);
        }
    }
    assert(segs_view(segs.push(x)) =~= segs_view(segs).push(x@));
}

impl View for Location {
    type V = Seq<Seq<u8>>;

    open spec fn view(&self) -> Seq<Seq<u8>> {
        segs_view(self.segments@)
    }
}

/// A well-formed location: every segment is a real tree-entry name, so it is
/// nonempty, contains no separator, and is not the parent-directory name.
pub open spec fn loc_wf(segs: Seq<Seq<u8>>) -> bool {
    forall|i: int|
        0 <= i < segs.len() ==> {
            &&& (#[trigger] segs[i]).len() > 0
            &&& (forall|j: int| 0 <= j < segs[i].len() ==> segs[i][j] != SLASH)
            &&& segs[i] != seq![DOT, DOT]
        }
}

/// Index of the last `.` in a filename that may start an extension: the
/// final `.` at position 1 or later, so that a leading dot (a hidden file)
/// never counts as an extension separator.
pub open spec fn last_dot(f: Seq<u8>) -> Option<int>
    decreases f.len(),
{
    if f.len() <= 1 {
        None
    } else if f[f.len() - 1] == DOT {
        Some(f.len() - 1)
    } else {
        last_dot(f.drop_last())
    }
}

/// The stem of a filename: everything before the extension separator, or
/// the whole name when there is no extension.
pub open spec fn stem_spec(f: Seq<u8>) -> Seq<u8> {
    match last_dot(f) {
        Some(i) => f.take(i),
        None => f,
    }
}

/// The stem of the document a location names: the stem of its last segment,
/// or empty for a location with no segments.
pub open spec fn loc_stem(segs: Seq<Seq<u8>>) -> Seq<u8> {
    if segs.len() == 0 {
        Seq::empty()
    } else {
        stem_spec(segs.last())
    }
}

/// The filename stem of `filename`: the bytes before the last `.` that sits
/// at position 1 or later, or the whole name when no such `.` exists.
pub fn stem_of(filename: &[u8]) -> (r: Vec<u8>)
    ensures
        r@ == stem_spec(filename@),
{
    let len = filename.len();
    let mut k = len;
    proof {
        assert(filename@.take(len as int) =~= filename@);
    }
    while k > 1
        invariant
            k <= len,
            len == filename@.len(),
            last_dot(filename@) == last_dot(filename@.take(k as int)),
        decreases k,
    {
        if filename[k - 1] == DOT {
            proof {
                assert(filename@.take(k as int)[k - 1] == DOT);
                assert(last_dot(filename@.take(k as int)) == Some(k - 1 as int));
            }
            let r = slice_to_vec_bytes(filename, 0, k - 1);
            proof {
                assert(r@ == stem_spec(filename@));
            }
            return r;
        }
        proof {
            assert(filename@.take(k as int).drop_last() =~= filename@.take(k - 1 as int));
            assert(filename@.take(k as int)[k - 1] != DOT);
        }
        k = k - 1;
    }
    proof {
        assert(last_dot(filename@.take(k as int)) is None);
        assert(filename@.take(len as int) =~= filename@);
    }
    slice_to_vec_bytes(filename, 0, len)
}

/// The first sequence is a segment-wise prefix of the second.
pub open spec fn is_prefix_of(p: Seq<Seq<u8>>, s: Seq<Seq<u8>>) -> bool {
    p.len() <= s.len() && p == s.take(p.len() as int)
}

/// Where a document's output goes: the output directory followed by the
/// entry's position below the input directory — or by the whole entry when
/// it does not lie below the input directory.
pub open spec fn build_output_path_spec(
    entry: Seq<Seq<u8>>,
    input_dir: Seq<Seq<u8>>,
    output_dir: Seq<Seq<u8>>,
) -> Seq<Seq<u8>> {
    if is_prefix_of(input_dir, entry) {
        output_dir + entry.skip(input_dir.len() as int)
    } else {
        output_dir + entry
    }
}

/// Whether the segments of `p` are an initial run of the segments of `s`.
pub fn is_prefix_exec(p: &Location, s: &Location) -> (r: bool)
    ensures
        r <==> is_prefix_of(p@, s@),
{
    let pl = p.segments.len();
    if pl > s.segments.len() {
        return false;
    }
    let mut i: usize = 0;
    while i < pl
        invariant
            i <= pl,
            pl == p@.len(),
            pl <= s@.len(),
            forall|j: int| 0 <= j < i ==> p@[j] == s@[j],
        decreases pl - i,
    {
        proof {
            assert(p@[i as int] == p.segments@[i as int]@);
            assert(s@[i as int] == s.segments@[i as int]@);
        }
        if !bytes_eq(p.segments[i].as_slice(), s.segments[i].as_slice()) {
            proof {
                if p@ == s@.take(pl as int) {
                    assert(p@[i as int] == s@.take(pl as int)[i as int]);
                }
            }
            return false;
        }
        i = i + 1;
    }
    proof {
        assert(p@ =~= s@.take(pl as int));
    }
    true
}

/// Copies a byte vector.
pub fn copy_bytes_vec(s: &Vec<u8>) -> (r: Vec<u8>)
    ensures
        r@ == s@,
{
    let r = slice_to_vec_bytes(s.as_slice(), 0, s.len());
    proof {
        assert(s@.subrange(0, s@.len() as int) =~= s@);
    }
    r
}

/// Builds the output location for a document: the output directory, then the
/// entry's sub-path below the input directory; an entry not below the input
/// directory is appended to the output directory whole.
pub fn build_output_path(entry: &Location, input_dir: &Location, output_dir: &Location) -> (r:
    Location)
    ensures
        r@ == build_output_path_spec(entry@, input_dir@, output_dir@),
{
    let prefix = is_prefix_exec(input_dir, entry);
    let start = if prefix {
        input_dir.segments.len()
    } else {
        0
    };
    let e_len = entry.segments.len();
    let o_len = output_dir.segments.len();
    let mut segs: Vec<Vec<u8>> = Vec::new();
    proof {
        assert(segs_view(segs@) =~= output_dir@.take(0));
    }
    let mut i: usize = 0;
    while i < o_len
        invariant
            i <= o_len,
            o_len == output_dir@.len(),
            segs_view(segs@) == output_dir@.take(i as int),
        decreases o_len - i,
    {
        proof {
            assert(output_dir@[i as int] == output_dir.segments@[i as int]@);
        }
        let seg = copy_bytes_vec(&output_dir.segments[i]);
        let ghost old_segs = segs@;
        segs.push(seg);
        proof {
            lemma_segs_view_push(old_segs, seg);
            assert(segs_view(segs@) =~= output_dir@.take(i + 1 as int));
        }
        i = i + 1;
    }
    proof {
        assert(output_dir@.take(o_len as int) =~= output_dir@);
        assert(output_dir@ + entry@.subrange(start as int, start as int) =~= output_dir@);
    }
    let mut j = start;
    while j < e_len
        invariant
            start <= j <= e_len,
            e_len == entry@.len(),
            segs_view(segs@) == output_dir@ + entry@.subrange(
                start as int,
                j as int,
            ),
        decreases e_len - j,
    {
        proof {
            assert(entry@[j as int] == entry.segments@[j as int]@);
        }
        let seg = copy_bytes_vec(&entry.segments[j]);
        let ghost old_segs = segs@;
        segs.push(seg);
        proof {
            lemma_segs_view_push(old_segs, seg);
            assert(segs_view(segs@) =~= output_dir@ + entry@.subrange(
                start as int,
                j + 1 as int,
            ));
        }
        j = j + 1;
    }
    let r = Location { segments: segs };
    proof {
        assert(entry@.subrange(start as int, e_len as int) =~= entry@.skip(start as int));
        if start == 0 {
            assert(entry@.skip(0) =~= entry@);
        }
    }
    r
}

/// Whether two byte strings hold the same bytes.
pub fn bytes_eq(a: &[u8], b: &[u8]) -> (r: bool)
    ensures
        r <==> a@ == b@,
{
    let n = a.len();
    if n != b.len() {
        return false;
    }
    let mut i: usize = 0;
    while i < n
        invariant
            i <= n,
            n == a@.len() == b@.len(),
            forall|j: int| 0 <= j < i ==> a@[j] == b@[j],
        decreases n - i,
    {
        if *vstd::slice::slice_index_get(a, i) != *vstd::slice::slice_index_get(b, i) {
            return false;
        }
        i = i + 1;
    }
    proof {
        assert(a@ =~= b@);
    }
    true
}

/// Appends every byte of `s` to `out`.
pub fn push_bytes(out: &mut Vec<u8>, s: &[u8])
    ensures
        final(out)@ == old(out)@ + s@,
{
    let n = s.len();
    let mut i: usize = 0;
    proof {
        assert(out@ =~= out@ + s@.take(0));
    }
    while i < n
        invariant
            i <= n,
            n == s@.len(),
            out@ == old(out)@ + s@.take(i as int),
        decreases n - i,
    {
        out.push(*vstd::slice::slice_index_get(s, i));
        proof {
            assert(out@ =~= old(out)@ + s@.take(i + 1 as int));
        }
        i = i + 1;
    }
    proof {
        assert(old(out)@ + s@.take(n as int) =~= old(out)@ + s@);
    }
}

/// Copies `s[from..to]` into a fresh vector.
pub fn slice_to_vec_bytes(s: &[u8], from: usize, to: usize) -> (r: Vec<u8>)
    requires
        from <= to <= s@.len(),
    ensures
        r@ == s@.subrange(from as int, to as int),
{
    let mut r: Vec<u8> = Vec::new();
    let mut i = from;
    while i < to
        invariant
            from <= i <= to <= s@.len(),
            r@ == s@.subrange(from as int, i as int),
        decreases to - i,
    {
        let b = *vstd::slice::slice_index_get(s, i);
        r.push(b);
        proof {
            assert(r@ =~= s@.subrange(from as int, i + 1 as int));
        }
        i = i + 1;
    }
    r
}

} // verus!
