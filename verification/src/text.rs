//! Byte-level model of text splitting.
//!
//! Every splitter in this crate is specified against the UTF-8 byte view of
//! its input (`str::spec_bytes`). The spec functions here describe where a
//! splitter cuts: `simple_cuts` gives the cut list of the fixed-size
//! splitter, and the well-formedness predicates relate a cut list to the
//! source bytes.

use vstd::prelude::*;
use vstd::string::StringSliceAdditionalSpecFns;
use vstd::utf8::*;

verus! {

broadcast use vstd::slice::group_slice_axioms;

/// The byte length of a string slice.
pub(crate) fn byte_len(s: &str) -> (n: usize)
    ensures
        n == s.spec_bytes().len(),
{
    s.as_bytes().len()
}

/// The first position `j >= i` that is a character boundary of `b`
/// (the end of the sequence always counts as one).
pub open spec fn snap(b: Seq<u8>, i: int) -> int
    decreases b.len() - i
        when 0 <= i <= b.len()
{
    if i == b.len() {
        i
    } else if is_char_boundary(b, i) {
        i
    } else {
        snap(b, i + 1)
    }
}

/// `snap` stays within `[i, b.len()]` and is the least boundary-or-end at or
/// after `i`.
pub proof fn lemma_snap(b: Seq<u8>, i: int)
    requires
        0 <= i <= b.len(),
    ensures
        i <= snap(b, i) <= b.len(),
        snap(b, i) == b.len() || is_char_boundary(b, snap(b, i)),
        forall|j: int| i <= j < snap(b, i) ==> !is_char_boundary(b, j),
    decreases b.len() - i,
{
    if i == b.len() {
    } else if is_char_boundary(b, i) {
    } else {
        lemma_snap(b, i + 1);
    }
}

/// The cut list of the fixed-size splitter on bytes `b` with stride `size`,
/// starting at offset `start`: each cut reaches `size` bytes further (or to
/// the end) and is then snapped forward to the next character boundary.
pub open spec fn simple_cuts(b: Seq<u8>, size: int, start: int) -> Seq<(int, int)>
    decreases b.len() - start
        when 0 < size && 0 <= start <= b.len()
        via simple_cuts_decreases
{
    if start == b.len() {
        Seq::empty()
    } else {
        let stride = if start + size <= b.len() {
            start + size
        } else {
            b.len() as int
        };
        let end = snap(b, stride);
        seq![(start, end)] + simple_cuts(b, size, end)
    }
}

#[via_fn]
proof fn simple_cuts_decreases(b: Seq<u8>, size: int, start: int) {
    if 0 < size && 0 <= start < b.len() {
        let stride = if start + size <= b.len() {
            start + size
        } else {
            b.len() as int
        };
        lemma_snap(b, stride);
    }
}

/// A cut list is well-formed for `[lo, hi]`: cuts are non-empty, ordered
/// left to right, and never overlap.
pub open spec fn wf_cuts(cuts: Seq<(int, int)>, lo: int, hi: int) -> bool
    decreases cuts.len(),
{
    if cuts.len() == 0 {
        lo <= hi
    } else {
        let c = cuts[0];
        lo <= c.0 && c.0 < c.1 && c.1 <= hi && wf_cuts(cuts.drop_first(), c.1, hi)
    }
}

/// Every endpoint of every cut lies on a character boundary of `b`.
pub open spec fn cuts_on_boundaries(b: Seq<u8>, cuts: Seq<(int, int)>) -> bool {
    forall|i: int|
        0 <= i < cuts.len() ==> is_char_boundary(b, (#[trigger] cuts[i]).0) && is_char_boundary(
            b,
            cuts[i].1,
        )
}

pub proof fn lemma_wf_cuts_bounds(cuts: Seq<(int, int)>, lo: int, hi: int)
    requires
        wf_cuts(cuts, lo, hi),
    ensures
        forall|i: int|
            0 <= i < cuts.len() ==> lo <= (#[trigger] cuts[i]).0 < cuts[i].1 <= hi,
        forall|i: int, j: int|
            0 <= i < j < cuts.len() ==> (#[trigger] cuts[i]).1 <= (#[trigger] cuts[j]).0,
    decreases cuts.len(),
{
    if cuts.len() > 0 {
        lemma_wf_cuts_bounds(cuts.drop_first(), cuts[0].1, hi);
        assert(forall|i: int| 1 <= i < cuts.len() ==> cuts[i] == cuts.drop_first()[i - 1]);
    }
}

/// Weakening the lower end of the interval keeps a cut list well-formed.
pub proof fn lemma_wf_cuts_widen(cuts: Seq<(int, int)>, lo: int, hi: int, lo2: int)
    requires
        wf_cuts(cuts, lo, hi),
        lo2 <= lo,
    ensures
        wf_cuts(cuts, lo2, hi),
    decreases cuts.len(),
{
}

/// Two well-formed cut lists over adjacent intervals concatenate to a
/// well-formed cut list.
pub proof fn lemma_wf_cuts_concat(c1: Seq<(int, int)>, c2: Seq<(int, int)>, lo: int, m: int, hi: int)
    requires
        wf_cuts(c1, lo, m),
        wf_cuts(c2, m, hi),
    ensures
        wf_cuts(c1 + c2, lo, hi),
    decreases c1.len(),
{
    if c1.len() == 0 {
        assert(c1 + c2 =~= c2);
        lemma_wf_cuts_widen(c2, m, hi, lo);
    } else {
        lemma_wf_cuts_concat(c1.drop_first(), c2, c1[0].1, m, hi);
        assert((c1 + c2).drop_first() =~= c1.drop_first() + c2);
    }
}

/// A subrange of a valid UTF-8 sequence taken between two character
/// boundaries is itself valid UTF-8, and its own character boundaries are
/// exactly those of the enclosing sequence, shifted.
pub proof fn lemma_subrange_valid(b: Seq<u8>, s: int, e: int)
    requires
        valid_utf8(b),
        0 <= s <= e <= b.len(),
        is_char_boundary(b, s),
        is_char_boundary(b, e),
    ensures
        valid_utf8(b.subrange(s, e)),
        forall|j: int|
            0 <= j <= e - s ==> (#[trigger] is_char_boundary(b.subrange(s, e), j)
                <==> is_char_boundary(b, s + j)),
{
    let sub = b.subrange(s, e);
    let tail = b.subrange(s, b.len() as int);
    valid_utf8_split(b, s);
    assert(valid_utf8(tail));
    assert(is_char_boundary(tail, e - s)) by {
        lemma_boundary_shift_tail(b, s, e);
    }
    valid_utf8_split(tail, e - s);
    assert(sub =~= tail.subrange(0, e - s));
    assert(valid_utf8(sub));
    assert forall|j: int| 0 <= j <= e - s implies (#[trigger] is_char_boundary(sub, j)
        <==> is_char_boundary(b, s + j)) by {
        if j == e - s {
            is_char_boundary_start_end_of_seq(sub);
        } else {
            is_char_boundary_iff_not_is_continuation_byte(sub, j);
            is_char_boundary_iff_not_is_continuation_byte(b, s + j);
        }
    }
}

/// Boundaries of the tail `b[s..]` coincide with boundaries of `b`, shifted
/// by `s`.
pub proof fn lemma_boundary_shift_tail(b: Seq<u8>, s: int, p: int)
    requires
        valid_utf8(b),
        0 <= s <= p <= b.len(),
        is_char_boundary(b, s),
    ensures
        is_char_boundary(b.subrange(s, b.len() as int), p - s) <==> is_char_boundary(b, p),
{
    let tail = b.subrange(s, b.len() as int);
    valid_utf8_split(b, s);
    if p == b.len() {
        is_char_boundary_start_end_of_seq(tail);
        is_char_boundary_start_end_of_seq(b);
    } else {
        is_char_boundary_iff_not_is_continuation_byte(tail, p - s);
        is_char_boundary_iff_not_is_continuation_byte(b, p);
    }
}

/// The fixed-size splitter's cuts are well-formed and land on character
/// boundaries only.
pub proof fn lemma_simple_cuts_wf(b: Seq<u8>, size: int, start: int)
    requires
        valid_utf8(b),
        0 < size,
        0 <= start <= b.len(),
        is_char_boundary(b, start),
    ensures
        wf_cuts(simple_cuts(b, size, start), start, b.len() as int),
        cuts_on_boundaries(b, simple_cuts(b, size, start)),
    decreases b.len() - start,
{
    if start == b.len() {
    } else {
        let stride = if start + size <= b.len() {
            start + size
        } else {
            b.len() as int
        };
        let end = snap(b, stride);
        lemma_snap(b, stride);
        assert(is_char_boundary(b, end)) by {
            if end == b.len() {
                is_char_boundary_start_end_of_seq(b);
            }
        }
        lemma_simple_cuts_wf(b, size, end);
        let cuts = simple_cuts(b, size, start);
        assert(cuts.drop_first() =~= simple_cuts(b, size, end));
        assert(cuts_on_boundaries(b, cuts)) by {
            assert(forall|i: int|
                1 <= i < cuts.len() ==> cuts[i] == simple_cuts(b, size, end)[i - 1]);
        }
    }
}

/// Splitting a minimal input does not split at all: a single cut covering
/// the whole input.
pub proof fn lemma_simple_cuts_minimal(b: Seq<u8>, size: int)
    requires
        0 < b.len() <= size,
    ensures
        simple_cuts(b, size, 0) == seq![(0int, b.len() as int)],
{
    assert(snap(b, b.len() as int) == b.len());
    assert(simple_cuts(b, size, b.len() as int) =~= Seq::<(int, int)>::empty());
    assert(simple_cuts(b, size, 0) =~= seq![(0int, b.len() as int)]);
}

/// The source bytes, rebuilt from a cut list: the gap before each cut, then
/// the cut's own bytes, and finally the bytes after the last cut.
pub open spec fn recon(b: Seq<u8>, cuts: Seq<(int, int)>, pos: int) -> Seq<u8>
    decreases cuts.len(),
{
    if cuts.len() == 0 {
        b.subrange(pos, b.len() as int)
    } else {
        b.subrange(pos, cuts[0].0) + b.subrange(cuts[0].0, cuts[0].1) + recon(
            b,
            cuts.drop_first(),
            cuts[0].1,
        )
    }
}

/// Coverage: re-inserting the gap text between the cut contents rebuilds
/// the source bytes exactly.
pub proof fn lemma_recon(b: Seq<u8>, cuts: Seq<(int, int)>, pos: int)
    requires
        0 <= pos,
        wf_cuts(cuts, pos, b.len() as int),
    ensures
        recon(b, cuts, pos) == b.subrange(pos, b.len() as int),
    decreases cuts.len(),
{
    if cuts.len() == 0 {
    } else {
        let c = cuts[0];
        lemma_recon(b, cuts.drop_first(), c.1);
        assert(recon(b, cuts, pos) =~= b.subrange(pos, b.len() as int));
    }
}

/// View of an executable cut list as the spec-level cut list.
pub open spec fn cuts_view(cuts: Seq<(usize, usize)>) -> Seq<(int, int)> {
    cuts.map_values(|c: (usize, usize)| (c.0 as int, c.1 as int))
}

/// Finds the next valid character boundary in `string` that is `>= index`.
/// It may return `string.len()`, which is always considered a valid
/// character boundary.
pub(crate) fn next_boundary(string: &str, index: usize) -> (res: usize)
    requires
        index <= string.spec_bytes().len(),
    ensures
        res as int == snap(string.spec_bytes(), index as int),
{
    let ghost b = string.spec_bytes();
    let n = byte_len(string);
    let mut res = index;
    while res < n
        invariant
            b == string.spec_bytes(),
            n == b.len(),
            index <= res <= b.len(),
            forall|j: int| index <= j < res ==> !is_char_boundary(b, j),
        ensures
            index <= res <= b.len(),
            res == b.len() || is_char_boundary(b, res as int),
            forall|j: int| index <= j < res ==> !is_char_boundary(b, j),
        decreases b.len() - res,
    {
        if string.is_char_boundary(res) {
            break ;
        }
        res = res + 1;
    }
    proof {
        lemma_snap(b, index as int);
        let s = snap(b, index as int);
        if res < s {
            assert(!is_char_boundary(b, res as int));
            assert(res < b.len());
        }
        if s < res {
            assert(!is_char_boundary(b, s));
            assert(s < b.len());
        }
    }
    res
}

/// The slice of `s` between the byte offsets `start` and `end`, which must
/// lie on character boundaries.
pub(crate) fn substr<'a>(s: &'a str, start: usize, end: usize) -> (r: &'a str)
    requires
        start <= end <= s.spec_bytes().len(),
        is_char_boundary(s.spec_bytes(), start as int),
        is_char_boundary(s.spec_bytes(), end as int),
    ensures
        r.spec_bytes() == s.spec_bytes().subrange(start as int, end as int),
{
    let ghost b = s.spec_bytes();
    proof {
        encode_utf8_valid_utf8(s@);
    }
    let (pre, _) = s.split_at(end);
    proof {
        assert(pre.spec_bytes() =~= b.subrange(0, end as int));
        lemma_subrange_valid(b, 0, end as int);
        assert(is_char_boundary(b.subrange(0, end as int), start as int)) by {
            if start < end {
                is_char_boundary_iff_not_is_continuation_byte(b, start as int);
                valid_utf8_split(b, end as int);
                is_char_boundary_iff_not_is_continuation_byte(
                    b.subrange(0, end as int),
                    start as int,
                );
            } else {
                valid_utf8_split(b, end as int);
                is_char_boundary_start_end_of_seq(b.subrange(0, end as int));
            }
        }
    }
    let (_, mid) = pre.split_at(start);
    proof {
        assert(mid.spec_bytes() =~= b.subrange(start as int, end as int));
    }
    mid
}

/// The cut positions the fixed-size splitter makes on `input` with the given
/// stride: `chunk_size`-byte steps, each snapped forward to the next
/// character boundary.
pub(crate) fn fixed_cut_points(input: &str, chunk_size: usize) -> (r: Vec<(usize, usize)>)
    requires
        chunk_size > 0,
    ensures
        cuts_view(r@) == simple_cuts(input.spec_bytes(), chunk_size as int, 0),
{
    let ghost b = input.spec_bytes();
    let ghost size = chunk_size as int;
    let n = byte_len(input);
    let mut cuts: Vec<(usize, usize)> = Vec::new();
    let mut start: usize = 0;
    while start < n
        invariant
            chunk_size > 0,
            size == chunk_size as int,
            b == input.spec_bytes(),
            n == b.len(),
            start <= n,
            simple_cuts(b, size, 0) =~= cuts_view(cuts@) + simple_cuts(b, size, start as int),
        decreases n - start,
    {
        let stride = if n - start < chunk_size {
            n
        } else {
            start + chunk_size
        };
        let end = next_boundary(input, stride);
        proof {
            lemma_snap(b, stride as int);
            assert(simple_cuts(b, size, start as int) =~= seq![(start as int, end as int)]
                + simple_cuts(b, size, end as int));
            assert(cuts_view(cuts@.push((start, end))) =~= cuts_view(cuts@).push(
                (start as int, end as int),
            ));
            assert(cuts_view(cuts@).push((start as int, end as int)) + simple_cuts(
                b,
                size,
                end as int,
            ) =~= cuts_view(cuts@) + simple_cuts(b, size, start as int));
        }
        cuts.push((start, end));
        start = end;
    }
    proof {
        assert(simple_cuts(b, size, start as int) =~= Seq::<(int, int)>::empty());
        assert(cuts_view(cuts@) + Seq::<(int, int)>::empty() =~= cuts_view(cuts@));
    }
    cuts
}

/// The position of the first occurrence of `sep` in `b` at or after `from`
/// that ends at or before `end`.
pub open spec fn find_from(b: Seq<u8>, sep: Seq<u8>, from: int, end: int) -> Option<int>
    decreases end - from
        when sep.len() > 0 && 0 <= from
{
    if from + sep.len() > end {
        None
    } else if b.subrange(from, from + sep.len() as int) == sep {
        Some(from)
    } else {
        find_from(b, sep, from + 1, end)
    }
}

/// `find_from` returns the leftmost occurrence, or `None` when there is
/// none.
pub proof fn lemma_find_from(b: Seq<u8>, sep: Seq<u8>, from: int, end: int)
    requires
        sep.len() > 0,
        0 <= from,
    ensures
        match find_from(b, sep, from, end) {
            Option::None => forall|j: int|
                from <= j && j + sep.len() <= end ==> #[trigger] b.subrange(j, j + sep.len() as int)
                    != sep,
            Option::Some(i) => from <= i && i + sep.len() <= end && b.subrange(
                i,
                i + sep.len() as int,
            ) == sep && forall|j: int|
                from <= j < i ==> #[trigger] b.subrange(j, j + sep.len() as int) != sep,
        },
    decreases end - from,
{
    if from + sep.len() > end {
    } else if b.subrange(from, from + sep.len() as int) == sep {
    } else {
        lemma_find_from(b, sep, from + 1, end);
    }
}

/// A working list of pieces: `(start, end, is_separator)`. Content pieces
/// carry `false`, separator pieces `true`.
///
/// Splitting one content piece `[lo, hi)` on `sep`: alternating content and
/// separator pieces, ending with a content piece.
pub open spec fn split_segment(b: Seq<u8>, sep: Seq<u8>, lo: int, hi: int) -> Seq<(int, int, bool)>
    decreases hi - lo
        when sep.len() > 0 && 0 <= lo <= hi <= b.len()
        via split_segment_decreases
{
    match find_from(b, sep, lo, hi) {
        Option::None => seq![(lo, hi, false)],
        Option::Some(i) => seq![(lo, i, false), (i, i + sep.len() as int, true)] + split_segment(
            b,
            sep,
            i + sep.len() as int,
            hi,
        ),
    }
}

#[via_fn]
proof fn split_segment_decreases(b: Seq<u8>, sep: Seq<u8>, lo: int, hi: int) {
    if sep.len() > 0 && 0 <= lo <= hi <= b.len() {
        lemma_find_from(b, sep, lo, hi);
    }
}

/// One separator pass: every content piece still larger than `size` is
/// split on `sep`; all other pieces are kept as they are.
pub open spec fn split_pass(b: Seq<u8>, sep: Seq<u8>, size: int, parts: Seq<(int, int, bool)>) -> Seq<
    (int, int, bool),
>
    decreases parts.len(),
{
    if parts.len() == 0 {
        Seq::empty()
    } else {
        let p = parts[0];
        let rest = split_pass(b, sep, size, parts.drop_first());
        if !p.2 && p.1 - p.0 > size {
            split_segment(b, sep, p.0, p.1) + rest
        } else {
            seq![p] + rest
        }
    }
}

/// All separator passes, applied first to last.
pub open spec fn split_passes(
    b: Seq<u8>,
    seps: Seq<Seq<u8>>,
    size: int,
    parts: Seq<(int, int, bool)>,
) -> Seq<(int, int, bool)>
    decreases seps.len(),
{
    if seps.len() == 0 {
        parts
    } else {
        split_passes(b, seps.drop_first(), size, split_pass(b, seps[0], size, parts))
    }
}

/// Every separator is non-empty and valid UTF-8 (the bytes of a `&str`
/// always are).
pub open spec fn seps_wf(seps: Seq<Seq<u8>>) -> bool {
    forall|k: int| 0 <= k < seps.len() ==> (#[trigger] seps[k]).len() > 0 && valid_utf8(seps[k])
}

pub open spec fn shift_cuts(cuts: Seq<(int, int)>, off: int) -> Seq<(int, int)> {
    cuts.map_values(|c: (int, int)| (c.0 + off, c.1 + off))
}

/// Turning the final piece list into the emitted cut list: separator pieces
/// and empty pieces are dropped, oversized content pieces fall back to the
/// fixed-size cuts (with absolute offsets), and the rest are emitted as
/// they are.
pub open spec fn assemble(b: Seq<u8>, size: int, parts: Seq<(int, int, bool)>) -> Seq<(int, int)>
    decreases parts.len(),
{
    if parts.len() == 0 {
        Seq::empty()
    } else {
        let p = parts[0];
        let rest = assemble(b, size, parts.drop_first());
        if p.2 || p.1 <= p.0 {
            rest
        } else if p.1 - p.0 > size {
            shift_cuts(simple_cuts(b.subrange(p.0, p.1), size, 0), p.0) + rest
        } else {
            seq![(p.0, p.1)] + rest
        }
    }
}

/// The cut list of the recursive splitter: split on each separator in
/// order, then assemble, falling back to the fixed-size splitter for
/// oversized pieces.
pub open spec fn recursive_cuts(b: Seq<u8>, seps: Seq<Seq<u8>>, size: int) -> Seq<(int, int)> {
    assemble(b, size, split_passes(b, seps, size, seq![(0, b.len() as int, false)]))
}

/// A piece list tiles `[lo, hi)`: pieces are adjacent, in order, and cover
/// the interval exactly.
pub open spec fn tiles(parts: Seq<(int, int, bool)>, lo: int, hi: int) -> bool
    decreases parts.len(),
{
    if parts.len() == 0 {
        lo == hi
    } else {
        let p = parts[0];
        p.0 == lo && p.0 <= p.1 <= hi && tiles(parts.drop_first(), p.1, hi)
    }
}

/// Every endpoint of every piece lies on a character boundary of `b`.
pub open spec fn parts_on_boundaries(b: Seq<u8>, parts: Seq<(int, int, bool)>) -> bool {
    forall|i: int|
        0 <= i < parts.len() ==> is_char_boundary(b, (#[trigger] parts[i]).0) && is_char_boundary(
            b,
            parts[i].1,
        )
}

pub proof fn lemma_tiles_bounds(parts: Seq<(int, int, bool)>, lo: int, hi: int)
    requires
        tiles(parts, lo, hi),
    ensures
        forall|i: int| 0 <= i < parts.len() ==> lo <= (#[trigger] parts[i]).0 <= parts[i].1 <= hi,
    decreases parts.len(),
{
    if parts.len() > 0 {
        lemma_tiles_bounds(parts.drop_first(), parts[0].1, hi);
        assert(forall|i: int| 1 <= i < parts.len() ==> parts[i] == parts.drop_first()[i - 1]);
    }
}

pub proof fn lemma_tiles_concat(
    p1: Seq<(int, int, bool)>,
    p2: Seq<(int, int, bool)>,
    lo: int,
    m: int,
    hi: int,
)
    requires
        tiles(p1, lo, m),
        tiles(p2, m, hi),
    ensures
        tiles(p1 + p2, lo, hi),
    decreases p1.len(),
{
    if p1.len() == 0 {
        assert(p1 + p2 =~= p2);
    } else {
        lemma_tiles_concat(p1.drop_first(), p2, p1[0].1, m, hi);
        assert((p1 + p2).drop_first() =~= p1.drop_first() + p2);
    }
}

/// If a prefix of a valid UTF-8 sequence is itself valid UTF-8, the prefix
/// ends on a character boundary.
pub proof fn lemma_valid_prefix_is_boundary(s: Seq<u8>, k: int)
    requires
        valid_utf8(s),
        0 <= k <= s.len(),
        valid_utf8(s.subrange(0, k)),
    ensures
        is_char_boundary(s, k),
    decreases k,
{
    if k > 0 {
        let p = s.subrange(0, k);
        let l = length_of_first_scalar(s);
        assert(valid_first_scalar(p));
        assert(valid_first_scalar(s));
        assert(length_of_first_scalar(p) == l);
        assert(1 <= l <= k);
        let s2 = pop_first_scalar(s);
        let p2 = pop_first_scalar(p);
        assert(p2 =~= s2.subrange(0, k - l));
        assert(valid_utf8(p2));
        assert(valid_utf8(s2));
        lemma_valid_prefix_is_boundary(s2, k - l);
    }
}

/// A byte-wise occurrence of one valid UTF-8 sequence inside another starts
/// and ends on character boundaries.
pub proof fn lemma_occurrence_boundaries(b: Seq<u8>, sep: Seq<u8>, i: int)
    requires
        valid_utf8(b),
        valid_utf8(sep),
        sep.len() > 0,
        0 <= i,
        i + sep.len() <= b.len(),
        b.subrange(i, i + sep.len() as int) == sep,
    ensures
        is_char_boundary(b, i),
        is_char_boundary(b, i + sep.len()),
{
    assert(b[i] == sep[0]) by {
        assert(b.subrange(i, i + sep.len() as int)[0] == b[i]);
    }
    assert(valid_first_scalar(sep));
    assert(!is_continuation_byte(sep[0]));
    is_char_boundary_iff_not_is_continuation_byte(b, i);
    valid_utf8_split(b, i);
    let tail = b.subrange(i, b.len() as int);
    assert(tail.subrange(0, sep.len() as int) =~= sep);
    lemma_valid_prefix_is_boundary(tail, sep.len() as int);
    lemma_boundary_shift_tail(b, i, i + sep.len());
}

/// Splitting one piece on one separator keeps the tiling and the boundary
/// discipline.
pub proof fn lemma_split_segment_wf(b: Seq<u8>, sep: Seq<u8>, lo: int, hi: int)
    requires
        valid_utf8(b),
        valid_utf8(sep),
        sep.len() > 0,
        0 <= lo <= hi <= b.len(),
        is_char_boundary(b, lo),
        is_char_boundary(b, hi),
    ensures
        tiles(split_segment(b, sep, lo, hi), lo, hi),
        parts_on_boundaries(b, split_segment(b, sep, lo, hi)),
    decreases hi - lo,
{
    lemma_find_from(b, sep, lo, hi);
    let whole = split_segment(b, sep, lo, hi);
    match find_from(b, sep, lo, hi) {
        Option::None => {
            assert(tiles(whole.drop_first(), hi, hi));
        },
        Option::Some(i) => {
            let nxt = i + sep.len() as int;
            lemma_occurrence_boundaries(b, sep, i);
            lemma_split_segment_wf(b, sep, nxt, hi);
            let rest = split_segment(b, sep, nxt, hi);
            assert(whole =~= seq![(lo, i, false), (i, nxt, true)] + rest);
            let s2 = whole.drop_first();
            assert(s2 =~= seq![(i, nxt, true)] + rest);
            assert(s2.drop_first() =~= rest);
            assert(whole[0] == (lo, i, false));
            assert(s2[0] == (i, nxt, true));
            assert(tiles(rest, nxt, hi));
            assert(tiles(s2, i, hi));
            assert(tiles(whole, lo, hi));
            assert forall|k: int|
                0 <= k < whole.len() implies is_char_boundary(b, (#[trigger] whole[k]).0)
                && is_char_boundary(b, whole[k].1) by {
                if k >= 2 {
                    assert(whole[k] == rest[k - 2]);
                }
            }
        },
    }
}

/// One separator pass keeps the tiling and the boundary discipline.
pub proof fn lemma_split_pass_wf(
    b: Seq<u8>,
    sep: Seq<u8>,
    size: int,
    parts: Seq<(int, int, bool)>,
    lo: int,
    hi: int,
)
    requires
        valid_utf8(b),
        valid_utf8(sep),
        sep.len() > 0,
        0 <= lo,
        hi <= b.len(),
        tiles(parts, lo, hi),
        parts_on_boundaries(b, parts),
    ensures
        tiles(split_pass(b, sep, size, parts), lo, hi),
        parts_on_boundaries(b, split_pass(b, sep, size, parts)),
    decreases parts.len(),
{
    if parts.len() == 0 {
    } else {
        let p = parts[0];
        assert(is_char_boundary(b, p.0) && is_char_boundary(b, p.1));
        assert(parts_on_boundaries(b, parts.drop_first())) by {
            assert(forall|i: int|
                0 <= i < parts.drop_first().len() ==> parts.drop_first()[i] == parts[i + 1]);
        }
        lemma_split_pass_wf(b, sep, size, parts.drop_first(), p.1, hi);
        let rest = split_pass(b, sep, size, parts.drop_first());
        let whole = split_pass(b, sep, size, parts);
        if !p.2 && p.1 - p.0 > size {
            let seg = split_segment(b, sep, p.0, p.1);
            lemma_split_segment_wf(b, sep, p.0, p.1);
            lemma_tiles_concat(seg, rest, lo, p.1, hi);
            assert(whole == seg + rest);
            assert forall|k: int|
                0 <= k < whole.len() implies is_char_boundary(b, (#[trigger] whole[k]).0)
                && is_char_boundary(b, whole[k].1) by {
                if k < seg.len() {
                    assert(whole[k] == seg[k]);
                } else {
                    assert(whole[k] == rest[k - seg.len()]);
                }
            }
        } else {
            assert(whole == seq![p] + rest);
            assert(tiles(seq![p] + rest, lo, hi)) by {
                assert((seq![p] + rest)[0] == p);
                assert((seq![p] + rest).drop_first() =~= rest);
                assert(tiles(rest, p.1, hi));
            }
            assert forall|k: int|
                0 <= k < whole.len() implies is_char_boundary(b, (#[trigger] whole[k]).0)
                && is_char_boundary(b, whole[k].1) by {
                if k >= 1 {
                    assert(whole[k] == rest[k - 1]);
                }
            }
        }
    }
}

/// All passes keep the tiling and the boundary discipline.
pub proof fn lemma_split_passes_wf(
    b: Seq<u8>,
    seps: Seq<Seq<u8>>,
    size: int,
    parts: Seq<(int, int, bool)>,
    lo: int,
    hi: int,
)
    requires
        valid_utf8(b),
        seps_wf(seps),
        0 <= lo,
        hi <= b.len(),
        tiles(parts, lo, hi),
        parts_on_boundaries(b, parts),
    ensures
        tiles(split_passes(b, seps, size, parts), lo, hi),
        parts_on_boundaries(b, split_passes(b, seps, size, parts)),
    decreases seps.len(),
{
    if seps.len() > 0 {
        lemma_split_pass_wf(b, seps[0], size, parts, lo, hi);
        assert(seps_wf(seps.drop_first())) by {
            assert(forall|k: int|
                0 <= k < seps.drop_first().len() ==> seps.drop_first()[k] == seps[k + 1]);
        }
        lemma_split_passes_wf(b, seps.drop_first(), size, split_pass(b, seps[0], size, parts), lo, hi);
    }
}

pub proof fn lemma_shift_wf_cuts(cuts: Seq<(int, int)>, lo: int, hi: int, off: int)
    requires
        wf_cuts(cuts, lo, hi),
    ensures
        wf_cuts(shift_cuts(cuts, off), lo + off, hi + off),
    decreases cuts.len(),
{
    if cuts.len() > 0 {
        lemma_shift_wf_cuts(cuts.drop_first(), cuts[0].1, hi, off);
        assert(shift_cuts(cuts, off).drop_first() =~= shift_cuts(cuts.drop_first(), off));
    }
}

/// Assembling a tiled, boundary-respecting piece list yields a well-formed
/// cut list whose endpoints all lie on character boundaries.
pub proof fn lemma_assemble_wf(b: Seq<u8>, size: int, parts: Seq<(int, int, bool)>, lo: int, hi: int)
    requires
        valid_utf8(b),
        0 < size,
        0 <= lo,
        hi <= b.len(),
        tiles(parts, lo, hi),
        parts_on_boundaries(b, parts),
    ensures
        wf_cuts(assemble(b, size, parts), lo, hi),
        cuts_on_boundaries(b, assemble(b, size, parts)),
    decreases parts.len(),
{
    if parts.len() == 0 {
    } else {
        let p = parts[0];
        assert(is_char_boundary(b, p.0) && is_char_boundary(b, p.1));
        assert(parts_on_boundaries(b, parts.drop_first())) by {
            assert(forall|i: int|
                0 <= i < parts.drop_first().len() ==> parts.drop_first()[i] == parts[i + 1]);
        }
        lemma_assemble_wf(b, size, parts.drop_first(), p.1, hi);
        let rest = assemble(b, size, parts.drop_first());
        let whole = assemble(b, size, parts);
        if p.2 || p.1 <= p.0 {
            lemma_wf_cuts_widen(rest, p.1, hi, lo);
        } else if p.1 - p.0 > size {
            let pb = b.subrange(p.0, p.1);
            lemma_subrange_valid(b, p.0, p.1);
            let sc = simple_cuts(pb, size, 0);
            lemma_simple_cuts_wf(pb, size, 0);
            lemma_wf_cuts_bounds(sc, 0, pb.len() as int);
            let shifted = shift_cuts(sc, p.0);
            lemma_shift_wf_cuts(sc, 0, pb.len() as int, p.0);
            lemma_wf_cuts_concat(shifted, rest, p.0, p.1, hi);
            lemma_wf_cuts_widen(shifted + rest, p.0, hi, lo);
            assert(whole == shifted + rest);
            assert forall|k: int|
                0 <= k < whole.len() implies is_char_boundary(b, (#[trigger] whole[k]).0)
                && is_char_boundary(b, whole[k].1) by {
                if k < shifted.len() {
                    assert(whole[k] == (sc[k].0 + p.0, sc[k].1 + p.0));
                    assert(is_char_boundary(pb, sc[k].0) && is_char_boundary(pb, sc[k].1));
                } else {
                    assert(whole[k] == rest[k - shifted.len()]);
                }
            }
        } else {
            assert(wf_cuts(seq![(p.0, p.1)], lo, p.1)) by {
                assert(seq![(p.0, p.1)][0] == (p.0, p.1));
                assert(seq![(p.0, p.1)].drop_first() =~= Seq::<(int, int)>::empty());
                assert(wf_cuts(Seq::<(int, int)>::empty(), p.1, p.1));
            }
            lemma_wf_cuts_concat(seq![(p.0, p.1)], rest, lo, p.1, hi);
            assert(whole == seq![(p.0, p.1)] + rest);
            assert forall|k: int|
                0 <= k < whole.len() implies is_char_boundary(b, (#[trigger] whole[k]).0)
                && is_char_boundary(b, whole[k].1) by {
                if k >= 1 {
                    assert(whole[k] == rest[k - 1]);
                }
            }
        }
    }
}

/// The recursive splitter's cuts are well-formed and land on character
/// boundaries only.
pub proof fn lemma_recursive_cuts_wf(b: Seq<u8>, seps: Seq<Seq<u8>>, size: int)
    requires
        valid_utf8(b),
        0 < size,
        seps_wf(seps),
    ensures
        wf_cuts(recursive_cuts(b, seps, size), 0, b.len() as int),
        cuts_on_boundaries(b, recursive_cuts(b, seps, size)),
{
    is_char_boundary_start_end_of_seq(b);
    let init = seq![(0int, b.len() as int, false)];
    assert(tiles(init, 0, b.len() as int)) by {
        assert(init[0] == (0int, b.len() as int, false));
        assert(init.drop_first() =~= Seq::<(int, int, bool)>::empty());
        assert(tiles(Seq::<(int, int, bool)>::empty(), b.len() as int, b.len() as int));
    }
    lemma_split_passes_wf(b, seps, size, init, 0, b.len() as int);
    lemma_assemble_wf(b, size, split_passes(b, seps, size, init), 0, b.len() as int);
}

/// Re-splitting an already-minimal input changes nothing: the passes leave
/// the single piece alone and the assembly emits it unchanged.
pub proof fn lemma_recursive_cuts_minimal(b: Seq<u8>, seps: Seq<Seq<u8>>, size: int)
    requires
        0 < size,
        0 < b.len() <= size,
    ensures
        recursive_cuts(b, seps, size) == seq![(0int, b.len() as int)],
{
    let init = seq![(0int, b.len() as int, false)];
    lemma_split_passes_keep_minimal(b, seps, size, init);
    assert(assemble(b, size, init) =~= seq![(0int, b.len() as int)]) by {
        assert(init[0] == (0int, b.len() as int, false));
        assert(init.drop_first() =~= Seq::<(int, int, bool)>::empty());
        assert(assemble(b, size, Seq::<(int, int, bool)>::empty()) =~= Seq::<(int, int)>::empty());
        assert(seq![(0int, b.len() as int)] + Seq::<(int, int)>::empty() =~= seq![
            (0int, b.len() as int),
        ]);
    }
}

proof fn lemma_split_passes_keep_minimal(
    b: Seq<u8>,
    seps: Seq<Seq<u8>>,
    size: int,
    init: Seq<(int, int, bool)>,
)
    requires
        0 < size,
        0 < b.len() <= size,
        init == seq![(0int, b.len() as int, false)],
    ensures
        split_passes(b, seps, size, init) == init,
    decreases seps.len(),
{
    if seps.len() > 0 {
        assert(split_pass(b, seps[0], size, init) =~= init) by {
            assert(init.drop_first() =~= Seq::<(int, int, bool)>::empty());
            assert(split_pass(b, seps[0], size, init.drop_first()) =~= Seq::<(int, int, bool)>::empty());
            assert(seq![init[0]] + Seq::<(int, int, bool)>::empty() =~= init);
        }
        lemma_split_passes_keep_minimal(b, seps.drop_first(), size, init);
    }
}

/// A UTF-8 encoding is at least as long as the character sequence it
/// encodes.
pub proof fn lemma_encode_utf8_len(chars: Seq<char>)
    ensures
        encode_utf8(chars).len() >= chars.len(),
    decreases chars.len(),
{
    if chars.len() > 0 {
        lemma_encode_utf8_len(chars.drop_first());
    }
}

/// Compares `needle` with the bytes of `hay` at position `at`.
pub(crate) fn range_eq(hay: &[u8], at: usize, needle: &[u8]) -> (r: bool)
    requires
        at + needle@.len() <= hay@.len(),
    ensures
        r == (hay@.subrange(at as int, at + needle@.len()) == needle@),
{
    let n = needle.len();
    let hn = hay.len();
    let mut k: usize = 0;
    while k < n
        invariant
            hn == hay@.len(),
            at + n <= hn,
            n == needle@.len(),
            k <= n,
            forall|j: int| 0 <= j < k ==> hay@[at + j] == needle@[j],
        decreases n - k,
    {
        if *vstd::slice::slice_index_get(hay, at + k) != *vstd::slice::slice_index_get(needle, k) {
            proof {
                assert(hay@.subrange(at as int, at + needle@.len())[k as int] != needle@[k as int]);
            }
            return false;
        }
        k = k + 1;
    }
    proof {
        assert(hay@.subrange(at as int, at + needle@.len()) =~= needle@);
    }
    true
}

/// The position of the first occurrence of `needle` in `hay` at or after
/// `from` that ends at or before `end`.
pub(crate) fn find_sep(hay: &[u8], needle: &[u8], from: usize, end: usize) -> (r: Option<usize>)
    requires
        needle@.len() > 0,
        from <= end <= hay@.len(),
    ensures
        match r {
            Option::Some(u) => Some(u as int) == find_from(hay@, needle@, from as int, end as int)
                && from <= u && u + needle@.len() <= end,
            Option::None => find_from(hay@, needle@, from as int, end as int) is None,
        },
{
    let n = needle.len();
    let mut j = from;
    while end - j >= n
        invariant
            n == needle@.len(),
            n > 0,
            from <= j <= end,
            end <= hay@.len(),
            find_from(hay@, needle@, from as int, end as int) == find_from(
                hay@,
                needle@,
                j as int,
                end as int,
            ),
        ensures
            (end - j < n && find_from(hay@, needle@, from as int, end as int) is None) || (j + n
                <= end && Some(j as int) == find_from(hay@, needle@, from as int, end as int)),
        decreases end - j,
    {
        if range_eq(hay, j, needle) {
            break ;
        }
        j = j + 1;
    }
    if end - j >= n {
        Some(j)
    } else {
        None
    }
}

} // verus!
