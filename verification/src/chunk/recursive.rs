use super::{chunk_matches_cut, chunks_match_cuts, Chunk, Chunker, SimpleChunk};
use crate::error::Error;
use crate::loc::Loc;
use crate::text::{
    cuts_on_boundaries, cuts_view, find_sep, fixed_cut_points, parts_on_boundaries,
    recursive_cuts, seps_wf, shift_cuts, simple_cuts, split_pass, split_passes, split_segment,
    substr, tiles,
};
use crate::text::{recon, wf_cuts};
use crate::text::{
    lemma_encode_utf8_len, lemma_recon, lemma_recursive_cuts_minimal, lemma_recursive_cuts_wf,
    lemma_simple_cuts_wf, lemma_split_passes_wf, lemma_subrange_valid, lemma_tiles_bounds,
    lemma_wf_cuts_bounds,
};
use vstd::prelude::*;
use vstd::string::StringSliceAdditionalSpecFns;
use vstd::utf8::{encode_utf8_valid_utf8, is_char_boundary, is_char_boundary_start_end_of_seq,
    valid_utf8};

verus! {

/// Recursive chunking algorithm. Splits based on the first separator, then
/// recurses with the next separator. Useful for splitting into logical
/// units, e.g. split by paragraphs and then sentences.
#[derive(Debug)]
pub struct RecursiveChunker<'sep> {
    /// How large each chunk should be.
    pub chunk_size: u32,
    /// The separators, first one tried first; each must be non-empty.
    pub separators: Vec<&'sep str>,
}

impl<'sep> Default for RecursiveChunker<'sep> {
    fn default() -> (r: Self)
        ensures
            r.chunk_size == 0,
            r.separators@.len() == 0,
    {
        RecursiveChunker { chunk_size: 0, separators: Vec::new() }
    }
}

/// Builder for [`RecursiveChunker`]: both fields are required.
#[derive(Debug)]
pub struct RecursiveChunkerBuilder<'sep> {
    pub chunk_size: Option<u32>,
    pub separators: Option<Vec<&'sep str>>,
}

impl<'sep> Default for RecursiveChunkerBuilder<'sep> {
    fn default() -> (r: Self)
        ensures
            r.chunk_size is None,
            r.separators is None,
    {
        RecursiveChunkerBuilder { chunk_size: None, separators: None }
    }
}

impl<'sep> RecursiveChunkerBuilder<'sep> {
    pub fn chunk_size(self, value: u32) -> (r: Self)
        ensures
            r.chunk_size == Some(value),
            r.separators == self.separators,
    {
        RecursiveChunkerBuilder { chunk_size: Some(value), ..self }
    }

    pub fn separators(self, value: Vec<&'sep str>) -> (r: Self)
        ensures
            r.separators == Some(value),
            r.chunk_size == self.chunk_size,
    {
        RecursiveChunkerBuilder { separators: Some(value), ..self }
    }

    pub fn build(self) -> (r: Result<RecursiveChunker<'sep>, Error>)
        ensures
            match self.chunk_size {
                Some(cs) => match self.separators {
                    Some(seps) => r matches Ok(c) && c.chunk_size == cs && c.separators == seps,
                    None => r matches Err(e) && e matches Error::UninitializedField(f) && f@
                        == "separators"@,
                },
                None => r matches Err(e) && e matches Error::UninitializedField(f) && f@
                    == "chunk_size"@,
            },
    {
        match self.chunk_size {
            None => Err(Error::UninitializedField("chunk_size")),
            Some(chunk_size) => match self.separators {
                None => Err(Error::UninitializedField("separators")),
                Some(separators) => Ok(RecursiveChunker { chunk_size, separators }),
            },
        }
    }
}

/// The byte views of a separator list.
pub open spec fn seps_bytes(seps: Seq<&str>) -> Seq<Seq<u8>> {
    seps.map_values(|s: &str| s.spec_bytes())
}

/// The bytes of non-empty string slices form non-empty, valid UTF-8
/// separators.
proof fn lemma_seps_bytes_wf(seps: Seq<&str>)
    requires
        forall|k: int| 0 <= k < seps.len() ==> (#[trigger] seps[k])@.len() > 0,
    ensures
        seps_wf(seps_bytes(seps)),
{
    let sb = seps_bytes(seps);
    assert forall|k: int| 0 <= k < sb.len() implies (#[trigger] sb[k]).len() > 0 && valid_utf8(
        sb[k],
    ) by {
        encode_utf8_valid_utf8(seps[k]@);
        lemma_encode_utf8_len(seps[k]@);
    }
}

/// Boundary safety: for every text, every positive chunk size and every
/// list of non-empty separators, each cut the recursive splitter makes lies
/// on a character boundary, and each chunk's byte range is a complete,
/// valid UTF-8 character sequence — no boundary falls inside an encoded
/// character, however many separator levels or fallback splits fired.
pub proof fn lemma_recursive_boundary_safety(input: &str, seps: Seq<&str>, size: int)
    requires
        0 < size,
        forall|k: int| 0 <= k < seps.len() ==> (#[trigger] seps[k])@.len() > 0,
    ensures
        cuts_on_boundaries(
            input.spec_bytes(),
            recursive_cuts(input.spec_bytes(), seps_bytes(seps), size),
        ),
        forall|k: int|
            0 <= k < recursive_cuts(input.spec_bytes(), seps_bytes(seps), size).len()
                ==> valid_utf8(
                input.spec_bytes().subrange(
                    (#[trigger] recursive_cuts(input.spec_bytes(), seps_bytes(seps), size)[k]).0,
                    recursive_cuts(input.spec_bytes(), seps_bytes(seps), size)[k].1,
                ),
            ),
{
    let b = input.spec_bytes();
    let cuts = recursive_cuts(b, seps_bytes(seps), size);
    encode_utf8_valid_utf8(input@);
    lemma_seps_bytes_wf(seps);
    lemma_recursive_cuts_wf(b, seps_bytes(seps), size);
    lemma_wf_cuts_bounds(cuts, 0, b.len() as int);
    assert forall|k: int| 0 <= k < cuts.len() implies valid_utf8(
        b.subrange((#[trigger] cuts[k]).0, cuts[k].1),
    ) by {
        lemma_subrange_valid(b, cuts[k].0, cuts[k].1);
    }
}

/// Coverage and order: the recursive splitter's cuts are non-empty,
/// ordered left to right and non-overlapping, and re-inserting the gap
/// text (the removed separators and dropped empty pieces) between the cut
/// contents rebuilds the input bytes exactly.
pub proof fn lemma_recursive_coverage(input: &str, seps: Seq<&str>, size: int)
    requires
        0 < size,
        forall|k: int| 0 <= k < seps.len() ==> (#[trigger] seps[k])@.len() > 0,
    ensures
        wf_cuts(
            recursive_cuts(input.spec_bytes(), seps_bytes(seps), size),
            0,
            input.spec_bytes().len() as int,
        ),
        recon(input.spec_bytes(), recursive_cuts(input.spec_bytes(), seps_bytes(seps), size), 0)
            == input.spec_bytes(),
{
    let b = input.spec_bytes();
    encode_utf8_valid_utf8(input@);
    lemma_seps_bytes_wf(seps);
    lemma_recursive_cuts_wf(b, seps_bytes(seps), size);
    lemma_recon(b, recursive_cuts(b, seps_bytes(seps), size), 0);
    assert(b.subrange(0, b.len() as int) =~= b);
}

/// Idempotent re-splitting: an input that already fits in the chunk size
/// comes back as a single chunk covering it unchanged, whatever the
/// separators.
pub proof fn lemma_recursive_minimal(input: &str, seps: Seq<&str>, size: int)
    requires
        0 < input.spec_bytes().len() <= size,
    ensures
        recursive_cuts(input.spec_bytes(), seps_bytes(seps), size) == seq![
            (0int, input.spec_bytes().len() as int),
        ],
{
    lemma_recursive_cuts_minimal(input.spec_bytes(), seps_bytes(seps), size);
}

/// Internal working piece: a byte range of the input, marked as separator
/// or content.
#[derive(Clone, Copy, Debug)]
struct Part {
    start: usize,
    end: usize,
    sep: bool,
}

spec fn parts_view(ps: Seq<Part>) -> Seq<(int, int, bool)> {
    ps.map_values(|p: Part| (p.start as int, p.end as int, p.sep))
}

impl<'a> Chunker<'a> for RecursiveChunker<'a> {
    type Input = &'a str;

    open spec fn chunk_requires(&self, input: &'a str) -> bool {
        forall|k: int|
            0 <= k < self.separators@.len() ==> (#[trigger] self.separators@[k])@.len() > 0
    }

    open spec fn chunk_ensures(&self, input: &'a str, r: Result<Vec<Chunk<'a>>, Error>) -> bool {
        if self.chunk_size == 0 {
            r == Err::<Vec<Chunk<'a>>, Error>(Error::InvalidChunkSize(0))
        } else {
            r matches Ok(chunks) && chunks_match_cuts(
                chunks@,
                input.spec_bytes(),
                recursive_cuts(
                    input.spec_bytes(),
                    seps_bytes(self.separators@),
                    self.chunk_size as int,
                ),
                0,
            )
        }
    }

    fn chunk(&self, input: &'a str) -> (r: Result<Vec<Chunk<'a>>, Error>) {
        if self.chunk_size == 0 {
            return Err(Error::InvalidChunkSize(self.chunk_size));
        }
        let chunk_size = self.chunk_size as usize;
        let ghost b = input.spec_bytes();
        let ghost size = chunk_size as int;
        let ghost sepsb = seps_bytes(self.separators@);
        let ghost init = seq![(0int, b.len() as int, false)];
        proof {
            encode_utf8_valid_utf8(input@);
            lemma_seps_bytes_wf(self.separators@);
        }
        let bytes = input.as_bytes();
        let n = bytes.len();
        let mut parts: Vec<Part> = Vec::new();
        parts.push(Part { start: 0, end: n, sep: false });
        proof {
            assert(parts_view(parts@) =~= init);
            assert(sepsb.skip(0) =~= sepsb);
        }
        let mut si: usize = 0;
        while si < self.separators.len()
            invariant
                b == input.spec_bytes(),
                valid_utf8(b),
                bytes@ == b,
                chunk_size > 0,
                size == chunk_size as int,
                n == b.len(),
                sepsb == seps_bytes(self.separators@),
                seps_wf(sepsb),
                sepsb.len() == self.separators@.len(),
                init == seq![(0int, b.len() as int, false)],
                si <= self.separators@.len(),
                split_passes(b, sepsb, size, init) == split_passes(
                    b,
                    sepsb.skip(si as int),
                    size,
                    parts_view(parts@),
                ),
                forall|k: int|
                    0 <= k < parts@.len() ==> (#[trigger] parts@[k]).start <= parts@[k].end
                        && parts@[k].end <= n,
            decreases self.separators@.len() - si,
        {
            let sep: &str = self.separators[si];
            let sep_bytes = sep.as_bytes();
            let sep_len = sep_bytes.len();
            let ghost ssb = sep_bytes@;
            proof {
                assert(ssb == sepsb[si as int]);
                assert(ssb.len() > 0);
            }
            let ghost pv = parts_view(parts@);
            let mut new_parts: Vec<Part> = Vec::new();
            proof {
                assert(pv.skip(0) =~= pv);
                assert(parts_view(new_parts@) =~= Seq::<(int, int, bool)>::empty());
                assert(Seq::<(int, int, bool)>::empty() + split_pass(b, ssb, size, pv)
                    =~= split_pass(b, ssb, size, pv));
            }
            let mut pi: usize = 0;
            while pi < parts.len()
                invariant
                    b == input.spec_bytes(),
                    valid_utf8(b),
                    bytes@ == b,
                    chunk_size > 0,
                    size == chunk_size as int,
                    n == b.len(),
                    ssb == sep_bytes@,
                    sep_len == ssb.len(),
                    sep_len > 0,
                    pv == parts_view(parts@),
                    pi <= parts@.len(),
                    forall|k: int|
                        0 <= k < parts@.len() ==> (#[trigger] parts@[k]).start <= parts@[k].end
                            && parts@[k].end <= n,
                    forall|k: int|
                        0 <= k < new_parts@.len() ==> (#[trigger] new_parts@[k]).start
                            <= new_parts@[k].end && new_parts@[k].end <= n,
                    split_pass(b, ssb, size, pv) == parts_view(new_parts@) + split_pass(
                        b,
                        ssb,
                        size,
                        pv.skip(pi as int),
                    ),
                decreases parts@.len() - pi,
            {
                let p = parts[pi];
                let ghost pt = (p.start as int, p.end as int, p.sep);
                proof {
                    assert(pv.skip(pi as int)[0] == pt);
                    assert(pv.skip(pi as int).drop_first() =~= pv.skip(pi as int + 1));
                }
                if !p.sep && p.end - p.start > chunk_size {
                    let ghost entry_view = parts_view(new_parts@);
                    let mut lo = p.start;
                    loop
                        invariant_except_break
                            entry_view + split_segment(b, ssb, p.start as int, p.end as int)
                                == parts_view(new_parts@) + split_segment(
                                b,
                                ssb,
                                lo as int,
                                p.end as int,
                            ),
                        invariant
                            b == input.spec_bytes(),
                            valid_utf8(b),
                            bytes@ == b,
                            n == b.len(),
                            ssb == sep_bytes@,
                            sep_len == ssb.len(),
                            sep_len > 0,
                            p.start <= lo <= p.end,
                            p.end <= n,
                            forall|k: int|
                                0 <= k < new_parts@.len() ==> (#[trigger] new_parts@[k]).start
                                    <= new_parts@[k].end && new_parts@[k].end <= n,
                        ensures
                            parts_view(new_parts@) == entry_view + split_segment(
                                b,
                                ssb,
                                p.start as int,
                                p.end as int,
                            ),
                            forall|k: int|
                                0 <= k < new_parts@.len() ==> (#[trigger] new_parts@[k]).start
                                    <= new_parts@[k].end && new_parts@[k].end <= n,
                        decreases p.end - lo,
                    {
                        match find_sep(bytes, sep_bytes, lo, p.end) {
                            None => {
                                let ghost before = parts_view(new_parts@);
                                new_parts.push(Part { start: lo, end: p.end, sep: false });
                                proof {
                                    assert(split_segment(b, ssb, lo as int, p.end as int) =~= seq![
                                        (lo as int, p.end as int, false),
                                    ]);
                                    assert(parts_view(new_parts@) =~= before + seq![
                                        (lo as int, p.end as int, false),
                                    ]);
                                }
                                break ;
                            },
                            Some(i) => {
                                let ghost before = parts_view(new_parts@);
                                let ghost seg_lo = split_segment(b, ssb, lo as int, p.end as int);
                                new_parts.push(Part { start: lo, end: i, sep: false });
                                new_parts.push(Part { start: i, end: i + sep_len, sep: true });
                                proof {
                                    let nxt = i as int + ssb.len() as int;
                                    assert(seg_lo =~= seq![
                                        (lo as int, i as int, false),
                                        (i as int, nxt, true),
                                    ] + split_segment(b, ssb, nxt, p.end as int));
                                    assert(parts_view(new_parts@) =~= before + seq![
                                        (lo as int, i as int, false),
                                        (i as int, nxt, true),
                                    ]);
                                    assert(before + seg_lo =~= parts_view(new_parts@)
                                        + split_segment(b, ssb, nxt, p.end as int));
                                    assert(entry_view + split_segment(
                                        b,
                                        ssb,
                                        p.start as int,
                                        p.end as int,
                                    ) =~= parts_view(new_parts@) + split_segment(
                                        b,
                                        ssb,
                                        nxt,
                                        p.end as int,
                                    ));
                                }
                                lo = i + sep_len;
                            },
                        }
                    }
                    proof {
                        assert(split_pass(b, ssb, size, pv.skip(pi as int)) == split_segment(
                            b,
                            ssb,
                            pt.0,
                            pt.1,
                        ) + split_pass(b, ssb, size, pv.skip(pi as int + 1)));
                        assert(parts_view(new_parts@) + split_pass(
                            b,
                            ssb,
                            size,
                            pv.skip(pi as int + 1),
                        ) =~= (entry_view + split_segment(b, ssb, pt.0, pt.1)) + split_pass(
                            b,
                            ssb,
                            size,
                            pv.skip(pi as int + 1),
                        ));
                        assert(entry_view + (split_segment(b, ssb, pt.0, pt.1) + split_pass(
                            b,
                            ssb,
                            size,
                            pv.skip(pi as int + 1),
                        )) =~= (entry_view + split_segment(b, ssb, pt.0, pt.1)) + split_pass(
                            b,
                            ssb,
                            size,
                            pv.skip(pi as int + 1),
                        ));
                    }
                } else {
                    let ghost before = parts_view(new_parts@);
                    new_parts.push(p);
                    proof {
                        assert(split_pass(b, ssb, size, pv.skip(pi as int)) == seq![pt]
                            + split_pass(b, ssb, size, pv.skip(pi as int + 1)));
                        assert(parts_view(new_parts@) =~= before + seq![pt]);
                        assert((before + seq![pt]) + split_pass(b, ssb, size, pv.skip(pi as int + 1))
                            =~= before + (seq![pt] + split_pass(b, ssb, size, pv.skip(pi as int + 1))));
                    }
                }
                pi = pi + 1;
            }
            proof {
                assert(pv.skip(parts@.len() as int) =~= Seq::<(int, int, bool)>::empty());
                assert(split_pass(b, ssb, size, Seq::<(int, int, bool)>::empty()) =~= Seq::<
                    (int, int, bool),
                >::empty());
                assert(parts_view(new_parts@) + Seq::<(int, int, bool)>::empty() =~= parts_view(
                    new_parts@,
                ));
                assert(split_pass(b, ssb, size, pv) == parts_view(new_parts@));
                assert(sepsb.skip(si as int)[0] == ssb);
                assert(sepsb.skip(si as int).drop_first() =~= sepsb.skip(si as int + 1));
            }
            parts = new_parts;
            si = si + 1;
        }
        let ghost fin = parts_view(parts@);
        proof {
            assert(sepsb.skip(si as int) =~= Seq::<Seq<u8>>::empty());
            assert(fin == split_passes(b, sepsb, size, init));
            assert(tiles(init, 0, b.len() as int)) by {
                assert(init[0] == (0int, b.len() as int, false));
                assert(init.drop_first() =~= Seq::<(int, int, bool)>::empty());
                assert(tiles(Seq::<(int, int, bool)>::empty(), b.len() as int, b.len() as int));
            }
            assert(parts_on_boundaries(b, init)) by {
                is_char_boundary_start_end_of_seq(b);
                assert(init[0] == (0int, b.len() as int, false));
            }
            lemma_split_passes_wf(b, sepsb, size, init, 0, b.len() as int);
            lemma_tiles_bounds(fin, 0, b.len() as int);
        }
        let mut chunks: Vec<Chunk<'a>> = Vec::new();
        let ghost mut dcuts: Seq<(int, int)> = Seq::empty();
        proof {
            assert(fin.skip(0) =~= fin);
            assert(Seq::<(int, int)>::empty() + crate::text::assemble(b, size, fin)
                =~= crate::text::assemble(b, size, fin));
        }
        let mut pi: usize = 0;
        while pi < parts.len()
            invariant
                b == input.spec_bytes(),
                valid_utf8(b),
                chunk_size > 0,
                size == chunk_size as int,
                n == b.len(),
                fin == parts_view(parts@),
                tiles(fin, 0, b.len() as int),
                parts_on_boundaries(b, fin),
                forall|k: int| 0 <= k < fin.len() ==> 0 <= (#[trigger] fin[k]).0 <= fin[k].1 <= b.len(),
                pi <= parts@.len(),
                chunks@.len() == dcuts.len(),
                chunks_match_cuts(chunks@, b, dcuts, 0),
                crate::text::assemble(b, size, fin) == dcuts + crate::text::assemble(
                    b,
                    size,
                    fin.skip(pi as int),
                ),
            decreases parts@.len() - pi,
        {
            let p = parts[pi];
            let ghost pt = (p.start as int, p.end as int, p.sep);
            proof {
                assert(fin.skip(pi as int)[0] == pt);
                assert(fin.skip(pi as int).drop_first() =~= fin.skip(pi as int + 1));
                assert(is_char_boundary(b, pt.0) && is_char_boundary(b, pt.1));
                assert(0 <= pt.0 <= pt.1 <= b.len());
            }
            if p.sep || p.end == p.start {
                proof {
                    assert(crate::text::assemble(b, size, fin.skip(pi as int))
                        == crate::text::assemble(b, size, fin.skip(pi as int + 1)));
                }
            } else if p.end - p.start > chunk_size {
                let piece = substr(input, p.start, p.end);
                let ghost pb = b.subrange(pt.0, pt.1);
                proof {
                    lemma_subrange_valid(b, pt.0, pt.1);
                    lemma_simple_cuts_wf(pb, size, 0);
                    lemma_wf_cuts_bounds(simple_cuts(pb, size, 0), 0, pb.len() as int);
                }
                let cut_points = fixed_cut_points(piece, chunk_size);
                let ghost sc = simple_cuts(pb, size, 0);
                let ghost dcuts_entry = dcuts;
                let mut j: usize = 0;
                while j < cut_points.len()
                    invariant
                        b == input.spec_bytes(),
                        valid_utf8(b),
                        n == b.len(),
                        chunk_size > 0,
                        size == chunk_size as int,
                        pb == b.subrange(pt.0, pt.1),
                        pt == (p.start as int, p.end as int, p.sep),
                        0 <= pt.0 <= pt.1 <= b.len(),
                        is_char_boundary(b, pt.0),
                        is_char_boundary(b, pt.1),
                        valid_utf8(pb),
                        forall|q: int|
                            0 <= q <= pt.1 - pt.0 ==> (#[trigger] is_char_boundary(pb, q)
                                <==> is_char_boundary(b, pt.0 + q)),
                        sc == simple_cuts(pb, size, 0),
                        cuts_view(cut_points@) == sc,
                        cuts_on_boundaries(pb, sc),
                        forall|k: int| 0 <= k < sc.len() ==> 0 <= (#[trigger] sc[k]).0 < sc[k].1 <= pb.len(),
                        j <= cut_points@.len(),
                        chunks@.len() == dcuts.len(),
                        chunks_match_cuts(chunks@, b, dcuts, 0),
                        dcuts == dcuts_entry + shift_cuts(sc, pt.0).take(j as int),
                    decreases cut_points@.len() - j,
                {
                    let (cs, ce) = cut_points[j];
                    proof {
                        assert(sc[j as int] == (cs as int, ce as int));
                        assert(is_char_boundary(b, pt.0 + cs));
                        assert(is_char_boundary(b, pt.0 + ce));
                    }
                    let content = substr(input, p.start + cs, p.start + ce);
                    chunks.push(
                        Chunk::Simple(
                            SimpleChunk {
                                content,
                                loc: Loc { start: p.start + cs, end: p.start + ce },
                                tags: Vec::new(),
                            },
                        ),
                    );
                    proof {
                        dcuts = dcuts.push((pt.0 + cs, pt.0 + ce));
                        assert(shift_cuts(sc, pt.0)[j as int] == (pt.0 + cs, pt.0 + ce));
                        assert(shift_cuts(sc, pt.0).take(j as int + 1) =~= shift_cuts(
                            sc,
                            pt.0,
                        ).take(j as int).push((pt.0 + cs, pt.0 + ce)));
                        assert(dcuts_entry + shift_cuts(sc, pt.0).take(j as int + 1) =~= (
                        dcuts_entry + shift_cuts(sc, pt.0).take(j as int)).push(
                            (pt.0 + cs, pt.0 + ce),
                        ));
                    }
                    j = j + 1;
                }
                proof {
                    assert(shift_cuts(sc, pt.0).take(sc.len() as int) =~= shift_cuts(sc, pt.0));
                    assert(crate::text::assemble(b, size, fin.skip(pi as int)) == shift_cuts(
                        sc,
                        pt.0,
                    ) + crate::text::assemble(b, size, fin.skip(pi as int + 1)));
                    assert(dcuts_entry + (shift_cuts(sc, pt.0) + crate::text::assemble(
                        b,
                        size,
                        fin.skip(pi as int + 1),
                    )) =~= (dcuts_entry + shift_cuts(sc, pt.0)) + crate::text::assemble(
                        b,
                        size,
                        fin.skip(pi as int + 1),
                    ));
                }
            } else {
                let content = substr(input, p.start, p.end);
                chunks.push(
                    Chunk::Simple(
                        SimpleChunk {
                            content,
                            loc: Loc { start: p.start, end: p.end },
                            tags: Vec::new(),
                        },
                    ),
                );
                proof {
                    let ghost before = dcuts;
                    dcuts = dcuts.push((pt.0, pt.1));
                    assert(crate::text::assemble(b, size, fin.skip(pi as int)) == seq![(pt.0, pt.1)]
                        + crate::text::assemble(b, size, fin.skip(pi as int + 1)));
                    assert(before + (seq![(pt.0, pt.1)] + crate::text::assemble(
                        b,
                        size,
                        fin.skip(pi as int + 1),
                    )) =~= dcuts + crate::text::assemble(b, size, fin.skip(pi as int + 1)));
                }
            }
            pi = pi + 1;
        }
        proof {
            assert(fin.skip(parts@.len() as int) =~= Seq::<(int, int, bool)>::empty());
            assert(crate::text::assemble(b, size, Seq::<(int, int, bool)>::empty()) =~= Seq::<
                (int, int),
            >::empty());
            assert(dcuts + Seq::<(int, int)>::empty() =~= dcuts);
            assert(dcuts == recursive_cuts(b, sepsb, size));
        }
        Ok(chunks)
    }
}

} // verus!
