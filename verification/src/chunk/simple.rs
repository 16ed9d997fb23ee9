use super::{chunk_matches_cut, chunks_match_cuts, Chunk, Chunker, SimpleChunk};
use crate::error::Error;
use crate::loc::Loc;
use crate::text::{cuts_view, cuts_on_boundaries, fixed_cut_points, recon, simple_cuts, substr,
    wf_cuts};
use crate::text::{lemma_recon, lemma_simple_cuts_minimal, lemma_simple_cuts_wf,
    lemma_subrange_valid, lemma_wf_cuts_bounds};
use vstd::prelude::*;
use vstd::string::StringSliceAdditionalSpecFns;
use vstd::utf8::{encode_utf8_valid_utf8, is_char_boundary_start_end_of_seq, valid_utf8};

verus! {

/// Simple chunking algorithm. Splits a string along character boundaries
/// according to the `chunk_size`. This should not be used on its own. It
/// serves as a building block for more advanced chunking algorithms.
#[derive(Debug)]
pub struct SimpleChunker {
    /// How large each chunk should be.
    pub chunk_size: u32,
    /// An offset to use when generating chunk `Loc`s. Useful when this
    /// chunker is used within other chunker implementations.
    pub loc_offset: usize,
}

impl Default for SimpleChunker {
    fn default() -> (r: Self)
        ensures
            r.chunk_size == 0,
            r.loc_offset == 0,
    {
        SimpleChunker { chunk_size: 0, loc_offset: 0 }
    }
}

/// Builder for [`SimpleChunker`]: `chunk_size` is required, `loc_offset`
/// defaults to zero.
#[derive(Debug)]
pub struct SimpleChunkerBuilder {
    pub chunk_size: Option<u32>,
    pub loc_offset: Option<usize>,
}

impl Default for SimpleChunkerBuilder {
    fn default() -> (r: Self)
        ensures
            r.chunk_size is None,
            r.loc_offset is None,
    {
        SimpleChunkerBuilder { chunk_size: None, loc_offset: None }
    }
}

impl SimpleChunkerBuilder {
    pub fn chunk_size(self, value: u32) -> (r: Self)
        ensures
            r.chunk_size == Some(value),
            r.loc_offset == self.loc_offset,
    {
        SimpleChunkerBuilder { chunk_size: Some(value), ..self }
    }

    pub fn loc_offset(self, value: usize) -> (r: Self)
        ensures
            r.loc_offset == Some(value),
            r.chunk_size == self.chunk_size,
    {
        SimpleChunkerBuilder { loc_offset: Some(value), ..self }
    }

    pub fn build(self) -> (r: Result<SimpleChunker, Error>)
        ensures
            match self.chunk_size {
                Some(cs) => r matches Ok(c) && c.chunk_size == cs && c.loc_offset == (
                match self.loc_offset {
                    Some(o) => o,
                    None => 0,
                }),
                None => r matches Err(e) && e matches Error::UninitializedField(f) && f@
                    == "chunk_size"@,
            },
    {
        match self.chunk_size {
            None => Err(Error::UninitializedField("chunk_size")),
            Some(chunk_size) => {
                let loc_offset = match self.loc_offset {
                    Some(o) => o,
                    None => 0,
                };
                Ok(SimpleChunker { chunk_size, loc_offset })
            },
        }
    }
}

/// Boundary safety: for every text and every positive chunk size, each cut
/// the fixed-size splitter makes lies on a character boundary, and each
/// chunk's byte range is a complete, valid UTF-8 character sequence — no
/// boundary falls inside an encoded character.
pub proof fn lemma_fixed_boundary_safety(input: &str, size: int)
    requires
        0 < size,
    ensures
        cuts_on_boundaries(input.spec_bytes(), simple_cuts(input.spec_bytes(), size, 0)),
        forall|k: int|
            0 <= k < simple_cuts(input.spec_bytes(), size, 0).len() ==> valid_utf8(
                input.spec_bytes().subrange(
                    (#[trigger] simple_cuts(input.spec_bytes(), size, 0)[k]).0,
                    simple_cuts(input.spec_bytes(), size, 0)[k].1,
                ),
            ),
{
    let b = input.spec_bytes();
    let cuts = simple_cuts(b, size, 0);
    encode_utf8_valid_utf8(input@);
    is_char_boundary_start_end_of_seq(b);
    lemma_simple_cuts_wf(b, size, 0);
    lemma_wf_cuts_bounds(cuts, 0, b.len() as int);
    assert forall|k: int| 0 <= k < cuts.len() implies valid_utf8(
        b.subrange((#[trigger] cuts[k]).0, cuts[k].1),
    ) by {
        lemma_subrange_valid(b, cuts[k].0, cuts[k].1);
    }
}

/// Coverage and order: the fixed-size splitter's cuts are non-empty,
/// ordered left to right and non-overlapping, and re-inserting the gap
/// text between the cut contents rebuilds the input bytes exactly.
pub proof fn lemma_fixed_coverage(input: &str, size: int)
    requires
        0 < size,
    ensures
        wf_cuts(simple_cuts(input.spec_bytes(), size, 0), 0, input.spec_bytes().len() as int),
        recon(input.spec_bytes(), simple_cuts(input.spec_bytes(), size, 0), 0)
            == input.spec_bytes(),
{
    let b = input.spec_bytes();
    encode_utf8_valid_utf8(input@);
    is_char_boundary_start_end_of_seq(b);
    lemma_simple_cuts_wf(b, size, 0);
    lemma_recon(b, simple_cuts(b, size, 0), 0);
    assert(b.subrange(0, b.len() as int) =~= b);
}

/// Idempotent re-splitting: an input that already fits in the chunk size
/// comes back as a single chunk covering it unchanged.
pub proof fn lemma_fixed_minimal(input: &str, size: int)
    requires
        0 < input.spec_bytes().len() <= size,
    ensures
        simple_cuts(input.spec_bytes(), size, 0) == seq![
            (0int, input.spec_bytes().len() as int),
        ],
{
    lemma_simple_cuts_minimal(input.spec_bytes(), size);
}

impl<'a> Chunker<'a> for SimpleChunker {
    type Input = &'a str;

    open spec fn chunk_requires(&self, input: &'a str) -> bool {
        self.loc_offset + input.spec_bytes().len() <= usize::MAX
    }

    open spec fn chunk_ensures(&self, input: &'a str, r: Result<Vec<Chunk<'a>>, Error>) -> bool {
        if self.chunk_size == 0 {
            r == Err::<Vec<Chunk<'a>>, Error>(Error::InvalidChunkSize(0))
        } else {
            r matches Ok(chunks) && chunks_match_cuts(
                chunks@,
                input.spec_bytes(),
                simple_cuts(input.spec_bytes(), self.chunk_size as int, 0),
                self.loc_offset as int,
            )
        }
    }

    fn chunk(&self, input: &'a str) -> (r: Result<Vec<Chunk<'a>>, Error>) {
        if self.chunk_size == 0 {
            return Err(Error::InvalidChunkSize(self.chunk_size));
        }
        let chunk_size = self.chunk_size as usize;
        let ghost b = input.spec_bytes();
        let ghost size = chunk_size as int;
        let ghost cuts = simple_cuts(b, size, 0);
        let ghost off = self.loc_offset as int;
        proof {
            encode_utf8_valid_utf8(input@);
            is_char_boundary_start_end_of_seq(b);
            lemma_simple_cuts_wf(b, size, 0);
            lemma_wf_cuts_bounds(cuts, 0, b.len() as int);
        }
        let cut_points = fixed_cut_points(input, chunk_size);
        let mut chunks: Vec<Chunk<'a>> = Vec::new();
        let mut i: usize = 0;
        while i < cut_points.len()
            invariant
                b == input.spec_bytes(),
                cuts == simple_cuts(b, size, 0),
                off == self.loc_offset as int,
                self.loc_offset + b.len() <= usize::MAX,
                cuts_view(cut_points@) == cuts,
                cuts_on_boundaries(b, cuts),
                forall|k: int| 0 <= k < cuts.len() ==> 0 <= (#[trigger] cuts[k]).0 < cuts[k].1 <= b.len(),
                i <= cut_points@.len(),
                chunks@.len() == i,
                forall|k: int|
                    0 <= k < i ==> #[trigger] chunk_matches_cut(chunks@[k], b, cuts[k], off),
            decreases cut_points@.len() - i,
        {
            let (s, e) = cut_points[i];
            proof {
                assert(cuts[i as int] == (s as int, e as int));
            }
            let content = substr(input, s, e);
            chunks.push(
                Chunk::Simple(
                    SimpleChunk {
                        content,
                        loc: Loc { start: s + self.loc_offset, end: e + self.loc_offset },
                        tags: Vec::new(),
                    },
                ),
            );
            i = i + 1;
        }
        Ok(chunks)
    }
}

} // verus!
