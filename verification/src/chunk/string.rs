use super::{simple_chunk_matches_cut, simple_chunks_match_cuts, SimpleChunk};
use crate::error::Error;
use crate::loc::Loc;
use crate::text::{cuts_view, cuts_on_boundaries, fixed_cut_points, simple_cuts, substr};
use crate::text::{lemma_simple_cuts_wf, lemma_wf_cuts_bounds};
use vstd::prelude::*;
use vstd::string::StringSliceAdditionalSpecFns;
use vstd::utf8::{encode_utf8_valid_utf8, is_char_boundary_start_end_of_seq};

verus! {

/// Simple chunking algorithm. Splits a string along character boundaries
/// according to the `chunk_size`. This should not be used in practice. It
/// serves as a reference point for more advanced chunking algorithms.
#[derive(Debug)]
pub struct SimpleChunker {
    /// How large each chunk should be.
    pub chunk_size: u32,
}

impl Default for SimpleChunker {
    fn default() -> (r: Self)
        ensures
            r.chunk_size == 0,
    {
        SimpleChunker { chunk_size: 0 }
    }
}

/// Builder for [`SimpleChunker`]: `chunk_size` is required.
#[derive(Debug)]
pub struct SimpleChunkerBuilder {
    pub chunk_size: Option<u32>,
}

impl Default for SimpleChunkerBuilder {
    fn default() -> (r: Self)
        ensures
            r.chunk_size is None,
    {
        SimpleChunkerBuilder { chunk_size: None }
    }
}

impl SimpleChunkerBuilder {
    pub fn chunk_size(self, value: u32) -> (r: Self)
        ensures
            r.chunk_size == Some(value),
    {
        SimpleChunkerBuilder { chunk_size: Some(value) }
    }

    pub fn build(self) -> (r: Result<SimpleChunker, Error>)
        ensures
            match self.chunk_size {
                Some(cs) => r matches Ok(c) && c.chunk_size == cs,
                None => r matches Err(e) && e matches Error::UninitializedField(f) && f@
                    == "chunk_size"@,
            },
    {
        match self.chunk_size {
            None => Err(Error::UninitializedField("chunk_size")),
            Some(chunk_size) => Ok(SimpleChunker { chunk_size }),
        }
    }
}

impl SimpleChunker {
    /// Splits `input` into consecutive chunks of at most `chunk_size` bytes,
    /// cutting only on character boundaries; locations are offsets into
    /// `input` itself.
    pub fn chunk<'a>(&self, input: &'a str) -> (r: Result<Vec<SimpleChunk<'a>>, Error>)
        ensures
            if self.chunk_size == 0 {
                r == Err::<Vec<SimpleChunk<'a>>, Error>(Error::InvalidChunkSize(0))
            } else {
                r matches Ok(chunks) && simple_chunks_match_cuts(
                    chunks@,
                    input.spec_bytes(),
                    simple_cuts(input.spec_bytes(), self.chunk_size as int, 0),
                    0,
                )
            },
    {
        if self.chunk_size == 0 {
            return Err(Error::InvalidChunkSize(self.chunk_size));
        }
        let chunk_size = self.chunk_size as usize;
        let ghost b = input.spec_bytes();
        let ghost size = chunk_size as int;
        let ghost cuts = simple_cuts(b, size, 0);
        proof {
            encode_utf8_valid_utf8(input@);
            is_char_boundary_start_end_of_seq(b);
            lemma_simple_cuts_wf(b, size, 0);
            lemma_wf_cuts_bounds(cuts, 0, b.len() as int);
        }
        let cut_points = fixed_cut_points(input, chunk_size);
        let mut chunks: Vec<SimpleChunk<'a>> = Vec::new();
        let mut i: usize = 0;
        while i < cut_points.len()
            invariant
                b == input.spec_bytes(),
                cuts == simple_cuts(b, size, 0),
                cuts_view(cut_points@) == cuts,
                cuts_on_boundaries(b, cuts),
                forall|k: int| 0 <= k < cuts.len() ==> 0 <= (#[trigger] cuts[k]).0 < cuts[k].1 <= b.len(),
                i <= cut_points@.len(),
                chunks@.len() == i,
                forall|k: int|
                    0 <= k < i ==> #[trigger] simple_chunk_matches_cut(chunks@[k], b, cuts[k], 0),
            decreases cut_points@.len() - i,
        {
            let (s, e) = cut_points[i];
            proof {
                assert(cuts[i as int] == (s as int, e as int));
            }
            let content = substr(input, s, e);
            chunks.push(SimpleChunk { content, loc: Loc { start: s, end: e }, tags: Vec::new() });
            i = i + 1;
        }
        Ok(chunks)
    }
}

} // verus!
