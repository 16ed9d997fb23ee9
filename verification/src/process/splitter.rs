use crate::element::{element_matches_cut, elements_match_cuts, Element, SimpleElement};
use crate::error::Error;
use crate::loc::Loc;
use crate::text::{cuts_on_boundaries, cuts_view, fixed_cut_points, simple_cuts, substr};
use crate::text::{lemma_simple_cuts_wf, lemma_wf_cuts_bounds};
use crate::traits::Processor;
use vstd::prelude::*;
use vstd::string::StringSliceAdditionalSpecFns;
use vstd::utf8::{encode_utf8_valid_utf8, is_char_boundary_start_end_of_seq};

verus! {

/// Simple splitting processor. Splits a string along character boundaries
/// according to the `chunk_size`, emitting elements. This should not be
/// used on its own. It serves as a building block for more advanced
/// processors.
#[derive(Debug)]
pub struct SimpleSplitter {
    /// How large each chunk should be.
    pub chunk_size: u32,
    /// An offset to use when generating element `Loc`s. Useful when this
    /// splitter is used within other splitter implementations.
    pub loc_offset: usize,
}

impl Default for SimpleSplitter {
    fn default() -> (r: Self)
        ensures
            r.chunk_size == 0,
            r.loc_offset == 0,
    {
        SimpleSplitter { chunk_size: 0, loc_offset: 0 }
    }
}

/// Builder for [`SimpleSplitter`]: `chunk_size` is required, `loc_offset`
/// defaults to zero.
#[derive(Debug)]
pub struct SimpleSplitterBuilder {
    pub chunk_size: Option<u32>,
    pub loc_offset: Option<usize>,
}

impl Default for SimpleSplitterBuilder {
    fn default() -> (r: Self)
        ensures
            r.chunk_size is None,
            r.loc_offset is None,
    {
        SimpleSplitterBuilder { chunk_size: None, loc_offset: None }
    }
}

impl SimpleSplitterBuilder {
    pub fn chunk_size(self, value: u32) -> (r: Self)
        ensures
            r.chunk_size == Some(value),
            r.loc_offset == self.loc_offset,
    {
        SimpleSplitterBuilder { chunk_size: Some(value), ..self }
    }

    pub fn loc_offset(self, value: usize) -> (r: Self)
        ensures
            r.loc_offset == Some(value),
            r.chunk_size == self.chunk_size,
    {
        SimpleSplitterBuilder { loc_offset: Some(value), ..self }
    }

    pub fn build(self) -> (r: Result<SimpleSplitter, Error>)
        ensures
            match self.chunk_size {
                Some(cs) => r matches Ok(c) && c.chunk_size == cs && c.loc_offset == (
                match self.loc_offset {
                    Some(o) => o,
                    None => 0,
                }),
                None => r matches Err(e) && e matches Error::UninitializedField(f) && f@
                    == "chunk_size"@,
            },
    {
        match self.chunk_size {
            None => Err(Error::UninitializedField("chunk_size")),
            Some(chunk_size) => {
                let loc_offset = match self.loc_offset {
                    Some(o) => o,
                    None => 0,
                };
                Ok(SimpleSplitter { chunk_size, loc_offset })
            },
        }
    }
}

impl<'a> Processor<&'a str, Vec<Element<'a>>> for SimpleSplitter {
    open spec fn process_requires(&self, input: &'a str) -> bool {
        self.loc_offset + input.spec_bytes().len() <= usize::MAX
    }

    open spec fn process_ensures(
        &self,
        input: &'a str,
        output: Result<Vec<Element<'a>>, Error>,
    ) -> bool {
        if self.chunk_size == 0 {
            output == Err::<Vec<Element<'a>>, Error>(Error::InvalidChunkSize(0))
        } else {
            output matches Ok(els) && elements_match_cuts(
                els@,
                input.spec_bytes(),
                simple_cuts(input.spec_bytes(), self.chunk_size as int, 0),
                self.loc_offset as int,
            )
        }
    }

    fn process(&self, input: &'a str) -> (output: Result<Vec<Element<'a>>, Error>) {
        if self.chunk_size == 0 {
            return Err(Error::InvalidChunkSize(self.chunk_size));
        }
        let chunk_size = self.chunk_size as usize;
        let ghost b = input.spec_bytes();
        let ghost size = chunk_size as int;
        let ghost cuts = simple_cuts(b, size, 0);
        let ghost off = self.loc_offset as int;
        proof {
            encode_utf8_valid_utf8(input@);
            is_char_boundary_start_end_of_seq(b);
            lemma_simple_cuts_wf(b, size, 0);
            lemma_wf_cuts_bounds(cuts, 0, b.len() as int);
        }
        let cut_points = fixed_cut_points(input, chunk_size);
        let mut els: Vec<Element<'a>> = Vec::new();
        let mut i: usize = 0;
        while i < cut_points.len()
            invariant
                b == input.spec_bytes(),
                cuts == simple_cuts(b, size, 0),
                off == self.loc_offset as int,
                self.loc_offset + b.len() <= usize::MAX,
                cuts_view(cut_points@) == cuts,
                cuts_on_boundaries(b, cuts),
                forall|k: int| 0 <= k < cuts.len() ==> 0 <= (#[trigger] cuts[k]).0 < cuts[k].1 <= b.len(),
                i <= cut_points@.len(),
                els@.len() == i,
                forall|k: int|
                    0 <= k < i ==> #[trigger] element_matches_cut(els@[k], b, cuts[k], off),
            decreases cut_points@.len() - i,
        {
            let (s, e) = cut_points[i];
            proof {
                assert(cuts[i as int] == (s as int, e as int));
            }
            let content = substr(input, s, e);
            els.push(
                Element::Simple(
                    SimpleElement {
                        content,
                        loc: Loc { start: s + self.loc_offset, end: e + self.loc_offset },
                        tags: Vec::new(),
                    },
                ),
            );
            i = i + 1;
        }
        Ok(els)
    }
}

} // verus!
