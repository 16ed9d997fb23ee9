use crate::error::Error;
use crate::loc::Loc;
use crate::tag::Tag;
use vstd::prelude::*;
use vstd::string::StringSliceAdditionalSpecFns;

pub mod markdown;
pub mod recursive;
pub mod simple;
pub mod string;

verus! {

/// An algorithm that turns one input into an ordered sequence of chunks.
pub trait Chunker<'a> {
    type Input;

    /// What the chunker demands of its input.
    spec fn chunk_requires(&self, input: Self::Input) -> bool;

    /// What the chunker returns for the given input.
    spec fn chunk_ensures(&self, input: Self::Input, r: Result<Vec<Chunk<'a>>, Error>) -> bool;

    fn chunk(&self, input: Self::Input) -> (r: Result<Vec<Chunk<'a>>, Error>)
        requires
            self.chunk_requires(input),
        ensures
            self.chunk_ensures(input, r),
    ;
}

/// A splitter's output unit: a text slice together with its location in the
/// original source, plus optional tags.
#[derive(Clone, Debug, PartialEq)]
pub enum Chunk<'a> {
    Simple(SimpleChunk<'a>),
}

impl<'a> Chunk<'a> {
    pub open spec fn spec_content(&self) -> &'a str {
        match self {
            Chunk::Simple(simple) => simple.content,
        }
    }

    pub open spec fn spec_loc(&self) -> Loc {
        match self {
            Chunk::Simple(simple) => simple.loc,
        }
    }

    pub open spec fn spec_tags(&self) -> Seq<Tag<'a>> {
        match self {
            Chunk::Simple(simple) => simple.tags@,
        }
    }

    pub fn content(&'a self) -> (r: &'a str)
        ensures
            r == self.spec_content(),
    {
        match self {
            Chunk::Simple(simple) => simple.content,
        }
    }

    pub fn loc(&'a self) -> (r: &'a Loc)
        ensures
            *r == self.spec_loc(),
    {
        match self {
            Chunk::Simple(simple) => &simple.loc,
        }
    }
}

/// The single chunk shape emitted by the splitters in this crate. The tags
/// are an association list from key to tag; the base splitters leave it
/// empty.
#[derive(Clone, Debug, PartialEq)]
pub struct SimpleChunk<'a> {
    pub content: &'a str,
    pub loc: Loc,
    pub tags: Vec<Tag<'a>>,
}

impl<'a> SimpleChunk<'a> {
    pub fn as_chunk(self) -> (r: Chunk<'a>)
        ensures
            r == Chunk::Simple(self),
    {
        Chunk::Simple(self)
    }
}

/// The chunk `c` is the piece of the source bytes `b` described by `cut`,
/// with its location shifted by `off` and no tags attached.
pub open spec fn simple_chunk_matches_cut<'a>(
    c: SimpleChunk<'a>,
    b: Seq<u8>,
    cut: (int, int),
    off: int,
) -> bool {
    &&& c.loc.start == cut.0 + off
    &&& c.loc.end == cut.1 + off
    &&& c.content.spec_bytes() == b.subrange(cut.0, cut.1)
    &&& c.tags@.len() == 0
}

pub open spec fn chunk_matches_cut<'a>(c: Chunk<'a>, b: Seq<u8>, cut: (int, int), off: int) -> bool {
    match c {
        Chunk::Simple(simple) => simple_chunk_matches_cut(simple, b, cut, off),
    }
}

/// The chunk list realises the cut list over the source bytes `b`, location
/// offsets shifted by `off`.
pub open spec fn chunks_match_cuts<'a>(
    chunks: Seq<Chunk<'a>>,
    b: Seq<u8>,
    cuts: Seq<(int, int)>,
    off: int,
) -> bool {
    &&& chunks.len() == cuts.len()
    &&& forall|i: int|
        0 <= i < cuts.len() ==> #[trigger] chunk_matches_cut(chunks[i], b, cuts[i], off)
}

pub open spec fn simple_chunks_match_cuts<'a>(
    chunks: Seq<SimpleChunk<'a>>,
    b: Seq<u8>,
    cuts: Seq<(int, int)>,
    off: int,
) -> bool {
    &&& chunks.len() == cuts.len()
    &&& forall|i: int|
        0 <= i < cuts.len() ==> #[trigger] simple_chunk_matches_cut(chunks[i], b, cuts[i], off)
}

} // verus!
