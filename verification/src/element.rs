use crate::loc::Loc;
use crate::tag::Tag;
use vstd::prelude::*;
use vstd::string::StringSliceAdditionalSpecFns;

verus! {

/// A processor's output unit: a text slice together with its location in
/// the original source, plus optional tags.
#[derive(Clone, Debug, PartialEq)]
pub enum Element<'a> {
    Simple(SimpleElement<'a>),
}

/// The single element shape emitted by the splitters in this crate.
#[derive(Clone, Debug, PartialEq)]
pub struct SimpleElement<'a> {
    pub content: &'a str,
    pub loc: Loc,
    pub tags: Vec<Tag<'a>>,
}

impl<'a> Element<'a> {
    pub open spec fn spec_content(&self) -> &'a str {
        match self {
            Element::Simple(simple) => simple.content,
        }
    }

    pub open spec fn spec_loc(&self) -> Loc {
        match self {
            Element::Simple(simple) => simple.loc,
        }
    }

    pub open spec fn spec_tags(&self) -> Seq<Tag<'a>> {
        match self {
            Element::Simple(simple) => simple.tags@,
        }
    }

    pub fn content(&'a self) -> (r: &'a str)
        ensures
            r == self.spec_content(),
    {
        match self {
            Element::Simple(simple) => simple.content,
        }
    }

    pub fn loc(&'a self) -> (r: &'a Loc)
        ensures
            *r == self.spec_loc(),
    {
        match self {
            Element::Simple(simple) => &simple.loc,
        }
    }
}

/// The element `e` is the piece of the source bytes `b` described by `cut`,
/// with its location shifted by `off` and no tags attached.
pub open spec fn element_matches_cut<'a>(
    e: Element<'a>,
    b: Seq<u8>,
    cut: (int, int),
    off: int,
) -> bool {
    &&& e.spec_loc().start == cut.0 + off
    &&& e.spec_loc().end == cut.1 + off
    &&& e.spec_content().spec_bytes() == b.subrange(cut.0, cut.1)
    &&& e.spec_tags().len() == 0
}

/// The element list realises the cut list over the source bytes `b`,
/// location offsets shifted by `off`.
pub open spec fn elements_match_cuts<'a>(
    els: Seq<Element<'a>>,
    b: Seq<u8>,
    cuts: Seq<(int, int)>,
    off: int,
) -> bool {
    &&& els.len() == cuts.len()
    &&& forall|i: int|
        0 <= i < cuts.len() ==> #[trigger] element_matches_cut(els[i], b, cuts[i], off)
}

} // verus!
