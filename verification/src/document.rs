use crate::traits::Adapt;
use vstd::prelude::*;

verus! {

/// The unsplit input, produced by external loaders and consumed by a
/// splitter.
#[derive(Clone, Debug, PartialEq)]
pub enum Document<'a> {
    Text(TextDocument<'a>),
}

/// A document wrapping a borrowed string.
#[derive(Clone, Debug, PartialEq)]
pub struct TextDocument<'a> {
    pub content: &'a str,
}

impl<'a> TextDocument<'a> {
    pub fn new(content: &'a str) -> (r: Self)
        ensures
            r.content == content,
    {
        TextDocument { content }
    }
}

impl<'a> From<TextDocument<'a>> for &'a str {
    fn from(val: TextDocument<'a>) -> (r: &'a str) {
        val.content
    }
}

impl<'a> vstd::std_specs::convert::FromSpecImpl<TextDocument<'a>> for &'a str {
    open spec fn obeys_from_spec() -> bool {
        true
    }

    open spec fn from_spec(v: TextDocument<'a>) -> &'a str {
        v.content
    }
}

impl<'a> Adapt<&'a str> for TextDocument<'a> {
    open spec fn adapt_spec(self) -> &'a str {
        self.content
    }

    fn adapt(self) -> (r: &'a str) {
        self.content
    }
}

} // verus!
