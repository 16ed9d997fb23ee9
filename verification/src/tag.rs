use crate::loc::Loc;
use vstd::prelude::*;

verus! {

/// A key/value annotation anchored to a byte range of the source text.
#[derive(Clone, Debug, PartialEq)]
pub struct Tag<'a> {
    pub key: &'a str,
    pub value: &'a str,
    pub loc: Loc,
}

} // verus!
