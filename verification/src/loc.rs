use vstd::prelude::*;

verus! {

/// The location in a corresponding string. Inclusive of `start`, exclusive of
/// `end`. Offsets are byte offsets into the original, unmodified source text.
#[derive(Clone, Debug, PartialEq, Eq, Structural)]
pub struct Loc {
    pub start: usize,
    pub end: usize,
}

impl Loc {
    pub fn as_tuple(&self) -> (r: (usize, usize))
        ensures
            r == (self.start, self.end),
    {
        (self.start, self.end)
    }
}

} // verus!
