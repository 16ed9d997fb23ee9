use vstd::prelude::*;

verus! {

/// The failures this crate reports. Every fallible operation returns one of
/// these as an explicit `Result` value.
#[derive(Clone, Debug, PartialEq)]
pub enum Error {
    /// A splitter was configured with a chunk size of zero.
    InvalidChunkSize(u32),
    /// A required builder field was not supplied before `build`.
    UninitializedField(&'static str),
}

} // verus!
