//! A text-segmentation library: byte-safe fixed-size and recursive
//! separator-driven splitters that cut only on character boundaries and
//! keep exact source offsets, plus a typed, short-circuiting processor
//! pipeline. Every splitter's output is specified against the UTF-8 byte
//! view of its input (see [`text`]).

pub mod chunk;
pub mod document;
pub mod element;
pub mod error;
pub mod loc;
pub mod process;
pub mod tag;
pub mod text;
pub mod traits;
