use ai::document::TextDocument;
use ai::error::Error;
use ai::loc::Loc;
use ai::process::splitter::SimpleSplitterBuilder;
use ai::tag::Tag;
use ai::traits::{IdentityProcessor, Pipeline, Processor};

pub struct ToLowercase;

impl<'a> Processor<&'a str, String> for ToLowercase {
    fn process(&self, input: &'a str) -> Result<String, Error> {
        Ok(input.to_ascii_lowercase())
    }
}

pub struct Trimmer;

impl<'a> Processor<&'a str, &'a str> for Trimmer {
    fn process(&self, input: &'a str) -> Result<&'a str, Error> {
        Ok(input.trim())
    }
}

pub struct FailingStage;

impl<'a> Processor<&'a str, &'a str> for FailingStage {
    fn process(&self, _input: &'a str) -> Result<&'a str, Error> {
        Err(Error::UninitializedField("stage"))
    }
}

#[test]
fn basic_pipeline() {
    let pipeline = Pipeline::new(Trimmer).chain(ToLowercase);
    let x = pipeline.process(" Hello, World! ").unwrap();
    assert_eq!(x, "hello, world!")
}

#[test]
fn basic_splitting() {
    let doc = TextDocument::new("hello world");

    let splitter = SimpleSplitterBuilder::default()
        .chunk_size(5_u32)
        .build()
        .unwrap();

    let pipeline = Pipeline::new(splitter);

    let elements = pipeline.run(doc).unwrap();
    let strings = elements.iter().map(|el| el.content()).collect::<Vec<_>>();

    assert_eq!(strings, vec!["hello", " worl", "d"])
}

#[test]
fn pipeline_single_stage() {
    // A pipeline with no chained stages behaves exactly as its single
    // processor.
    let alone = Trimmer.process(" x ").unwrap();
    let piped = Pipeline::new(Trimmer).process(" x ").unwrap();
    assert_eq!(alone, piped);
}

#[test]
fn pipeline_short_circuit() {
    // The middle stage fails: the pipeline returns exactly that failure,
    // and the final stage's transformation is never applied — the result
    // equals that of the pipeline without the final stage.
    let with_last = Pipeline::new(Trimmer).chain(FailingStage).chain(ToLowercase);
    let without_last = Pipeline::new(Trimmer).chain(FailingStage);

    let r1 = with_last.process(" Hello ");
    assert!(matches!(r1, Err(Error::UninitializedField("stage"))));
    let r2 = without_last.process(" Hello ");
    assert!(matches!(r2, Err(Error::UninitializedField("stage"))));
}

#[test]
fn identity_processor() {
    let r: Result<u32, Error> = IdentityProcessor.process(7u32);
    assert_eq!(r.unwrap(), 7);
}

#[test]
fn closure_processor() {
    // A plain fallible function is a processor.
    let double = |x: u64| -> Result<u64, Error> { Ok(x * 2) };
    assert_eq!(double.process(21).unwrap(), 42);
    assert_eq!(double.run(5).unwrap(), 10);
}

#[test]
fn processor_run_propagates_errors() {
    let r = FailingStage.run("anything");
    assert!(matches!(r, Err(Error::UninitializedField("stage"))));
    let handed_on: Result<&str, Error> =
        FailingStage.on_err(Error::InvalidChunkSize(0));
    assert!(matches!(handed_on, Err(Error::InvalidChunkSize(0))));
}

#[test]
fn splitter_zero_chunk_size() {
    let splitter = SimpleSplitterBuilder::default()
        .chunk_size(0_u32)
        .build()
        .unwrap();
    let r = splitter.process("test");
    assert!(matches!(r, Err(Error::InvalidChunkSize(0))));
}

#[test]
fn splitter_loc_offset() {
    let splitter = SimpleSplitterBuilder::default()
        .chunk_size(5_u32)
        .loc_offset(10usize)
        .build()
        .unwrap();
    let elements = splitter.process("hello world").unwrap();
    let locs = elements
        .iter()
        .map(|el| el.loc().as_tuple())
        .collect::<Vec<_>>();
    assert_eq!(locs, vec![(10, 15), (15, 20), (20, 21)]);
}

#[test]
fn document_into_str() {
    let doc = TextDocument::new("hello");
    let s: &str = doc.into();
    assert_eq!(s, "hello");
}

#[test]
fn tag_fields() {
    let tag = Tag {
        key: "h1",
        value: "Title",
        loc: Loc { start: 0, end: 7 },
    };
    assert_eq!(tag.key, "h1");
    assert_eq!(tag.value, "Title");
    assert_eq!(tag.loc.as_tuple(), (0, 7));
}
