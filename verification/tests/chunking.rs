use ai::chunk::markdown::MarkdownChunkerBuilder;
use ai::chunk::recursive::RecursiveChunkerBuilder;
use ai::chunk::simple::SimpleChunkerBuilder;
use ai::chunk::string::SimpleChunkerBuilder as StringChunkerBuilder;
use ai::chunk::{Chunk, Chunker, SimpleChunk};
use ai::error::Error;
use ai::loc::Loc;

#[test]
fn simple_basic() {
    let chunker = SimpleChunkerBuilder::default()
        .chunk_size(5u32)
        .build()
        .unwrap();

    // Indices:                 01234567890123
    let chunks = chunker.chunk("this is a test").unwrap();
    let content = chunks.iter().map(|c| c.content()).collect::<Vec<_>>();
    assert_eq!(vec!["this ", "is a ", "test"], content);

    let locs = chunks
        .iter()
        .map(|c| c.loc().as_tuple())
        .collect::<Vec<_>>();
    assert_eq!(vec![(0, 5), (5, 10), (10, 14)], locs);
}

#[test]
fn simple_chunk_size_0() {
    let chunker = SimpleChunkerBuilder::default()
        .chunk_size(0u32)
        .build()
        .unwrap();

    let chunks = chunker.chunk("test");
    assert!(chunks.is_err());
}

#[test]
fn simple_chunk_size_1() {
    let chunker = SimpleChunkerBuilder::default()
        .chunk_size(1u32)
        .build()
        .unwrap();

    let chunks = chunker.chunk("test").unwrap();
    let content = chunks.iter().map(|c| c.content()).collect::<Vec<_>>();
    assert_eq!(vec!["t", "e", "s", "t"], content);
}

#[test]
fn string_basic() {
    let chunker = StringChunkerBuilder::default()
        .chunk_size(5u32)
        .build()
        .unwrap();

    let chunks = chunker.chunk("this is a test").unwrap();
    let content = chunks.iter().map(|c| c.content).collect::<Vec<_>>();
    assert_eq!(vec!["this ", "is a ", "test"], content)
}

#[test]
fn string_chunk_size_0() {
    let chunker = StringChunkerBuilder::default()
        .chunk_size(0u32)
        .build()
        .unwrap();

    let chunks = chunker.chunk("test");
    assert!(chunks.is_err());
}

#[test]
fn string_chunk_size_1() {
    let chunker = StringChunkerBuilder::default()
        .chunk_size(1u32)
        .build()
        .unwrap();

    let chunks = chunker.chunk("test").unwrap();
    let content = chunks.iter().map(|c| c.content).collect::<Vec<_>>();
    assert_eq!(vec!["t", "e", "s", "t"], content)
}

#[test]
fn recursive_basic() {
    let chunker = RecursiveChunkerBuilder::default()
        .chunk_size(5u32)
        .separators(vec![" "])
        .build()
        .unwrap();

    let chunks = chunker.chunk("this is a test").unwrap();
    let content = chunks.iter().map(|c| c.content()).collect::<Vec<_>>();
    assert_eq!(vec!["this", "is", "a", "test"], content);
}

#[test]
fn recursive_needs_simple() {
    let chunker = RecursiveChunkerBuilder::default()
        .chunk_size(3u32)
        .separators(vec![" "])
        .build()
        .unwrap();

    let chunks = chunker.chunk("this is a test").unwrap();
    let content = chunks.iter().map(|c| c.content()).collect::<Vec<_>>();
    assert_eq!(vec!["thi", "s", "is", "a", "tes", "t"], content);
}

#[test]
fn recursive_multi_sep() {
    let chunker = RecursiveChunkerBuilder::default()
        .chunk_size(3u32)
        .separators(vec!["  ", " "])
        .build()
        .unwrap();

    // Indices:                 01234567890123456
    let chunks = chunker.chunk("000 111  222  333").unwrap();
    let content = chunks.iter().map(|c| c.content()).collect::<Vec<_>>();
    assert_eq!(vec!["000", "111", "222", "333"], content);

    let locs = chunks
        .iter()
        .map(|c| c.loc().as_tuple())
        .collect::<Vec<_>>();
    assert_eq!(vec![(0, 3), (4, 7), (9, 12), (14, 17)], locs);
}

#[test]
fn _markdown_basic() {
    let chunker = RecursiveChunkerBuilder::default()
        .chunk_size(5u32)
        .separators(vec![" "])
        .build()
        .unwrap();

    let chunks = chunker.chunk("this is a test").unwrap();
    let content = chunks.iter().map(|c| c.content()).collect::<Vec<_>>();
    assert_eq!(vec!["this", "is", "a", "test"], content);
}

#[test]
fn _markdown_needs_simple() {
    let chunker = RecursiveChunkerBuilder::default()
        .chunk_size(3u32)
        .separators(vec![" "])
        .build()
        .unwrap();

    let chunks = chunker.chunk("this is a test").unwrap();
    let content = chunks.iter().map(|c| c.content()).collect::<Vec<_>>();
    assert_eq!(vec!["thi", "s", "is", "a", "tes", "t"], content);
}

#[test]
fn _markdown_multi_sep() {
    let chunker = RecursiveChunkerBuilder::default()
        .chunk_size(3u32)
        .separators(vec!["  ", " "])
        .build()
        .unwrap();

    // Indices:                 01234567890123456
    let chunks = chunker.chunk("000 111  222  333").unwrap();
    let content = chunks.iter().map(|c| c.content()).collect::<Vec<_>>();
    assert_eq!(vec!["000", "111", "222", "333"], content);

    let locs = chunks
        .iter()
        .map(|c| c.loc().as_tuple())
        .collect::<Vec<_>>();
    assert_eq!(vec![(0, 3), (4, 7), (9, 12), (14, 17)], locs);
}

#[test]
fn multi_sep_2() {
    let chunker = RecursiveChunkerBuilder::default()
        .chunk_size(10u32)
        .separators(vec!["  ", " "])
        .build()
        .unwrap();

    let chunks = chunker.chunk("000 111  222  333").unwrap();
    let content = chunks.iter().map(|c| c.content()).collect::<Vec<_>>();
    assert_eq!(vec!["000 111", "222", "333"], content);
}

#[test]
fn boundary_safety_multibyte() {
    // A two-byte character sits across the nominal two-byte stride: the cut
    // is snapped forward, never into the middle of the character.
    let chunker = SimpleChunkerBuilder::default()
        .chunk_size(2u32)
        .build()
        .unwrap();

    let source = "a\u{e9}b";
    assert_eq!(source.len(), 4);
    let chunks = chunker.chunk(source).unwrap();
    let content = chunks.iter().map(|c| c.content()).collect::<Vec<_>>();
    assert_eq!(vec!["a\u{e9}", "b"], content);
    let locs = chunks
        .iter()
        .map(|c| c.loc().as_tuple())
        .collect::<Vec<_>>();
    assert_eq!(vec![(0, 3), (3, 4)], locs);

    let recursive = RecursiveChunkerBuilder::default()
        .chunk_size(2u32)
        .separators(vec![" "])
        .build()
        .unwrap();
    let chunks = recursive.chunk("a\u{e9} b\u{e9}").unwrap();
    for c in &chunks {
        assert!(c.content().chars().count() > 0);
    }
    let content = chunks.iter().map(|c| c.content()).collect::<Vec<_>>();
    assert_eq!(vec!["a\u{e9}", "b\u{e9}"], content);
}

#[test]
fn coverage_reconstruction() {
    // Concatenating the chunks' contents with the gap text recovered from
    // consecutive locations rebuilds the original input exactly.
    let source = "000 111  222  333";
    let chunker = RecursiveChunkerBuilder::default()
        .chunk_size(3u32)
        .separators(vec!["  ", " "])
        .build()
        .unwrap();

    let chunks = chunker.chunk(source).unwrap();
    let mut rebuilt = String::new();
    let mut pos = 0;
    for c in &chunks {
        let (start, end) = c.loc().as_tuple();
        rebuilt.push_str(&source[pos..start]);
        rebuilt.push_str(c.content());
        pos = end;
    }
    rebuilt.push_str(&source[pos..]);
    assert_eq!(source, rebuilt);
}

#[test]
fn offset_correctness_nested() {
    // Even chunks produced by the fixed-size fallback slice the original,
    // top-level input at their recorded offsets.
    let source = "this is a test";
    let chunker = RecursiveChunkerBuilder::default()
        .chunk_size(3u32)
        .separators(vec![" "])
        .build()
        .unwrap();

    let chunks = chunker.chunk(source).unwrap();
    assert!(chunks.len() > 0);
    for c in &chunks {
        let (start, end) = c.loc().as_tuple();
        assert_eq!(c.content(), &source[start..end]);
    }
}

#[test]
fn zero_size_rejected_everywhere() {
    let simple = SimpleChunkerBuilder::default()
        .chunk_size(0u32)
        .build()
        .unwrap();
    assert!(matches!(simple.chunk(""), Err(Error::InvalidChunkSize(0))));
    assert!(matches!(simple.chunk("x"), Err(Error::InvalidChunkSize(0))));

    let recursive = RecursiveChunkerBuilder::default()
        .chunk_size(0u32)
        .separators(vec![" "])
        .build()
        .unwrap();
    assert!(matches!(recursive.chunk(""), Err(Error::InvalidChunkSize(0))));
    assert!(matches!(
        recursive.chunk("x y"),
        Err(Error::InvalidChunkSize(0))
    ));

    let markdown = MarkdownChunkerBuilder::default()
        .chunk_size(0u32)
        .build()
        .unwrap();
    assert!(matches!(markdown.chunk(""), Err(Error::InvalidChunkSize(0))));
}

#[test]
fn empty_input_yields_no_chunks() {
    let simple = SimpleChunkerBuilder::default()
        .chunk_size(5u32)
        .build()
        .unwrap();
    assert_eq!(simple.chunk("").unwrap().len(), 0);

    let recursive = RecursiveChunkerBuilder::default()
        .chunk_size(5u32)
        .separators(vec![" "])
        .build()
        .unwrap();
    assert_eq!(recursive.chunk("").unwrap().len(), 0);
}

#[test]
fn idempotent_resplit() {
    // Splitting an already-minimal chunk with the same chunk size returns
    // that chunk unchanged.
    let chunker = RecursiveChunkerBuilder::default()
        .chunk_size(10u32)
        .separators(vec![" "])
        .build()
        .unwrap();

    let first = chunker.chunk("0123 4567 89").unwrap();
    for c in &first {
        let again = chunker.chunk(c.content()).unwrap();
        assert_eq!(again.len(), 1);
        assert_eq!(again[0].content(), c.content());
        assert_eq!(again[0].loc().as_tuple(), (0, c.content().len()));
    }
}

#[test]
fn builder_missing_field() {
    assert!(matches!(
        SimpleChunkerBuilder::default().build(),
        Err(Error::UninitializedField("chunk_size"))
    ));
    assert!(matches!(
        RecursiveChunkerBuilder::default().chunk_size(3u32).build(),
        Err(Error::UninitializedField("separators"))
    ));
    assert!(matches!(
        StringChunkerBuilder::default().build(),
        Err(Error::UninitializedField("chunk_size"))
    ));
}

#[test]
fn simple_chunker_loc_offset() {
    let chunker = SimpleChunkerBuilder::default()
        .chunk_size(5u32)
        .loc_offset(100usize)
        .build()
        .unwrap();

    let chunks = chunker.chunk("this is a test").unwrap();
    let locs = chunks
        .iter()
        .map(|c| c.loc().as_tuple())
        .collect::<Vec<_>>();
    assert_eq!(vec![(100, 105), (105, 110), (110, 114)], locs);
}

#[test]
fn markdown_drops_headings() {
    let chunker = MarkdownChunkerBuilder::default()
        .chunk_size(7u32)
        .build()
        .unwrap();

    // Indices:                 0123456  789012345678901
    let chunks = chunker.chunk("# Title\n\ncontent here").unwrap();
    let content = chunks.iter().map(|c| c.content()).collect::<Vec<_>>();
    assert_eq!(vec!["content", "here"], content);
    let locs = chunks
        .iter()
        .map(|c| c.loc().as_tuple())
        .collect::<Vec<_>>();
    assert_eq!(vec![(9, 16), (17, 21)], locs);
}

#[test]
fn markdown_keeps_non_headings() {
    let chunker = MarkdownChunkerBuilder::default()
        .chunk_size(40u32)
        .build()
        .unwrap();

    // Five or more marks are not a heading, nor is a lone mark.
    let chunks = chunker.chunk("#####x").unwrap();
    let content = chunks.iter().map(|c| c.content()).collect::<Vec<_>>();
    assert_eq!(vec!["#####x"], content);

    let chunks = chunker.chunk("## Sub").unwrap();
    assert_eq!(chunks.len(), 0);
}

#[test]
fn simple_chunk_as_chunk() {
    let simple = SimpleChunk {
        content: "abc",
        loc: Loc { start: 0, end: 3 },
        tags: Vec::new(),
    };
    let chunk = simple.clone().as_chunk();
    assert!(matches!(chunk, Chunk::Simple(_)));
    assert_eq!(chunk.content(), "abc");
    assert_eq!(chunk.loc().as_tuple(), (0, 3));
}
