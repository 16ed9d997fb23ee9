use super::recursive::{seps_bytes, RecursiveChunker};
use super::{chunk_matches_cut, chunks_match_cuts, Chunk, Chunker};
use crate::error::Error;
use crate::text::recursive_cuts;
use vstd::prelude::*;
use vstd::string::StringSliceAdditionalSpecFns;
use vstd::utf8::{decode_utf8, encode_utf8_decode_utf8};

verus! {

/// The content begins with exactly `level` `'#'` characters followed by a
/// character that is not `'#'`.
pub open spec fn is_heading(s: Seq<char>, level: int) -> bool {
    &&& s.len() > level
    &&& forall|j: int| 0 <= j < level ==> #[trigger] s[j] == '#'
    &&& s[level] != '#'
}

/// A markdown heading of level one to four.
pub open spec fn is_md_heading(s: Seq<char>) -> bool {
    ||| is_heading(s, 1)
    ||| is_heading(s, 2)
    ||| is_heading(s, 3)
    ||| is_heading(s, 4)
}

/// The cuts the markdown chunker keeps: those whose decoded content is not
/// a heading.
pub open spec fn kept_cuts(b: Seq<u8>, cuts: Seq<(int, int)>) -> Seq<(int, int)>
    decreases cuts.len(),
{
    if cuts.len() == 0 {
        Seq::empty()
    } else {
        let rest = kept_cuts(b, cuts.drop_first());
        if is_md_heading(decode_utf8(b.subrange(cuts[0].0, cuts[0].1))) {
            rest
        } else {
            seq![cuts[0]] + rest
        }
    }
}

/// The separators the markdown chunker splits on: paragraph break, line
/// break, space.
pub open spec fn md_separators() -> Seq<Seq<u8>> {
    seq![("\n\n").spec_bytes(), ("\n").spec_bytes(), (" ").spec_bytes()]
}

/// Relies on regex::Regex::new and regex::Regex::is_match_at: the anchored
/// pattern `^#[^#]` matches `text` at position zero exactly when the text
/// starts with one `'#'` followed by a character other than `'#'`.
#[verifier::external_body]
fn matches_heading1(text: &str) -> (r: bool)
    ensures
        r == is_heading(text@, 1),
{
    let re = regex::Regex::new(r"^#[^#]").unwrap();
    re.is_match_at(text, 0)
}

/// Relies on regex::Regex::new and regex::Regex::is_match_at: the anchored
/// pattern `^##[^#]` matches `text` at position zero exactly when the text
/// starts with two `'#'` followed by a character other than `'#'`.
#[verifier::external_body]
fn matches_heading2(text: &str) -> (r: bool)
    ensures
        r == is_heading(text@, 2),
{
    let re = regex::Regex::new(r"^##[^#]").unwrap();
    re.is_match_at(text, 0)
}

/// Relies on regex::Regex::new and regex::Regex::is_match_at: the anchored
/// pattern `^###[^#]` matches `text` at position zero exactly when the text
/// starts with three `'#'` followed by a character other than `'#'`.
#[verifier::external_body]
fn matches_heading3(text: &str) -> (r: bool)
    ensures
        r == is_heading(text@, 3),
{
    let re = regex::Regex::new(r"^###[^#]").unwrap();
    re.is_match_at(text, 0)
}

/// Relies on regex::Regex::new and regex::Regex::is_match_at: the anchored
/// pattern `^####[^#]` matches `text` at position zero exactly when the
/// text starts with four `'#'` followed by a character other than `'#'`.
#[verifier::external_body]
fn matches_heading4(text: &str) -> (r: bool)
    ensures
        r == is_heading(text@, 4),
{
    let re = regex::Regex::new(r"^####[^#]").unwrap();
    re.is_match_at(text, 0)
}

impl<'a> Chunk<'a> {
    fn is_h1(&self) -> (r: bool)
        ensures
            r == is_heading(self.spec_content()@, 1),
    {
        match self {
            Chunk::Simple(simple) => matches_heading1(simple.content),
        }
    }

    fn is_h2(&self) -> (r: bool)
        ensures
            r == is_heading(self.spec_content()@, 2),
    {
        match self {
            Chunk::Simple(simple) => matches_heading2(simple.content),
        }
    }

    fn is_h3(&self) -> (r: bool)
        ensures
            r == is_heading(self.spec_content()@, 3),
    {
        match self {
            Chunk::Simple(simple) => matches_heading3(simple.content),
        }
    }

    fn is_h4(&self) -> (r: bool)
        ensures
            r == is_heading(self.spec_content()@, 4),
    {
        match self {
            Chunk::Simple(simple) => matches_heading4(simple.content),
        }
    }
}

/// Preconfigured chunker for markdown: splits recursively on paragraph
/// breaks, line breaks and spaces, and drops heading chunks (levels one to
/// four) from the output.
#[derive(Debug)]
pub struct MarkdownChunker {
    /// How large each chunk should be.
    pub chunk_size: u32,
}

impl Default for MarkdownChunker {
    fn default() -> (r: Self)
        ensures
            r.chunk_size == 0,
    {
        MarkdownChunker { chunk_size: 0 }
    }
}

/// Builder for [`MarkdownChunker`]: `chunk_size` is required.
#[derive(Debug)]
pub struct MarkdownChunkerBuilder {
    pub chunk_size: Option<u32>,
}

impl Default for MarkdownChunkerBuilder {
    fn default() -> (r: Self)
        ensures
            r.chunk_size is None,
    {
        MarkdownChunkerBuilder { chunk_size: None }
    }
}

impl MarkdownChunkerBuilder {
    pub fn chunk_size(self, value: u32) -> (r: Self)
        ensures
            r.chunk_size == Some(value),
    {
        MarkdownChunkerBuilder { chunk_size: Some(value) }
    }

    pub fn build(self) -> (r: Result<MarkdownChunker, Error>)
        ensures
            match self.chunk_size {
                Some(cs) => r matches Ok(c) && c.chunk_size == cs,
                None => r matches Err(e) && e matches Error::UninitializedField(f) && f@
                    == "chunk_size"@,
            },
    {
        match self.chunk_size {
            None => Err(Error::UninitializedField("chunk_size")),
            Some(chunk_size) => Ok(MarkdownChunker { chunk_size }),
        }
    }
}

impl<'a> Chunker<'a> for MarkdownChunker {
    type Input = &'a str;

    open spec fn chunk_requires(&self, input: &'a str) -> bool {
        true
    }

    open spec fn chunk_ensures(&self, input: &'a str, r: Result<Vec<Chunk<'a>>, Error>) -> bool {
        if self.chunk_size == 0 {
            r == Err::<Vec<Chunk<'a>>, Error>(Error::InvalidChunkSize(0))
        } else {
            r matches Ok(chunks) && chunks_match_cuts(
                chunks@,
                input.spec_bytes(),
                kept_cuts(
                    input.spec_bytes(),
                    recursive_cuts(input.spec_bytes(), md_separators(), self.chunk_size as int),
                ),
                0,
            )
        }
    }

    fn chunk(&self, input: &'a str) -> (r: Result<Vec<Chunk<'a>>, Error>) {
        let separators: Vec<&str> = vec!["\n\n", "\n", " "];
        proof {
            reveal_strlit("\n\n");
            reveal_strlit("\n");
            reveal_strlit(" ");
            assert(separators@[0]@.len() > 0);
            assert(separators@[1]@.len() > 0);
            assert(separators@[2]@.len() > 0);
            assert(seps_bytes(separators@) =~= md_separators());
        }
        let chunker = RecursiveChunker { chunk_size: self.chunk_size, separators };
        let ghost b = input.spec_bytes();
        let ghost cuts = recursive_cuts(b, md_separators(), self.chunk_size as int);
        let full = match chunker.chunk(input) {
            Err(e) => {
                return Err(e);
            },
            Ok(full) => full,
        };
        let ghost full_view = full@;
        let mut rem = full;
        let mut result: Vec<Chunk<'a>> = Vec::new();
        let ghost mut dcuts: Seq<(int, int)> = Seq::empty();
        proof {
            assert(cuts.skip(0) =~= cuts);
            assert(Seq::<(int, int)>::empty() + kept_cuts(b, cuts) =~= kept_cuts(b, cuts));
        }
        loop
            invariant
                b == input.spec_bytes(),
                cuts == recursive_cuts(b, md_separators(), self.chunk_size as int),
                full_view.len() == cuts.len(),
                rem@.len() <= full_view.len(),
                rem@ =~= full_view.skip(full_view.len() - rem@.len()),
                chunks_match_cuts(full_view, b, cuts, 0),
                result@.len() == dcuts.len(),
                chunks_match_cuts(result@, b, dcuts, 0),
                kept_cuts(b, cuts) == dcuts + kept_cuts(
                    b,
                    cuts.skip(full_view.len() - rem@.len()),
                ),
            ensures
                rem@.len() == 0,
                chunks_match_cuts(result@, b, dcuts, 0),
                kept_cuts(b, cuts) == dcuts,
            decreases rem@.len(),
        {
            if rem.len() == 0 {
                proof {
                    assert(cuts.skip(cuts.len() as int) =~= Seq::<(int, int)>::empty());
                    assert(dcuts + Seq::<(int, int)>::empty() =~= dcuts);
                }
                break ;
            }
            let ghost idx = full_view.len() - rem@.len();
            let chunk = rem.remove(0);
            proof {
                assert(chunk == full_view[idx]);
                assert(rem@ =~= full_view.skip(idx + 1));
                assert(chunk_matches_cut(full_view[idx], b, cuts[idx], 0));
                assert(cuts.skip(idx)[0] == cuts[idx]);
                assert(cuts.skip(idx).drop_first() =~= cuts.skip(idx + 1));
                encode_utf8_decode_utf8(chunk.spec_content()@);
                assert(decode_utf8(b.subrange(cuts[idx].0, cuts[idx].1)) == chunk.spec_content()@);
            }
            if chunk.is_h1() {
            } else if chunk.is_h2() {
            } else if chunk.is_h3() {
            } else if chunk.is_h4() {
            } else {
                let ghost before = dcuts;
                result.push(chunk);
                proof {
                    dcuts = dcuts.push(cuts[idx]);
                    assert(before + (seq![cuts[idx]] + kept_cuts(b, cuts.skip(idx + 1))) =~= dcuts
                        + kept_cuts(b, cuts.skip(idx + 1)));
                }
            }
        }
        Ok(result)
    }
}

} // verus!
