//! The input text: a seed list followed by blocks of mapping lines.
//!
//! ```text
//! seeds: 79 14 55 13
//!
//! seed-to-soil map:
//! 50 98 2
//! 52 50 48
//! ```
//!
//! The first line that is not blank is `seeds:` followed by integers. A line
//! whose last word ends in `map:` closes the block before it, and every other
//! line is `destination-start source-start length` and adds one mapping to
//! the block that is open.

use crate::mapping::{IntervalMapping, MappingView};
use crate::pipeline::{Pipeline, Stages};
use crate::range::Interval;
use crate::seeds::{expand_ranges, expandable, expanded, expansion_error, seed_intervals};
use crate::seeds::{InvalidInputError, SeedRange};
use crate::table::{conflicts, table_views, IntervalTable, OverlappingRangeError};
use crate::text::{lines_of, numbers_of, parse_numbers, rows, split_lines, split_tokens, tokens_of};
use vstd::prelude::*;

verus! {

/// Why a text is not a valid input.
#[derive(Clone, Copy, Debug, PartialEq, Eq)]
pub enum ParseError {
    /// The first line that is not blank is not a `seeds:` line, or there is
    /// no such line at all.
    MissingSeedHeader,
    /// A second `seeds:` line.
    UnexpectedSeedHeader,
    /// A word that should be an integer is not one, or does not fit `i64`.
    MalformedNumber,
    /// A mapping line that does not have exactly three words.
    MalformedLine,
    /// A mapping with a negative length or with an end beyond `i64`.
    InvalidMapping,
    /// The seed list cannot be read as `(start, length)` pairs.
    InvalidInput(InvalidInputError),
}

/// Why reading the input failed.
#[derive(Clone, Copy, Debug, PartialEq, Eq)]
pub enum InputError {
    /// The text does not follow the format.
    Parse(ParseError),
    /// Two mappings of one block have intersecting source ranges.
    Overlap(OverlappingRangeError),
}

/// What a line is, judged by its words.
#[derive(Clone, Copy, Debug, PartialEq, Eq)]
pub enum LineKind {
    /// No word at all.
    Blank,
    /// The first word is `seeds:`.
    Seeds,
    /// The last word ends in `map:`.
    Header,
    /// Anything else: taken for a mapping.
    Mapping,
}

/// The bytes of `seeds:`.
pub open spec fn seeds_label() -> Seq<u8> {
    seq![115u8, 101u8, 101u8, 100u8, 115u8, 58u8]
}

/// The bytes of `map:`.
pub open spec fn map_suffix() -> Seq<u8> {
    seq![109u8, 97u8, 112u8, 58u8]
}

/// The word ends in `map:`.
pub open spec fn ends_in_map(word: Seq<u8>) -> bool {
    word.len() >= 4 && word.skip(word.len() - 4) == map_suffix()
}

pub open spec fn line_kind(words: Seq<Seq<u8>>) -> LineKind {
    if words.len() == 0 {
        LineKind::Blank
    } else if words[0] == seeds_label() {
        LineKind::Seeds
    } else if ends_in_map(words.last()) {
        LineKind::Header
    } else {
        LineKind::Mapping
    }
}

/// The three numbers of a mapping line describe a mapping.
pub open spec fn mapping_parts_ok(dest_start: int, src_start: int, len: int) -> bool {
    0 <= len && src_start + len <= i64::MAX && dest_start + len <= i64::MAX
}

/// The mapping that a mapping line stands for.
pub open spec fn mapping_of(words: Seq<Seq<u8>>) -> Result<MappingView, ParseError> {
    if words.len() != 3 {
        Err(ParseError::MalformedLine)
    } else {
        match numbers_of(words) {
            None => Err(ParseError::MalformedNumber),
            Some(v) => if mapping_parts_ok(v[0] as int, v[1] as int, v[2] as int) {
                Ok(
                    MappingView {
                        source: Interval { start: v[1] as int, end: v[1] + v[2] },
                        dest: Interval { start: v[0] as int, end: v[0] + v[2] },
                    },
                )
            } else {
                Err(ParseError::InvalidMapping)
            },
        }
    }
}

/// What has been read so far.
pub struct Progress {
    /// The seed list, once its line has been read.
    pub seeds: Option<Seq<i64>>,
    /// The blocks that are closed.
    pub done: Stages,
    /// The block that is open.
    pub current: Seq<MappingView>,
}

/// Before the first line.
pub open spec fn start() -> Progress {
    Progress { seeds: None, done: Seq::empty(), current: Seq::empty() }
}

/// A header closes the open block; an empty block leaves no stage behind.
pub open spec fn close_block(st: Progress) -> Progress {
    if st.current.len() > 0 {
        Progress { seeds: st.seeds, done: st.done.push(st.current), current: Seq::empty() }
    } else {
        st
    }
}

/// What one more line does.
pub open spec fn step(st: Progress, line: Seq<u8>) -> Result<Progress, InputError> {
    let words = tokens_of(line);
    match line_kind(words) {
        LineKind::Blank => Ok(st),
        LineKind::Seeds => if st.seeds.is_some() {
            Err(InputError::Parse(ParseError::UnexpectedSeedHeader))
        } else {
            match numbers_of(words.skip(1)) {
                Some(v) => Ok(Progress { seeds: Some(v), done: st.done, current: st.current }),
                None => Err(InputError::Parse(ParseError::MalformedNumber)),
            }
        },
        LineKind::Header => if st.seeds.is_none() {
            Err(InputError::Parse(ParseError::MissingSeedHeader))
        } else {
            Ok(close_block(st))
        },
        LineKind::Mapping => if st.seeds.is_none() {
            Err(InputError::Parse(ParseError::MissingSeedHeader))
        } else {
            match mapping_of(words) {
                Err(e) => Err(InputError::Parse(e)),
                Ok(m) => if conflicts(st.current, m) {
                    Err(InputError::Overlap(OverlappingRangeError))
                } else {
                    Ok(Progress { seeds: st.seeds, done: st.done, current: st.current.push(m) })
                },
            }
        },
    }
}

/// What the lines do, one after the other; the first failure ends it.
pub open spec fn run(lines: Seq<Seq<u8>>) -> Result<Progress, InputError>
    decreases lines.len(),
{
    if lines.len() == 0 {
        Ok(start())
    } else {
        match run(lines.drop_last()) {
            Ok(st) => step(st, lines.last()),
            Err(e) => Err(e),
        }
    }
}

/// After the last line: the open block becomes the last stage.
pub open spec fn finish(st: Progress) -> Result<(Seq<i64>, Stages), InputError> {
    match st.seeds {
        None => Err(InputError::Parse(ParseError::MissingSeedHeader)),
        Some(seeds) => Ok((seeds, st.done.push(st.current))),
    }
}

/// The seed list and the stages that a text describes.
pub open spec fn parse_text(text: Seq<u8>) -> Result<(Seq<i64>, Stages), InputError> {
    match run(lines_of(text)) {
        Ok(st) => finish(st),
        Err(e) => Err(e),
    }
}

fn is_seeds_label(word: &[u8]) -> (b: bool)
    ensures
        b == (word@ == seeds_label()),
{
    let b = word.len() == 6 && word[0] == 115 && word[1] == 101 && word[2] == 101 && word[3] == 100
        && word[4] == 115 && word[5] == 58;
    proof {
        if b {
            assert(word@ =~= seeds_label());
        }
    }
    b
}

fn has_map_suffix(word: &[u8]) -> (b: bool)
    ensures
        b == ends_in_map(word@),
{
    let n = word.len();
    if n < 4 {
        return false;
    }
    let b = word[n - 4] == 109 && word[n - 3] == 97 && word[n - 2] == 112 && word[n - 1] == 58;
    proof {
        let tail = word@.skip(n - 4);
        assert(tail.len() == 4);
        assert(tail[0] == word@[n - 4] && tail[1] == word@[n - 3] && tail[2] == word@[n - 2]
            && tail[3] == word@[n - 1]);
        if b {
            assert(tail =~= map_suffix());
        }
    }
    b
}

/// Tells what kind of line the words make.
pub fn classify(words: &Vec<Vec<u8>>) -> (kind: LineKind)
    ensures
        kind == line_kind(rows(words@)),
{
    let n = words.len();
    if n == 0 {
        return LineKind::Blank;
    }
    assert(rows(words@)[0] == words@[0]@);
    assert(rows(words@).last() == words@[n - 1]@);
    if is_seeds_label(words[0].as_slice()) {
        LineKind::Seeds
    } else if has_map_suffix(words[n - 1].as_slice()) {
        LineKind::Header
    } else {
        LineKind::Mapping
    }
}

/// Reads the words of a mapping line: destination start, source start and
/// length.
pub fn parse_mapping(words: &Vec<Vec<u8>>) -> (r: Result<IntervalMapping, ParseError>)
    ensures
        match r {
            Ok(m) => m.wf() && mapping_of(rows(words@)) == Ok::<MappingView, ParseError>(m@),
            Err(e) => mapping_of(rows(words@)) == Err::<MappingView, ParseError>(e),
        },
{
    if words.len() != 3 {
        return Err(ParseError::MalformedLine);
    }
    assert(rows(words@).skip(0) =~= rows(words@));
    let numbers = match parse_numbers(words, 0) {
        Some(v) => v,
        None => {
            return Err(ParseError::MalformedNumber);
        },
    };
    match IntervalMapping::from_parts(numbers[0], numbers[1], numbers[2]) {
        Some(m) => Ok(m),
        None => Err(ParseError::InvalidMapping),
    }
}

/// The state of reading, line by line.
struct Reader {
    seeds: Option<Vec<i64>>,
    done: Vec<IntervalTable>,
    current: IntervalTable,
}

impl Reader {
    spec fn progress(&self) -> Progress {
        Progress {
            seeds: match self.seeds {
                Some(v) => Some(v@),
                None => None,
            },
            done: table_views(self.done@),
            current: self.current@,
        }
    }

    spec fn wf(&self) -> bool {
        &&& forall|i: int| 0 <= i < self.done@.len() ==> (#[trigger] self.done@[i]).wf()
        &&& self.current.wf()
    }

    fn new() -> (r: Reader)
        ensures
            r.wf(),
            r.progress() == start(),
    {
        let r = Reader { seeds: None, done: Vec::new(), current: IntervalTable::new() };
        assert(table_views(r.done@) =~= Seq::empty());
        r
    }

    /// Takes one more line in.
    fn feed(self, line: &[u8]) -> (r: Result<Reader, InputError>)
        requires
            self.wf(),
        ensures
            match r {
                Ok(next) => next.wf() && step(self.progress(), line@) == Ok::<
                    Progress,
                    InputError,
                >(next.progress()),
                Err(e) => step(self.progress(), line@) == Err::<Progress, InputError>(e),
            },
    {
        let words = split_tokens(line);
        let mut reader = self;
        match classify(&words) {
            LineKind::Blank => Ok(reader),
            LineKind::Seeds => {
                if reader.seeds.is_some() {
                    return Err(InputError::Parse(ParseError::UnexpectedSeedHeader));
                }
                match parse_numbers(&words, 1) {
                    Some(v) => {
                        reader.seeds = Some(v);
                        Ok(reader)
                    },
                    None => Err(InputError::Parse(ParseError::MalformedNumber)),
                }
            },
            LineKind::Header => {
                if reader.seeds.is_none() {
                    return Err(InputError::Parse(ParseError::MissingSeedHeader));
                }
                if reader.current.len() > 0 {
                    let ghost done = table_views(reader.done@);
                    let ghost current = reader.current@;
                    let mut block = IntervalTable::new();
                    std::mem::swap(&mut block, &mut reader.current);
                    reader.done.push(block);
                    assert(table_views(reader.done@) =~= done.push(current));
                }
                Ok(reader)
            },
            LineKind::Mapping => {
                if reader.seeds.is_none() {
                    return Err(InputError::Parse(ParseError::MissingSeedHeader));
                }
                let m = match parse_mapping(&words) {
                    Ok(m) => m,
                    Err(e) => {
                        return Err(InputError::Parse(e));
                    },
                };
                match reader.current.insert(m) {
                    Ok(()) => Ok(reader),
                    Err(e) => Err(InputError::Overlap(e)),
                }
            },
        }
    }

    /// Ends the reading.
    fn finish(self) -> (r: Result<(Vec<i64>, Pipeline), InputError>)
        requires
            self.wf(),
        ensures
            match r {
                Ok(parsed) => parsed.1.wf() && finish(self.progress()) == Ok::<
                    (Seq<i64>, Stages),
                    InputError,
                >((parsed.0@, parsed.1@)),
                Err(e) => finish(self.progress()) == Err::<(Seq<i64>, Stages), InputError>(e),
            },
    {
        let Reader { seeds, done, current } = self;
        let seeds = match seeds {
            Some(v) => v,
            None => {
                return Err(InputError::Parse(ParseError::MissingSeedHeader));
            },
        };
        let ghost closed = table_views(done@);
        let mut stages = done;
        stages.push(current);
        assert(table_views(stages@) =~= closed.push(current@));
        Ok((seeds, Pipeline::new(stages)))
    }
}

/// Reads the whole input: the seed list and the pipeline of its blocks.
///
/// Fails at the first line that breaks the format or whose mapping
/// intersects the source range of another mapping of its block.
pub fn read_input(text: &[u8]) -> (r: Result<(Vec<i64>, Pipeline), InputError>)
    ensures
        match r {
            Ok(parsed) => parsed.1.wf() && parse_text(text@) == Ok::<
                (Seq<i64>, Stages),
                InputError,
            >((parsed.0@, parsed.1@)),
            Err(e) => parse_text(text@) == Err::<(Seq<i64>, Stages), InputError>(e),
        },
{
    let lines = split_lines(text);
    let ghost all = rows(lines@);
    let mut reader = Reader::new();
    let n = lines.len();
    let mut i: usize = 0;
    assert(all.take(0) =~= Seq::empty());
    while i < n
        invariant
            i <= n,
            n == lines@.len(),
            all == rows(lines@),
            all == lines_of(text@),
            reader.wf(),
            run(all.take(i as int)) == Ok::<Progress, InputError>(reader.progress()),
        decreases n - i,
    {
        assert(all.take(i + 1).drop_last() =~= all.take(i as int));
        assert(all.take(i + 1).last() == lines@[i as int]@);
        reader = match reader.feed(lines[i].as_slice()) {
            Ok(next) => next,
            Err(e) => {
                proof {
                    lemma_run_fails(all, i + 1);
                }
                return Err(e);
            },
        };
        i += 1;
    }
    assert(all.take(n as int) =~= all);
    reader.finish()
}

/// Once a line has failed, the lines after it change nothing.
proof fn lemma_run_fails(lines: Seq<Seq<u8>>, k: int)
    requires
        0 <= k <= lines.len(),
        run(lines.take(k)).is_err(),
    ensures
        run(lines) == run(lines.take(k)),
    decreases lines.len() - k,
{
    if k == lines.len() {
        assert(lines.take(k) =~= lines);
    } else {
        assert(lines.take(k + 1).drop_last() =~= lines.take(k));
        lemma_run_fails(lines, k + 1);
    }
}

/// Reads a seed list given as text, such as `79 14 55 13`, as
/// `(start, length)` pairs.
pub fn parse_seed_ranges(text: &[u8]) -> (r: Result<Vec<SeedRange>, ParseError>)
    ensures
        match r {
            Ok(ranges) => {
                &&& numbers_of(tokens_of(text@)) matches Some(v)
                &&& expandable(v)
                &&& seed_intervals(ranges@) == expanded(v)
                &&& forall|k: int| 0 <= k < ranges@.len() ==> (#[trigger] ranges@[k]).wf()
            },
            Err(ParseError::MalformedNumber) => numbers_of(tokens_of(text@)).is_none(),
            Err(ParseError::InvalidInput(e)) => {
                &&& numbers_of(tokens_of(text@)) matches Some(v)
                &&& expansion_error(v, e)
            },
            Err(_) => false,
        },
{
    let words = split_tokens(text);
    assert(rows(words@).skip(0) =~= rows(words@));
    let numbers = match parse_numbers(&words, 0) {
        Some(v) => v,
        None => {
            return Err(ParseError::MalformedNumber);
        },
    };
    match expand_ranges(&numbers) {
        Ok(ranges) => Ok(ranges),
        Err(e) => Err(ParseError::InvalidInput(e)),
    }
}

} // verus!
