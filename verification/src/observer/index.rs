//! The decisions of the run index as it tails a journal: where reading
//! resumes, how each line read is taken, which rows it keeps, when a score
//! point is recorded, and whether a source counts as fully read. The index
//! itself (the database, the files, the decoding of rows) lies outside.

use vstd::prelude::*;

use crate::observer::run::{last_segment, task_segment};
use crate::text::{str_eq, string_from_chars, to_chars};

verus! {

/// The longest journal line the index reads, in bytes.
pub const RECORD_LIMIT: usize = 33554432;

/// Where a source is read from: a plain journal resumes at the offset
/// indexed last when the file still reaches it; anything else, and an
/// archive always, is read from the start.
pub open spec fn resume_offset_spec(plain: bool, previous: Option<u64>, len: u64) -> u64 {
    if plain {
        match previous {
            Some(offset) => if offset <= len {
                offset
            } else {
                0
            },
            None => 0,
        }
    } else {
        0
    }
}

/// See [`resume_offset_spec`].
pub fn resume_offset(plain: bool, previous: Option<u64>, len: u64) -> (r: u64)
    ensures
        r == resume_offset_spec(plain, previous, len),
{
    if plain {
        match previous {
            Some(offset) => if offset <= len {
                offset
            } else {
                0
            },
            None => 0,
        }
    } else {
        0
    }
}

/// How the index takes one line it read.
#[derive(Clone, Copy, Debug, PartialEq, Eq, Structural)]
pub enum LineStep {
    /// Nothing was left to read.
    End,
    /// The line is longer than [`RECORD_LIMIT`].
    TooLarge,
    /// An archive ended inside a record.
    Incomplete,
    /// A plain journal's last line is still being written: stop before it.
    Tail,
    /// A complete line of whitespace only: counted as read and skipped.
    Blank,
    /// A complete record to decode.
    Record,
}

/// What a line of `count` bytes (read with a cap one past the limit) is.
pub open spec fn line_step_spec(count: usize, ends_with_newline: bool, plain: bool, blank: bool) -> LineStep {
    if count == 0 {
        LineStep::End
    } else if count > RECORD_LIMIT {
        LineStep::TooLarge
    } else if !ends_with_newline {
        if plain {
            LineStep::Tail
        } else {
            LineStep::Incomplete
        }
    } else if blank {
        LineStep::Blank
    } else {
        LineStep::Record
    }
}

/// The error the index stops with, for the steps that are errors.
pub open spec fn line_error(step: LineStep) -> Option<Seq<char>> {
    match step {
        LineStep::TooLarge => Some("journal record exceeds memory limit"@),
        LineStep::Incomplete => Some("incomplete archived record"@),
        _ => None,
    }
}

impl LineStep {
    /// See [`line_error`].
    pub fn error(&self) -> (r: Option<&'static str>)
        ensures
            match line_error(*self) {
                Some(t) => r is Some && r->Some_0@ == t,
                None => r is None,
            },
    {
        match self {
            LineStep::TooLarge => Some("journal record exceeds memory limit"),
            LineStep::Incomplete => Some("incomplete archived record"),
            _ => None,
        }
    }
}

/// See [`line_step_spec`]. The offset read so far moves past blank lines
/// and records, and nowhere else.
pub fn line_step(count: usize, ends_with_newline: bool, plain: bool, blank: bool, committed: u64) -> (r: (
    LineStep,
    u64,
))
    requires
        committed + count <= u64::MAX,
    ensures
        r.0 == line_step_spec(count, ends_with_newline, plain, blank),
        r.1 == if r.0 == LineStep::Blank || r.0 == LineStep::Record {
            committed + count
        } else {
            committed as int
        },
{
    let step = if count == 0 {
        LineStep::End
    } else if count > RECORD_LIMIT {
        LineStep::TooLarge
    } else if !ends_with_newline {
        if plain {
            LineStep::Tail
        } else {
            LineStep::Incomplete
        }
    } else if blank {
        LineStep::Blank
    } else {
        LineStep::Record
    };
    let next = match step {
        LineStep::Blank | LineStep::Record => committed + count as u64,
        _ => committed,
    };
    (step, next)
}

/// Whether a source is marked fully indexed: not while a plain journal's
/// incomplete tail is still unread, so that its next append resumes at the
/// last newline.
pub fn fully_indexed(plain: bool, committed: u64, len: u64) -> (r: bool)
    ensures
        r == !(plain && committed < len),
{
    !(plain && committed < len)
}

/// The first newline at or after `o`.
pub open spec fn newline_from(j: Seq<u8>, o: int) -> Option<int>
    decreases j.len() - o,
{
    if o < 0 || o >= j.len() {
        None
    } else if j[o] == 10u8 {
        Some(o)
    } else {
        newline_from(j, o + 1)
    }
}

/// The lines a pass over journal `j` from offset `o` takes, in order (see
/// [`line_step_spec`]: each complete line within [`RECORD_LIMIT`], blank or
/// a record), and the offset it commits: it stops before an unfinished
/// last line, and at a line over the limit.
pub open spec fn taken_lines(j: Seq<u8>, o: int) -> (Seq<Seq<u8>>, int)
    decreases j.len() - o,
{
    if o < 0 {
        (Seq::empty(), o)
    } else {
        match newline_from(j, o) {
            None => (Seq::empty(), o),
            Some(n) => if n < o || n >= j.len() || n + 1 - o > RECORD_LIMIT {
                (Seq::empty(), o)
            } else {
                let (rest, c) = taken_lines(j, n + 1);
                (seq![j.subrange(o, n + 1)] + rest, c)
            },
        }
    }
}

proof fn lemma_newline_prefix(j1: Seq<u8>, j2: Seq<u8>, o: int)
    requires
        j1.len() <= j2.len(),
        j1 == j2.take(j1.len() as int),
    ensures
        newline_from(j1, o) matches Some(n) ==> newline_from(j2, o) == Some(n) && o <= n < j1.len(),
    decreases j1.len() - o,
{
    if 0 <= o < j1.len() {
        assert(j1[o] == j2[o]);
        lemma_newline_prefix(j1, j2, o + 1);
    }
}

/// A journal read while it grows loses no line and takes none twice: a
/// pass over what was written so far, then a pass over the grown journal
/// from the offset the first committed, take together exactly the lines,
/// and commit exactly the offset, of one pass over the grown journal. An
/// unfinished last line is taken once it is finished.
pub proof fn law_growing_journal_is_indexed_once(j1: Seq<u8>, j2: Seq<u8>, start: int)
    requires
        0 <= start,
        j1.len() <= j2.len(),
        j1 == j2.take(j1.len() as int),
    ensures
        ({
            let (first, committed) = taken_lines(j1, start);
            let (second, end) = taken_lines(j2, committed);
            first + second == taken_lines(j2, start).0 && end == taken_lines(j2, start).1
        }),
    decreases j1.len() - start,
{
    lemma_newline_prefix(j1, j2, start);
    match newline_from(j1, start) {
        None => {
            assert(taken_lines(j1, start).0 + taken_lines(j2, start).0 =~= taken_lines(j2, start).0);
        },
        Some(n) => {
            if n + 1 - start > RECORD_LIMIT {
                assert(taken_lines(j1, start).0 + taken_lines(j2, start).0 =~= taken_lines(j2, start).0);
            } else {
                law_growing_journal_is_indexed_once(j1, j2, n + 1);
                assert(j1.subrange(start, n + 1) =~= j2.subrange(start, n + 1));
                let (rest1, c1) = taken_lines(j1, n + 1);
                let (second, end) = taken_lines(j2, c1);
                assert(seq![j1.subrange(start, n + 1)] + rest1 + second =~= seq![j2.subrange(start, n + 1)] + (rest1 + second));
            }
        },
    }
}

/// Where the index stands in a run's journal: the last sequence it took,
/// the task the run registered, whether that run's game rows are shown,
/// and the last score it recorded.
#[derive(Clone, Debug)]
pub struct IndexCursor {
    pub sequence: u64,
    pub task: String,
    pub visible: bool,
    pub previous_score: Option<i64>,
}

impl IndexCursor {
    /// A cursor before any row.
    pub fn new() -> (r: IndexCursor)
        ensures
            r.sequence == 0,
            r.task@ == Seq::<char>::empty(),
            !r.visible,
            r.previous_score is None,
    {
        IndexCursor { sequence: 0, task: String::new(), visible: false, previous_score: None }
    }
}

/// What the index does with a row.
#[derive(Clone, Copy, Debug, PartialEq, Eq, Structural)]
pub enum RowStep {
    /// At or before the cursor: already indexed.
    Stale,
    /// Not kept: an agent row other than a message or an experience
    /// update, or a game row of a run that is not shown.
    Dropped,
    /// Kept as it is.
    Kept,
    /// A game row to keep, after its context and score are looked at.
    Game,
}

/// Which agent rows the index keeps.
pub open spec fn kept_agent_kind(kind: Seq<char>) -> bool {
    kind == "agent_message"@ || kind == "experience_updated"@
}

/// What the index does with a row of this source and type, the cursor
/// already moved to it; see [`RowStep`].
pub open spec fn row_step_spec(visible: bool, source: Seq<char>, kind: Seq<char>) -> RowStep {
    if source == "agent"@ && !kept_agent_kind(kind) {
        RowStep::Dropped
    } else if source == "game"@ {
        if visible {
            RowStep::Game
        } else {
            RowStep::Dropped
        }
    } else {
        RowStep::Kept
    }
}

/// Takes a row with this sequence, source and type; a registration also
/// gives the task path and the model it names. A row without a sequence is
/// an error. A stale row changes nothing. Any other row moves the cursor to
/// it; a registration sets the task to the path's last segment and shows
/// the run when it names a model.
pub fn index_row(
    cursor: &mut IndexCursor,
    sequence: Option<u64>,
    source: &str,
    kind: &str,
    task: Option<&str>,
    model: Option<&str>,
) -> (r: Result<RowStep, String>)
    ensures
        sequence is None ==> r is Err && r->Err_0@ == "missing journal sequence"@ && *final(cursor) == *old(cursor),
        sequence matches Some(s) && s <= old(cursor).sequence ==> r == Ok::<RowStep, String>(RowStep::Stale)
            && *final(cursor) == *old(cursor),
        sequence matches Some(s) && s > old(cursor).sequence ==> {
            &&& Some(final(cursor).sequence) == sequence
            &&& final(cursor).task@ == if kind@ == "segment_registered"@ {
                match task {
                    Some(t) => last_segment(t@),
                    None => Seq::<char>::empty(),
                }
            } else {
                old(cursor).task@
            }
            &&& final(cursor).visible == if kind@ == "segment_registered"@ {
                match model {
                    Some(m) => m@.len() > 0,
                    None => false,
                }
            } else {
                old(cursor).visible
            }
            &&& final(cursor).previous_score == old(cursor).previous_score
            &&& r == Ok::<RowStep, String>(row_step_spec(final(cursor).visible, source@, kind@))
        },
{
    let s = match sequence {
        Some(s) => s,
        None => {
            return Err(string_from_chars(to_chars("missing journal sequence").as_slice()));
        },
    };
    if s <= cursor.sequence {
        return Ok(RowStep::Stale);
    }
    cursor.sequence = s;
    if str_eq(kind, "segment_registered") {
        cursor.task = match task {
            Some(t) => task_segment(t),
            None => String::new(),
        };
        cursor.visible = match model {
            Some(m) => to_chars(m).len() > 0,
            None => false,
        };
    }
    let step = if str_eq(source, "agent") && !(str_eq(kind, "agent_message") || str_eq(kind, "experience_updated")) {
        RowStep::Dropped
    } else if str_eq(source, "game") {
        if cursor.visible {
            RowStep::Game
        } else {
            RowStep::Dropped
        }
    } else {
        RowStep::Kept
    };
    Ok(step)
}

/// The score of a game row: its own, else the last one recorded, else 0.
/// It is recorded, and becomes the last one, when it differs from the last
/// one recorded; the result is the score to record, if any.
pub fn record_score(cursor: &mut IndexCursor, score: Option<i64>) -> (r: Option<i64>)
    ensures
        ({
            let value = match score {
                Some(v) => v,
                None => match old(cursor).previous_score {
                    Some(p) => p,
                    None => 0,
                },
            };
            if old(cursor).previous_score == Some(value) {
                r is None && *final(cursor) == *old(cursor)
            } else {
                r == Some(value) && final(cursor).previous_score == Some(value) && final(cursor).sequence
                    == old(cursor).sequence && final(cursor).task == old(cursor).task && final(cursor).visible
                    == old(cursor).visible
            }
        }),
{
    let value = match score {
        Some(v) => v,
        None => match cursor.previous_score {
            Some(p) => p,
            None => 0,
        },
    };
    let same = match cursor.previous_score {
        Some(p) => p == value,
        None => false,
    };
    if same {
        None
    } else {
        cursor.previous_score = Some(value);
        Some(value)
    }
}

} // verus!
