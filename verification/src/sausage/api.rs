//! The commands an agent sends to a Stephen's Sausage Roll session, the
//! limits the API puts on them, and the score bookkeeping of observed
//! batches.

use vstd::prelude::*;

use crate::sausage::model::Direction;

verus! {

/// The version the API reports with every response.
pub const API_VERSION: &'static str = "sausage-api-v1";

/// The most directions one move, or one undo, may carry.
pub const MAX_MOVES_PER_REQUEST: usize = 32;

/// A command of the API.
#[derive(Clone, Debug, PartialEq, Eq)]
pub enum Command {
    Show,
    Levels,
    Move { directions: Vec<Direction> },
    Undo { count: usize },
    Restart,
    Submit,
}

pub open spec fn command_name(c: &Command) -> Seq<char> {
    match c {
        Command::Show => "show"@,
        Command::Levels => "levels"@,
        Command::Move { .. } => "move"@,
        Command::Undo { .. } => "undo"@,
        Command::Restart => "restart"@,
        Command::Submit => "submit"@,
    }
}

/// Why the API refuses a command before it reaches the session: a move
/// with more than the allowed directions, or an undo count outside one to
/// the allowed number.
pub open spec fn request_error_spec(c: &Command) -> Option<Seq<char>> {
    match c {
        Command::Move { directions } => if directions@.len() > MAX_MOVES_PER_REQUEST {
            Some("move accepts at most 32 directions"@)
        } else {
            None
        },
        Command::Undo { count } => if *count == 0 || *count > MAX_MOVES_PER_REQUEST {
            Some("undo count must be between 1 and 32"@)
        } else {
            None
        },
        _ => None,
    }
}

impl Command {
    /// The command's wire name.
    pub fn name(&self) -> (r: &'static str)
        ensures
            r@ == command_name(self),
    {
        match self {
            Command::Show => "show",
            Command::Levels => "levels",
            Command::Move { .. } => "move",
            Command::Undo { .. } => "undo",
            Command::Restart => "restart",
            Command::Submit => "submit",
        }
    }

    /// See [`request_error_spec`].
    pub fn request_error(&self) -> (r: Option<String>)
        ensures
            match r {
                Some(m) => request_error_spec(self) == Some(m@),
                None => request_error_spec(self) is None,
            },
    {
        match self {
            Command::Move { directions } => {
                if directions.len() > MAX_MOVES_PER_REQUEST {
                    Some(String::from_str("move accepts at most 32 directions"))
                } else {
                    None
                }
            },
            Command::Undo { count } => {
                if *count == 0 || *count > MAX_MOVES_PER_REQUEST {
                    Some(String::from_str("undo count must be between 1 and 32"))
                } else {
                    None
                }
            },
            _ => None,
        }
    }
}

/// One observed step's score bookkeeping: its number from one, the score
/// after it, and the change from the score before it.
#[derive(Clone, Copy, Debug, PartialEq, Eq)]
pub struct ScoreStep {
    pub index: usize,
    pub score: i64,
    pub score_delta: i64,
}

/// The bookkeeping of a batch of observed steps, given the score before
/// the batch and the score after each step; an error when a score does
/// not fit in an `i64`.
pub open spec fn score_steps_spec(before: int, scores: Seq<usize>) -> Option<Seq<ScoreStep>> {
    if before > i64::MAX || exists|i: int| 0 <= i < scores.len() && scores[i] > i64::MAX {
        None
    } else {
        Some(
            Seq::new(
                scores.len(),
                |i: int|
                    ScoreStep {
                        index: (i + 1) as usize,
                        score: scores[i] as i64,
                        score_delta: (scores[i] - (if i == 0 {
                            before
                        } else {
                            scores[i - 1] as int
                        })) as i64,
                    },
            ),
        )
    }
}

/// See [`score_steps_spec`].
pub fn score_steps(score_before: usize, scores: &Vec<usize>) -> (r: Result<Vec<ScoreStep>, String>)
    ensures
        match score_steps_spec(score_before as int, scores@) {
            Some(steps) => r is Ok && r->Ok_0@ == steps,
            None => r is Err && r->Err_0@ == "score does not fit i64"@,
        },
{
    if score_before as u64 > 9_223_372_036_854_775_807u64 {
        return Err(String::from_str("score does not fit i64"));
    }
    let mut previous: i64 = score_before as i64;
    let mut out: Vec<ScoreStep> = Vec::new();
    let mut i: usize = 0;
    while i < scores.len()
        invariant
            score_before <= i64::MAX,
            i <= scores@.len(),
            out@.len() == i,
            forall|j: int| 0 <= j < i ==> scores@[j] <= i64::MAX,
            previous as int == if i == 0 {
                score_before as int
            } else {
                scores@[i - 1] as int
            },
            forall|j: int|
                0 <= j < i ==> #[trigger] out@[j] == (ScoreStep {
                    index: (j + 1) as usize,
                    score: scores@[j] as i64,
                    score_delta: (scores@[j] - (if j == 0 {
                        score_before as int
                    } else {
                        scores@[j - 1] as int
                    })) as i64,
                }),
        decreases scores@.len() - i,
    {
        if scores[i] as u64 > 9_223_372_036_854_775_807u64 {
            return Err(String::from_str("score does not fit i64"));
        }
        let score = scores[i] as i64;
        let delta = score - previous;
        out.push(ScoreStep { index: i + 1, score, score_delta: delta });
        previous = score;
        i += 1;
    }
    assert(out@ =~= score_steps_spec(score_before as int, scores@)->0);
    Ok(out)
}

} // verus!
