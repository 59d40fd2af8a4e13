//! Recorded move lists: one direction per line, where a line reading
//! `undo` takes back the move before it.

use vstd::prelude::*;

use crate::sausage::model::{input_direction_named, Direction};
use crate::text::{
    append_chars, append_count, ascii_lower, chars_are, lower_char_exec, lower_char, nat_text,
    split_chars, split_spec, to_chars, trim_chars, trim_spec,
};

verus! {

/// The moves of a recording, with the number of undone moves dropped.
#[derive(Clone, Debug, PartialEq, Eq)]
pub struct Replay {
    pub directions: Vec<Direction>,
    pub removed_undos: usize,
}

/// A trimmed line that takes back the previous move.
pub open spec fn is_undo(line: Seq<char>) -> bool {
    ascii_lower(line) == "undo"@
}

/// The moves so far and how many were taken back, or the error message.
pub type ReplayProgress = Result<(Seq<Direction>, nat), Seq<char>>;

/// The effect of the line numbered `number` (trimmed to `line`).
pub open spec fn replay_line(moves: Seq<Direction>, removed: nat, line: Seq<char>, number: nat) -> ReplayProgress {
    if line.len() == 0 {
        Ok((moves, removed))
    } else if is_undo(line) {
        if moves.len() == 0 {
            Err("undo without a preceding direction on line "@ + nat_text(number))
        } else {
            Ok((moves.drop_last(), removed + 1))
        }
    } else {
        match input_direction_named(ascii_lower(line)) {
            Some(d) => Ok((moves.push(d), removed)),
            None => Err(
                "invalid replay line "@ + nat_text(number) + ": unknown direction "@ + crate::text::debug_str(line),
            ),
        }
    }
}

/// Reading the lines in order, stopping at the first error.
pub open spec fn replay_run(lines: Seq<Seq<char>>) -> ReplayProgress
    decreases lines.len(),
{
    if lines.len() == 0 {
        Ok((Seq::empty(), 0))
    } else {
        match replay_run(lines.drop_last()) {
            Ok((moves, removed)) => replay_line(moves, removed, trim_spec(lines.last()), lines.len()),
            Err(message) => Err(message),
        }
    }
}

proof fn lemma_run_removed_bound(lines: Seq<Seq<char>>)
    ensures
        replay_run(lines) matches Ok((moves, removed)) ==> removed <= lines.len(),
    decreases lines.len(),
{
    if lines.len() > 0 {
        lemma_run_removed_bound(lines.drop_last());
    }
}

proof fn lemma_error_persists(lines: Seq<Seq<char>>, k: int, message: Seq<char>)
    requires
        0 <= k <= lines.len(),
        replay_run(lines.take(k)) == Err::<(Seq<Direction>, nat), Seq<char>>(message),
    ensures
        replay_run(lines) == Err::<(Seq<Direction>, nat), Seq<char>>(message),
    decreases lines.len() - k,
{
    if k < lines.len() {
        assert(lines.take(k + 1).drop_last() =~= lines.take(k));
        lemma_error_persists(lines, k + 1, message);
    } else {
        assert(lines.take(k) =~= lines);
    }
}

/// A direction line followed by an undo line leaves the moves as they
/// were and counts one removed undo.
pub proof fn law_undo_takes_back_the_move(
    lines: Seq<Seq<char>>,
    moves: Seq<Direction>,
    removed: nat,
    direction_line: Seq<char>,
    undo_line: Seq<char>,
)
    requires
        replay_run(lines) == Ok::<(Seq<Direction>, nat), Seq<char>>((moves, removed)),
        trim_spec(direction_line).len() > 0,
        !is_undo(trim_spec(direction_line)),
        input_direction_named(ascii_lower(trim_spec(direction_line))) is Some,
        is_undo(trim_spec(undo_line)),
    ensures
        replay_run(lines.push(direction_line).push(undo_line)) == Ok::<(Seq<Direction>, nat), Seq<char>>(
            (moves, removed + 1),
        ),
{
    let once = lines.push(direction_line);
    assert(once.drop_last() =~= lines);
    assert(once.push(undo_line).drop_last() =~= once);
    let d = input_direction_named(ascii_lower(trim_spec(direction_line)))->0;
    assert(replay_run(once) == Ok::<(Seq<Direction>, nat), Seq<char>>((moves.push(d), removed)));
    assert(trim_spec(undo_line).len() > 0) by {
        assert(ascii_lower(trim_spec(undo_line)).len() == trim_spec(undo_line).len());
        assert("undo"@.len() == 4) by {
            reveal_strlit("undo");
        }
    }
    assert(moves.push(d).drop_last() =~= moves);
}

impl Replay {
    /// Reads a recording; see [`replay_run`] over its lines.
    pub fn parse(source: &str) -> (r: Result<Replay, String>)
        ensures
            match r {
                Ok(replay) => replay_run(split_spec(source@, '\n')) == Ok::<(Seq<Direction>, nat), Seq<char>>((replay.directions@, replay.removed_undos as nat)),
                Err(message) => replay_run(split_spec(source@, '\n')) == Err::<(Seq<Direction>, nat), Seq<char>>(message@),
            },
    {
        let chars = to_chars(source);
        let lines = split_chars(chars.as_slice(), '\n');
        let ghost all = split_spec(source@, '\n');
        let mut directions: Vec<Direction> = Vec::new();
        let mut removed_undos: usize = 0;
        let mut i: usize = 0;
        while i < lines.len()
            invariant
                crate::text::char_views(lines@) == all,
                all == split_spec(source@, '\n'),
                i <= lines@.len(),
                replay_run(all.take(i as int)) == Ok::<(Seq<Direction>, nat), Seq<char>>((directions@, removed_undos as nat)),
                removed_undos <= i,
            decreases lines@.len() - i,
        {
            assert(all.take(i + 1).drop_last() =~= all.take(i as int));
            assert(all[i as int] == lines@[i as int]@);
            let value = trim_chars(lines[i].as_slice());
            if value.len() == 0 {
                i += 1;
                continue;
            }
            let mut lower: Vec<char> = Vec::new();
            let mut k: usize = 0;
            while k < value.len()
                invariant
                    k <= value@.len(),
                    lower@ == ascii_lower(value@.take(k as int)),
                decreases value@.len() - k,
            {
                lower.push(lower_char_exec(value[k]));
                assert(ascii_lower(value@.take(k + 1)) =~= ascii_lower(value@.take(k as int)).push(
                    lower_char(value@[k as int]),
                ));
                k += 1;
            }
            assert(value@.take(k as int) =~= value@);
            if chars_are(lower.as_slice(), "undo") {
                if directions.len() == 0 {
                    let mut message = String::from_str("undo without a preceding direction on line ");
                    append_count(&mut message, i + 1);
                    proof {
                        lemma_error_persists(all, i + 1, message@);
                    }
                    return Err(message);
                }
                directions.pop();
                removed_undos += 1;
                i += 1;
                continue;
            }
            match Direction::named(lower.as_slice()) {
                Some(d) => {
                    directions.push(d);
                },
                None => {
                    let mut message = String::from_str("invalid replay line ");
                    append_count(&mut message, i + 1);
                    message.append(": unknown direction ");
                    crate::text::append_debug(&mut message, value.as_slice());
                    proof {
                        lemma_error_persists(all, i + 1, message@);
                    }
                    return Err(message);
                },
            }
            i += 1;
        }
        assert(all.take(i as int) =~= all);
        Ok(Replay { directions, removed_undos })
    }
}

} // verus!
