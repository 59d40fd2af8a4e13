//! The commands a Sokoban client sends.

use vstd::prelude::*;

use crate::sokoban::engine::Direction;

verus! {

pub enum Command {
    Show,
    Levels { tier: Option<String> },
    Select { level: String },
    Move { directions: Vec<Direction> },
    Undo { steps: usize },
    Reset,
    Submit,
}

pub open spec fn command_name(c: &Command) -> Seq<char> {
    match c {
        Command::Show => "show"@,
        Command::Levels { .. } => "levels"@,
        Command::Select { .. } => "select"@,
        Command::Move { .. } => "move"@,
        Command::Undo { .. } => "undo"@,
        Command::Reset => "reset"@,
        Command::Submit => "submit"@,
    }
}

impl Command {
    /// The command's wire name.
    pub fn name(&self) -> (r: &'static str)
        ensures
            r@ == command_name(self),
    {
        match self {
            Command::Show => "show",
            Command::Levels { .. } => "levels",
            Command::Select { .. } => "select",
            Command::Move { .. } => "move",
            Command::Undo { .. } => "undo",
            Command::Reset => "reset",
            Command::Submit => "submit",
        }
    }

    /// Whether the command changes the game (select, move, undo, reset),
    /// as opposed to only reading it.
    pub fn is_game_action(&self) -> (r: bool)
        ensures
            r == (self is Select || self is Move || self is Undo || self is Reset),
    {
        match self {
            Command::Select { .. } | Command::Move { .. } | Command::Undo { .. } | Command::Reset => true,
            _ => false,
        }
    }
}

} // verus!
