use vstd::prelude::*;

verus! {

/// What the player has done to a cell.
#[derive(Clone, Copy, Debug, PartialEq, Eq, Structural)]
pub enum CellState {
    Unmarked,
    Flagged,
    Revealed,
}

/// One square of the board.
#[derive(Clone, Copy, Debug, PartialEq, Eq, Structural)]
pub struct Cell {
    pub has_bomb: bool,
    pub state: CellState,
}

/// The outcome of a command.
#[derive(Clone, Copy, Debug, PartialEq, Eq, Structural)]
pub enum GameResult {
    Win,
    Loss,
    InProgress,
}

/// A command from the player. `Other` stands for any input outside the vocabulary.
#[derive(Clone, Copy, Debug, PartialEq, Eq, Structural)]
pub enum Command {
    Up,
    Down,
    Left,
    Right,
    Reveal,
    Flag,
    Quit,
    Other,
}

impl Command {
    /// The command a key stands for: `8` up, `5` down, `4` left, `6` right,
    /// `7` reveal, `9` flag, `q` quit.
    pub open spec fn of_key(c: char) -> Command {
        if c == '8' {
            Command::Up
        } else if c == '5' {
            Command::Down
        } else if c == '4' {
            Command::Left
        } else if c == '6' {
            Command::Right
        } else if c == '7' {
            Command::Reveal
        } else if c == '9' {
            Command::Flag
        } else if c == 'q' {
            Command::Quit
        } else {
            Command::Other
        }
    }

    /// Reads a key as a command; keys outside the vocabulary give `Other`.
    pub fn from_key(c: char) -> (r: Command)
        ensures
            r == Command::of_key(c),
    {
        match c {
            '8' => Command::Up,
            '5' => Command::Down,
            '4' => Command::Left,
            '6' => Command::Right,
            '7' => Command::Reveal,
            '9' => Command::Flag,
            'q' => Command::Quit,
            _ => Command::Other,
        }
    }
}

/// A board cannot be built from these parameters.
#[derive(Clone, Copy, Debug, PartialEq, Eq, Structural)]
pub enum ConfigurationError {
    /// More bombs were asked for than the board has cells.
    TooManyBombs,
    /// A bomb position lies outside the board.
    BombOutOfBounds,
}

} // verus!
