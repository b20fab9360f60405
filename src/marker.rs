use vstd::prelude::*;

verus! {

/// The occupant of a cell, or the winner of a board.
#[derive(Clone, Copy, Debug, PartialEq, Eq, Structural)]
pub enum PlayerMarker {
    X,
    O,
    Empty,
}

/// The opponent of a marker; `Empty` stays `Empty`.
pub open spec fn other(p: PlayerMarker) -> PlayerMarker {
    match p {
        PlayerMarker::X => PlayerMarker::O,
        PlayerMarker::O => PlayerMarker::X,
        PlayerMarker::Empty => PlayerMarker::Empty,
    }
}

impl PlayerMarker {
    pub fn to_char(&self) -> (c: char)
        ensures
            c == match *self {
                PlayerMarker::X => 'X',
                PlayerMarker::O => 'O',
                PlayerMarker::Empty => '_',
            },
    {
        match self {
            PlayerMarker::X => 'X',
            PlayerMarker::O => 'O',
            PlayerMarker::Empty => '_',
        }
    }

    pub fn to_other(&self) -> (r: Self)
        ensures
            r == other(*self),
    {
        match self {
            PlayerMarker::X => PlayerMarker::O,
            PlayerMarker::O => PlayerMarker::X,
            PlayerMarker::Empty => PlayerMarker::Empty,
        }
    }
}

/// A move that cannot be applied: an occupied cell, or a path of the wrong shape.
#[derive(Clone, Debug)]
pub struct InvalidMoveError {
    pub message: String,
}

impl InvalidMoveError {
    pub fn new(message: &str) -> (e: Self)
        ensures
            e.message@ == message@,
    {
        InvalidMoveError { message: message.to_owned() }
    }
}

} // verus!
