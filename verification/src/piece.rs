use vstd::prelude::*;

verus! {

/// The color of a piece on the board.
#[derive(Clone, Copy, Debug, PartialEq, Eq, Structural)]
pub enum Piece {
    Black,
    White,
}

/// The result of a finished game.
#[derive(Clone, Copy, Debug, PartialEq, Eq, Structural)]
pub enum Winner {
    Black,
    White,
    Tie,
}

/// The ways a request to the engine can be rejected.
#[derive(Clone, Copy, Debug, PartialEq, Eq, Structural)]
pub enum GameError {
    /// A coordinate outside the board.
    OutOfBounds,
    /// A placement on an occupied cell, with no sandwiching direction and the
    /// last-cell rule not applying, or a placement after the game has ended.
    IllegalMove,
    /// A side length that cannot hold the canonical four-piece seeding.
    InvalidConfiguration,
}

/// The color that `p` plays against.
pub open spec fn opposite(p: Piece) -> Piece {
    match p {
        Piece::Black => Piece::White,
        Piece::White => Piece::Black,
    }
}

/// Executable counterpart of [`opposite`].
pub fn other(p: Piece) -> (r: Piece)
    ensures
        r == opposite(p),
{
    match p {
        Piece::Black => Piece::White,
        Piece::White => Piece::Black,
    }
}

} // verus!
