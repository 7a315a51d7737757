//! The ternary value held by each position of the board.

use vstd::prelude::*;

verus! {

/// One cell of the board: empty, or marked by one of the two players.
#[derive(Debug, Clone, Copy, PartialEq, Eq, Structural)]
pub enum Cell {
    Empty,
    X,
    O,
}

impl Cell {
    /// The base-3 digit that encodes this cell.
    pub open spec fn digit(self) -> nat {
        match self {
            Cell::Empty => 0,
            Cell::X => 1,
            Cell::O => 2,
        }
    }

    /// The cell that a base-3 digit encodes.
    pub open spec fn of_digit(d: nat) -> Cell {
        if d == 1 {
            Cell::X
        } else if d == 2 {
            Cell::O
        } else {
            Cell::Empty
        }
    }

    /// The character that renders this cell.
    pub open spec fn glyph(self) -> char {
        match self {
            Cell::Empty => ' ',
            Cell::X => 'X',
            Cell::O => 'O',
        }
    }

    /// Decode a base-3 digit into a cell.
    pub fn from_digit(digit: u32) -> (c: Cell)
        requires
            digit < 3,
        ensures
            c == Cell::of_digit(digit as nat),
            c.digit() == digit as nat,
    {
        match digit {
            0 => Cell::Empty,
            1 => Cell::X,
            _ => Cell::O,
        }
    }

    /// Encode this cell as a base-3 digit.
    pub fn to_digit(self) -> (d: u32)
        ensures
            d as nat == self.digit(),
    {
        match self {
            Cell::Empty => 0,
            Cell::X => 1,
            Cell::O => 2,
        }
    }
}

} // verus!
