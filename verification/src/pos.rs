use vstd::prelude::*;

verus! {

/// A position on the board: `x` counts columns from the left, `y` rows from the top.
#[derive(Debug, Clone, Copy)]
pub struct Pos {
    pub x: isize,
    pub y: isize,
}

/// A sideways move of the falling piece.
#[derive(Debug, Clone, Copy, PartialEq, Eq, Structural)]
pub enum Move {
    Left,
    Right,
}

} // verus!
