//! A falling-block puzzle game: the pieces, the board, and the rules that
//! move, rotate, drop and lock pieces and clear full rows.
use vstd::prelude::*;

pub mod pos;
pub mod built_in;
pub mod block;
pub mod random;
pub mod map;
pub mod game;
pub mod laws;
