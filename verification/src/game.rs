use vstd::prelude::*;
use crate::pos::Move;
use crate::block::block_is_none;
use crate::map::{GameMap, state_wf, drop_room, map_spun, map_moved, map_dropped};

verus! {

/// A key press that the game reacts to; every other key is `Other`.
#[derive(Debug, Clone, Copy, PartialEq, Eq, Structural)]
pub enum Key {
    Up,
    Down,
    Left,
    Right,
    Esc,
    Other,
}

/// Applies a key press: up turns the piece, down pushes it one row, left and
/// right move it. Returns whether the player asked to quit (escape).
pub fn handle_block(map: &mut GameMap, key: Key) -> (quit: bool)
    requires
        state_wf(old(map)@),
        key == Key::Down ==> drop_room(old(map)@),
    ensures
        state_wf(final(map)@),
        quit == (key == Key::Esc),
        key == Key::Up ==> final(map)@ == map_spun(old(map)@),
        key == Key::Down ==> exists|id: usize| 1 <= id < 8 && final(map)@ == #[trigger] map_dropped(old(map)@, id),
        key == Key::Left ==> final(map)@ == map_moved(old(map)@, Move::Left),
        key == Key::Right ==> final(map)@ == map_moved(old(map)@, Move::Right),
        key == Key::Esc || key == Key::Other ==> *final(map) == *old(map),
{
    match key {
        Key::Up => {
            map.spin_block();
            false
        }
        Key::Down => {
            map.down_block();
            false
        }
        Key::Left => {
            map.move_block(Move::Left);
            false
        }
        Key::Right => {
            map.move_block(Move::Right);
            false
        }
        Key::Esc => true,
        Key::Other => false,
    }
}

/// One tick of the game: pushes the piece down when `down_block` is set, then
/// reports the game as lost (`Err`) when the falling piece is the marker of a
/// lost game.
pub fn game_update(map: &mut GameMap, down_block: bool) -> (res: Result<(), ()>)
    requires
        state_wf(old(map)@),
        down_block ==> drop_room(old(map)@),
    ensures
        state_wf(final(map)@),
        down_block ==> exists|id: usize| 1 <= id < 8 && final(map)@ == #[trigger] map_dropped(old(map)@, id),
        !down_block ==> *final(map) == *old(map),
        res is Err <==> block_is_none(final(map)@.block),
{
    if down_block {
        map.down_block();
    }
    if map.block.is_none() {
        return Err(());
    }
    Ok(())
}

/// The colour in which a square is drawn, as red, green and blue.
pub open spec fn color_of(cell: usize) -> (u8, u8, u8) {
    if cell == 0 { (0, 0, 0) }
    else if cell == 1 { (0, 240, 240) }
    else if cell == 2 { (160, 0, 240) }
    else if cell == 3 { (240, 240, 0) }
    else if cell == 4 { (0, 0, 240) }
    else if cell == 5 { (240, 160, 0) }
    else if cell == 6 { (240, 0, 0) }
    else { (0, 240, 0) }
}

/// The colour of a square: black for an empty one, else the colour of the kind
/// of piece that left it.
pub fn cell_color(cell: usize) -> (rgb: (u8, u8, u8))
    ensures
        rgb == color_of(cell),
{
    match cell {
        0 => (0, 0, 0),
        1 => (0, 240, 240),
        2 => (160, 0, 240),
        3 => (240, 240, 0),
        4 => (0, 0, 240),
        5 => (240, 160, 0),
        6 => (240, 0, 0),
        _ => (0, 240, 0),
    }
}

} // verus!
