use tetris::block::Block;
use tetris::built_in::make_shape;
use tetris::pos::{Move, Pos};

fn cells(v: &[[usize; 2]]) -> Vec<Vec<usize>> {
    v.iter().map(|c| vec![c[0], c[1]]).collect()
}

#[test]
fn straight_piece_sits_one_row_higher() {
    let s = make_shape(1, Pos { x: 3, y: 0 }, 0).unwrap();
    assert_eq!(s, cells(&[[3, 0], [4, 0], [5, 0], [6, 0]]));
    let s = make_shape(1, Pos { x: 3, y: 5 }, 0).unwrap();
    assert_eq!(s, cells(&[[3, 5], [4, 5], [5, 5], [6, 5]]));
}

#[test]
fn straight_piece_upright_keeps_top_row() {
    let s = make_shape(1, Pos { x: 3, y: 0 }, 1).unwrap();
    assert_eq!(s, cells(&[[5, 0], [5, 0], [5, 1], [5, 2]]));
}

#[test]
fn other_pieces_are_not_lifted() {
    let s = make_shape(3, Pos { x: 3, y: 0 }, 0).unwrap();
    assert_eq!(s, cells(&[[4, 0], [5, 0], [4, 1], [5, 1]]));
    let s = make_shape(7, Pos { x: 0, y: 2 }, 2).unwrap();
    assert_eq!(s, cells(&[[0, 3], [1, 3], [1, 2], [2, 2]]));
}

#[test]
fn unknown_kind_is_four_corner_cells() {
    let s = make_shape(0, Pos { x: 3, y: 0 }, 0).unwrap();
    assert_eq!(s, cells(&[[3, 0], [3, 0], [3, 0], [3, 0]]));
    let s = make_shape(42, Pos { x: 9, y: 19 }, 3).unwrap();
    assert_eq!(s, cells(&[[9, 19], [9, 19], [9, 19], [9, 19]]));
}

#[test]
fn shape_off_the_sides_or_bottom_fails() {
    assert_eq!(make_shape(2, Pos { x: 8, y: 0 }, 0), Err(()));
    assert_eq!(make_shape(2, Pos { x: -1, y: 0 }, 0), Err(()));
    assert_eq!(make_shape(3, Pos { x: 3, y: 19 }, 0), Err(()));
    assert!(make_shape(3, Pos { x: 3, y: 18 }, 0).is_ok());
    assert!(make_shape(2, Pos { x: 7, y: 0 }, 0).is_ok());
    // the straight piece is lifted one row, so it may reach lower
    assert!(make_shape(1, Pos { x: 0, y: 19 }, 0).is_ok());
    assert_eq!(make_shape(1, Pos { x: 0, y: 20 }, 0), Err(()));
    assert_eq!(make_shape(3, Pos { x: 0, y: 19 }, 0), Err(()));
}

#[test]
fn rows_above_the_top_wrap_around() {
    let s = make_shape(3, Pos { x: 3, y: -5 }, 0).unwrap();
    let top = usize::MAX - 4;
    assert_eq!(s, cells(&[[4, top], [5, top], [4, top + 1], [5, top + 1]]));
}

#[test]
fn new_block_defaults_to_spawn_position() {
    let b = Block::new(4, None, 0);
    assert_eq!((b.pos.x, b.pos.y, b.id, b.rot), (3, 0, 4, 0));
    assert_eq!(b.shape, cells(&[[3, 1], [4, 1], [5, 1], [3, 0]]));
    let b = Block::new(4, Some(Pos { x: 0, y: 4 }), 1);
    assert_eq!(b.shape, cells(&[[1, 4], [1, 5], [1, 6], [2, 4]]));
}

#[test]
fn block_moves_and_stops_at_walls() {
    let mut b = Block::new(3, Some(Pos { x: 0, y: 0 }), 0);
    b.move_block(Move::Left);
    assert_eq!(b.pos.x, -1);
    assert_eq!(b.shape, cells(&[[0, 0], [1, 0], [0, 1], [1, 1]]));
    b.move_block(Move::Left);
    assert_eq!(b.pos.x, -1);
    assert_eq!(b.shape, cells(&[[0, 0], [1, 0], [0, 1], [1, 1]]));
    b.move_block(Move::Right);
    assert_eq!(b.pos.x, 0);
    assert_eq!(b.shape, cells(&[[1, 0], [2, 0], [1, 1], [2, 1]]));
}

#[test]
fn block_spins_through_four_rotations() {
    let mut b = Block::new(2, Some(Pos { x: 4, y: 4 }), 0);
    let start = b.shape.clone();
    for r in [1, 2, 3, 0] {
        b.spin();
        assert_eq!(b.rot, r);
    }
    assert_eq!(b.shape, start);
}

#[test]
fn failed_spin_keeps_the_piece() {
    // upright straight piece on the right wall cannot lie down
    let mut b = Block::new(1, Some(Pos { x: 7, y: 4 }), 1);
    let before = b.shape.clone();
    b.spin();
    assert_eq!(b.rot, 1);
    assert_eq!(b.shape, before);
}

#[test]
fn failed_spin_from_rotation_three_goes_back_to_three() {
    let mut b = Block::new(1, Some(Pos { x: -1, y: 4 }), 3);
    b.spin();
    assert_eq!(b.rot, 3);
}

#[test]
fn marker_block_is_none() {
    assert!(Block::new(0, None, 0).is_none());
    for id in 1..8 {
        assert!(!Block::new(id, None, 0).is_none());
    }
}
