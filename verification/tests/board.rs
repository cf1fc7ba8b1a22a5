use tetris::block::Block;
use tetris::game::{cell_color, game_update, handle_block, Key};
use tetris::map::{to_array, GameMap};
use tetris::pos::{Move, Pos};

fn full_row_except(cols: &[usize]) -> Vec<usize> {
    (0..10).map(|c| if cols.contains(&c) { 0 } else { 9 }).collect()
}

#[test]
fn new_game_is_empty() {
    let m = GameMap::with_block(5, 120);
    assert_eq!(m.map, vec![vec![0; 10]; 20]);
    assert_eq!(m.block.id, 5);
    assert_eq!((m.block.pos.x, m.block.pos.y, m.block.rot), (3, 0, 0));
    assert_eq!((m.score, m.best_score, m.stop), (0, 120, false));
}

#[test]
fn random_new_game_uses_a_real_piece() {
    for _ in 0..20 {
        let m = GameMap::new(7);
        assert!((1..8).contains(&m.block.id));
        assert_eq!(m.best_score, 7);
    }
}

#[test]
fn check_sees_taken_squares() {
    let mut m = GameMap::with_block(3, 0);
    m.map[5][5] = 2;
    assert!(!m.check(&vec![vec![4, 5], vec![5, 5]]));
    assert!(m.check(&vec![vec![4, 5], vec![6, 5]]));
}

#[test]
fn move_is_refused_onto_taken_squares() {
    let mut m = GameMap::with_block(3, 0);
    m.map[0][3] = 1;
    m.move_block(Move::Left);
    assert_eq!(m.block.pos.x, 3);
    m.move_block(Move::Right);
    assert_eq!(m.block.pos.x, 4);
    assert_eq!(m.block.shape, vec![vec![5, 0], vec![6, 0], vec![5, 1], vec![6, 1]]);
}

#[test]
fn nothing_moves_while_stopped() {
    let mut m = GameMap::with_block(3, 0);
    m.stop = true;
    m.move_block(Move::Left);
    m.spin_block();
    m.down_block();
    assert_eq!((m.block.pos.x, m.block.pos.y), (3, 0));
}

#[test]
fn spin_is_refused_onto_taken_squares() {
    let mut m = GameMap::with_block(2, 0);
    m.spin_block();
    assert_eq!(m.block.rot, 1);
    let mut m = GameMap::with_block(2, 0);
    m.map[2][4] = 6;
    m.spin_block();
    assert_eq!(m.block.rot, 0);
}

#[test]
fn down_block_drops_one_row() {
    let mut m = GameMap::with_block(3, 0);
    m.down_block();
    assert_eq!(m.block.pos.y, 1);
    assert_eq!(m.block.shape, vec![vec![4, 1], vec![5, 1], vec![4, 2], vec![5, 2]]);
    assert_eq!(m.map, vec![vec![0; 10]; 20]);
}

#[test]
fn down_block_locks_at_the_bottom() {
    let mut m = GameMap::with_block(3, 0);
    m.block = Block::new(3, Some(Pos { x: 3, y: 18 }), 0);
    m.down_block();
    assert_eq!(m.map[18][4], 3);
    assert_eq!(m.map[19][5], 3);
    assert!((1..8).contains(&m.block.id));
    assert_eq!(m.block.pos.y, 0);
}

#[test]
fn lock_clears_one_row_for_a_hundred() {
    let mut m = GameMap::with_block(3, 0);
    m.map[19] = full_row_except(&[4, 5]);
    m.map[18][0] = 7;
    m.block = Block::new(3, Some(Pos { x: 3, y: 18 }), 0);
    m.set_block_with(6);
    let mut expected = vec![vec![0; 10]; 20];
    expected[19] = vec![7, 0, 0, 0, 3, 3, 0, 0, 0, 0];
    assert_eq!(m.map, expected);
    assert_eq!((m.score, m.best_score, m.stop), (100, 100, false));
    assert_eq!(m.block.id, 6);
}

#[test]
fn lock_clears_two_rows_for_three_hundred() {
    let mut m = GameMap::with_block(3, 500);
    m.map[18] = full_row_except(&[4, 5]);
    m.map[19] = full_row_except(&[4, 5]);
    m.block = Block::new(3, Some(Pos { x: 3, y: 18 }), 0);
    m.score = 50;
    m.set_block_with(2);
    assert_eq!(m.map, vec![vec![0; 10]; 20]);
    assert_eq!((m.score, m.best_score), (350, 500));
}

#[test]
fn lock_clears_four_rows_for_a_thousand() {
    let mut m = GameMap::with_block(1, 0);
    for r in 16..20 {
        m.map[r] = full_row_except(&[9]);
    }
    m.block = Block::new(1, Some(Pos { x: 7, y: 17 }), 1);
    assert_eq!(m.block.shape, vec![vec![9, 16], vec![9, 17], vec![9, 18], vec![9, 19]]);
    m.set_block_with(4);
    assert_eq!(m.map, vec![vec![0; 10]; 20]);
    assert_eq!((m.score, m.best_score), (1000, 1000));
}

#[test]
fn lock_without_full_rows_keeps_score() {
    let mut m = GameMap::with_block(3, 0);
    m.score = 30;
    m.block = Block::new(3, Some(Pos { x: 0, y: 18 }), 0);
    m.set_block_with(5);
    assert_eq!(m.map[18][1], 3);
    assert_eq!(m.map[19][2], 3);
    assert_eq!((m.score, m.best_score), (30, 0));
}

#[test]
fn lost_game_when_next_piece_is_blocked() {
    let mut m = GameMap::with_block(3, 0);
    m.map[0][4] = 1;
    m.block = Block::new(3, Some(Pos { x: 0, y: 18 }), 0);
    m.set_block_with(3);
    assert_eq!(m.block.id, 0);
    assert!(m.block.is_none());
    assert_eq!(game_update(&mut m, false), Err(()));
}

#[test]
fn game_goes_on_when_next_piece_fits() {
    let mut m = GameMap::with_block(3, 0);
    assert_eq!(game_update(&mut m, false), Ok(()));
    assert_eq!(game_update(&mut m, true), Ok(()));
    assert_eq!(m.block.pos.y, 1);
}

#[test]
fn encoding_draws_the_piece() {
    let mut m = GameMap::with_block(3, 0);
    m.map[19][0] = 2;
    let frame = m.encoding();
    assert_eq!(frame[0][4], 3);
    assert_eq!(frame[1][5], 3);
    assert_eq!(frame[19][0], 2);
    assert_eq!(frame.iter().flatten().filter(|v| **v != 0).count(), 5);
    assert_eq!(m.map[0][4], 0);
}

#[test]
fn keys_drive_the_piece() {
    let mut m = GameMap::with_block(2, 0);
    assert!(!handle_block(&mut m, Key::Left));
    assert_eq!(m.block.pos.x, 2);
    assert!(!handle_block(&mut m, Key::Right));
    assert!(!handle_block(&mut m, Key::Right));
    assert_eq!(m.block.pos.x, 4);
    assert!(!handle_block(&mut m, Key::Up));
    assert_eq!(m.block.rot, 1);
    assert!(!handle_block(&mut m, Key::Down));
    assert_eq!(m.block.pos.y, 1);
    assert!(!handle_block(&mut m, Key::Other));
    assert!(handle_block(&mut m, Key::Esc));
    assert_eq!((m.block.pos.x, m.block.pos.y, m.block.rot), (4, 1, 1));
}

#[test]
fn colours_of_squares() {
    assert_eq!(cell_color(0), (0, 0, 0));
    assert_eq!(cell_color(1), (0, 240, 240));
    assert_eq!(cell_color(5), (240, 160, 0));
    assert_eq!(cell_color(7), (0, 240, 0));
    assert_eq!(cell_color(99), (0, 240, 0));
}

#[test]
fn board_as_array() {
    let mut m = GameMap::with_block(3, 0);
    m.map[19][9] = 4;
    m.map[0][0] = 1;
    let arr = to_array(&m.map);
    assert_eq!(arr[19][9], 4);
    assert_eq!(arr[0][0], 1);
    assert_eq!(arr.iter().flatten().filter(|v| **v != 0).count(), 2);
}

#[test]
fn score_room_before_a_lock() {
    let mut m = GameMap::with_block(3, 0);
    m.map[19] = full_row_except(&[4, 5]);
    m.block = Block::new(3, Some(Pos { x: 3, y: 18 }), 0);
    m.score = usize::MAX - 100;
    assert!(m.lock_room_ok());
    assert!(m.drop_room_ok());
    m.score = usize::MAX - 99;
    assert!(!m.lock_room_ok());
    assert!(!m.drop_room_ok());
    // a piece that can still drop earns nothing
    m.block = Block::new(3, Some(Pos { x: 3, y: 10 }), 0);
    assert!(m.drop_room_ok());
}
