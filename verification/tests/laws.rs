use tetris::block::Block;
use tetris::map::GameMap;
use tetris::pos::{Move, Pos};

#[test]
fn accepted_move_is_undone_by_opposite_move() {
    let mut m = GameMap::with_block(6, 0);
    let before = (m.block.pos.x, m.block.shape.clone());
    m.move_block(Move::Right);
    assert_ne!(m.block.pos.x, before.0);
    m.move_block(Move::Left);
    assert_eq!((m.block.pos.x, m.block.shape.clone()), before);
}

#[test]
fn four_turns_come_back() {
    for id in 1..8 {
        let mut b = Block::new(id, Some(Pos { x: 4, y: 8 }), 0);
        let start = b.shape.clone();
        for _ in 0..4 {
            b.spin();
        }
        assert_eq!((b.rot, b.shape.clone()), (0, start));
    }
}

#[test]
fn failed_turn_changes_nothing() {
    let mut b = Block::new(1, Some(Pos { x: 8, y: 8 }), 1);
    let before = (b.rot, b.shape.clone(), b.pos.x, b.pos.y);
    b.spin();
    assert_eq!((b.rot, b.shape.clone(), b.pos.x, b.pos.y), before);
}

#[test]
fn no_full_row_after_a_lock() {
    let mut m = GameMap::with_block(3, 0);
    for r in 10..20 {
        m.map[r] = (0..10).map(|c| if c == 4 || c == 5 { 0 } else { 1 }).collect();
    }
    m.block = Block::new(3, Some(Pos { x: 3, y: 18 }), 0);
    m.set_block_with(1);
    assert!(m.map.iter().all(|row| row.iter().any(|v| *v == 0)));
    assert_eq!(m.map.len(), 20);
    assert!(m.map.iter().all(|row| row.len() == 10));
    assert_eq!(m.score, 300);
}

#[test]
fn best_score_follows_score() {
    let mut m = GameMap::with_block(3, 150);
    m.map[19] = (0..10).map(|c| if c == 4 || c == 5 { 0 } else { 1 }).collect();
    m.block = Block::new(3, Some(Pos { x: 3, y: 18 }), 0);
    m.score = 100;
    m.set_block_with(1);
    assert_eq!(m.score, 200);
    assert_eq!(m.best_score, 200);
    assert!(m.score <= m.best_score);
}

#[test]
fn blocked_spawn_gives_marker() {
    for id in 1..8 {
        let mut m = GameMap::with_block(3, 0);
        for c in 0..10 {
            m.map[0][c] = 1;
            m.map[1][c] = 1;
        }
        m.spawn_block_with(id);
        assert!(m.block.is_none());
        let mut m = GameMap::with_block(3, 0);
        m.spawn_block_with(id);
        assert!(!m.block.is_none());
        assert_eq!(m.block.id, id);
    }
}
