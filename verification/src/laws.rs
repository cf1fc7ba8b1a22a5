use vstd::prelude::*;
use crate::pos::{Pos, Move};
use crate::built_in::{COLS, ROWS, spec_make_shape, shape_cells, placed_cells, cell_col, decoded};
use vstd::bytes::{spec_u64_to_le_bytes, lemma_auto_spec_u64_to_from_le_bytes};
use vstd::arithmetic::div_mod::lemma_div_by_multiple;
use crate::block::{BlockState, block_placed, block_spun, block_moved, block_is_none, next_rot, shifted, spawn_pos};
use crate::game::color_of;
use crate::map::{
    MapState, state_wf, fits_on, map_moved, map_spun, map_dropped, map_locked, drop_room, lock_room, can_drop,
    spawned, fresh_block, lemma_block_on_board, locked_board, full_rows, kept_rows, clear_gain, is_full, covers,
    lowered, lemma_spawn_fits, cleared, lemma_filter_step, lemma_full_prefix, lemma_full_suffix,
};

verus! {

/// The move in the other direction.
pub open spec fn opposite(direction: Move) -> Move {
    match direction {
        Move::Left => Move::Right,
        Move::Right => Move::Left,
    }
}

/// A move that the game accepted is undone by the opposite move, provided the
/// piece lay on empty squares before it moved.
pub proof fn law_move_undone(s: MapState, direction: Move)
    requires
        state_wf(s),
        fits_on(s.board, s.block.shape),
        map_moved(s, direction) != s,
    ensures
        map_moved(map_moved(s, direction), opposite(direction)) == s,
{
    lemma_block_on_board(s.block);
    let b = s.block;
    let moved = block_moved(b, direction);
    assert(moved.pos == shifted(b.pos, direction));
    assert(shifted(moved.pos, opposite(direction)) == b.pos);
    assert(block_moved(moved, opposite(direction)) == b);
}

/// A turn that does not fit leaves the piece exactly as it was.
pub proof fn law_failed_turn_keeps_block(b: BlockState)
    requires
        block_placed(b),
        spec_make_shape(b.id, b.pos, next_rot(b.rot)) is None,
    ensures
        block_spun(b) == b,
{
}

/// Four turns that all fit bring the piece back to where it started.
pub proof fn law_four_turns(b: BlockState)
    requires
        block_placed(b),
        forall|r: usize| r < 4 ==> (#[trigger] spec_make_shape(b.id, b.pos, r)) is Some,
    ensures
        block_spun(block_spun(block_spun(block_spun(b)))) == b,
{
    let b1 = block_spun(b);
    let b2 = block_spun(b1);
    let b3 = block_spun(b2);
    assert(spec_make_shape(b.id, b.pos, next_rot(b.rot)) is Some);
    assert(spec_make_shape(b.id, b.pos, next_rot(b1.rot)) is Some);
    assert(spec_make_shape(b.id, b.pos, next_rot(b2.rot)) is Some);
    assert(spec_make_shape(b.id, b.pos, next_rot(b3.rot)) is Some);
}

/// Pushing the piece down never lowers the best score, and keeps the score at
/// or below it when it was so before.
pub proof fn law_best_score_holds(s: MapState, next_id: usize)
    requires
        drop_room(s),
    ensures
        map_dropped(s, next_id).best_score >= s.best_score,
        s.score <= s.best_score ==> map_dropped(s, next_id).score <= map_dropped(s, next_id).best_score,
        map_dropped(s, next_id).score >= s.score,
{
    if !s.stop && !can_drop(s) {
        let k = full_rows(locked_board(s)).len();
        if k == 0 {
            assert(clear_gain(k) == 0) by (nonlinear_arith)
                requires k == 0;
        }
    }
}

/// The game is lost exactly when the next piece's squares are taken: the piece
/// that appears is then the marker of a lost game, and otherwise it is not.
pub proof fn law_lost_iff_blocked(board: Seq<Seq<usize>>, id: usize)
    requires
        1 <= id < 8,
    ensures
        block_is_none(spawned(board, id)) <==> !fits_on(board, fresh_block(id).shape),
{
    let p = spawn_pos();
    assert(spec_make_shape(0, p, 0) is Some) by {
        assert(forall|k: int| 0 <= k < 4 ==> shape_cells(0, 0)[k] == (0usize, 0usize));
    }
    assert(block_is_none(fresh_block(0)));
    if fits_on(board, fresh_block(id).shape) {
        let f = fresh_block(id);
        assert(spec_make_shape(id, p, 0) is Some) by {
            assert(forall|k: int| 0 <= k < 4 ==> #[trigger] shape_cells(id, 0)[k].0 <= 3 && shape_cells(id, 0)[k].1 <= 3);
        }
        let zero = placed_cells(0, p, 0);
        // Some cell of every real piece is off the frame's corner.
        if id == 1 {
            assert(f.shape[1][0] == 4);
        } else if id == 2 {
            assert(f.shape[0][0] == 4);
        } else if id == 3 {
            assert(f.shape[0][0] == 4);
        } else if id == 4 {
            assert(f.shape[1][0] == 4);
        } else if id == 5 {
            assert(f.shape[1][0] == 4);
        } else if id == 6 {
            assert(f.shape[1][0] == 4);
        } else {
            assert(f.shape[1][0] == 4);
        }
        assert(zero[1][0] == 3);
        assert(zero[0][0] == 3);
    }
}

/// Whether every row of a grid holds `row_len` numbers.
pub open spec fn rectangular(grid: Seq<Seq<usize>>, row_len: nat) -> bool {
    forall|i: int| 0 <= i < grid.len() ==> (#[trigger] grid[i]).len() == row_len
}

/// Whether `bytes` holds `values` one after the other, eight bytes each, least
/// significant byte first: the layout that `usize_vec_to_byte` produces on a
/// little-endian machine.
pub open spec fn le_encoded(values: Seq<usize>, bytes: Seq<u8>) -> bool {
    &&& bytes.len() == 8 * values.len()
    &&& forall|k: int| 0 <= k < values.len() ==>
        bytes.subrange(8 * k, 8 * k + 8) == spec_u64_to_le_bytes(#[trigger] values[k] as u64)
}

proof fn lemma_flatten_rectangular(grid: Seq<Seq<usize>>, row_len: nat)
    requires
        rectangular(grid, row_len),
    ensures
        grid.flatten().len() == grid.len() * row_len,
        forall|i: int, j: int| 0 <= i < grid.len() && 0 <= j < row_len ==>
            grid.flatten()[i * row_len + j] == #[trigger] grid[i][j],
    decreases grid.len(),
{
    if grid.len() == 0 {
        assert(grid.flatten().len() == 0);
        assert(grid.len() * row_len == 0) by (nonlinear_arith)
            requires grid.len() == 0;
    } else {
        let init = grid.drop_last();
        lemma_flatten_rectangular(init, row_len);
        assert(init.push(grid.last()) =~= grid);
        init.lemma_flatten_push(grid.last());
        let n = init.len();
        assert((n + 1) * row_len == n * row_len + row_len) by (nonlinear_arith);
        assert forall|i: int, j: int| 0 <= i < grid.len() && 0 <= j < row_len implies
            grid.flatten()[i * row_len + j] == #[trigger] grid[i][j] by {
            if i < n {
                assert(i * row_len + j < n * row_len) by (nonlinear_arith)
                    requires 0 <= i < n, 0 <= j < row_len;
                assert(init[i] == grid[i]);
            } else {
                assert(i * row_len == n * row_len);
            }
            assert(0 <= i * row_len) by (nonlinear_arith)
                requires 0 <= i, row_len >= 0;
        }
    }
}

/// Reading back the little-endian bytes of a grid whose rows all hold
/// `row_len` numbers gives the grid again.
pub proof fn law_bytes_round_trip(grid: Seq<Seq<usize>>, row_len: nat, bytes: Seq<u8>)
    requires
        row_len > 0,
        rectangular(grid, row_len),
        le_encoded(grid.flatten(), bytes),
    ensures
        decoded(bytes, row_len) == grid,
{
    lemma_flatten_rectangular(grid, row_len);
    lemma_auto_spec_u64_to_from_le_bytes();
    let flat = grid.flatten();
    let n = grid.len();
    assert(bytes.len() == (n * row_len) * 8);
    assert((n * row_len) * 8 == n * (row_len * 8)) by (nonlinear_arith);
    lemma_div_by_multiple(n as int, (row_len * 8) as int);
    let d = decoded(bytes, row_len);
    assert(d.len() == n);
    assert forall|i: int| 0 <= i < n implies #[trigger] d[i] == grid[i] by {
        assert forall|j: int| 0 <= j < row_len implies d[i][j] == #[trigger] grid[i][j] by {
            let k = i * row_len + j;
            assert(0 <= k < n * row_len) by (nonlinear_arith)
                requires 0 <= i < n, 0 <= j < row_len, k == i * row_len + j;
            assert(flat[k] == grid[i][j]);
            assert(bytes.subrange(8 * k, 8 * k + 8) == spec_u64_to_le_bytes(flat[k] as u64));
            assert((i * row_len + j) * 8 == 8 * k);
        }
        assert(d[i] =~= grid[i]);
    }
    assert(d =~= grid);
}

// ----- Locking and clearing -----

proof fn lemma_no_full_rows(b: Seq<Seq<usize>>)
    requires
        forall|r: int| 0 <= r < b.len() ==> !is_full(#[trigger] b[r]),
    ensures
        full_rows(b).len() == 0,
        kept_rows(b) == b,
    decreases b.len(),
{
    reveal_with_fuel(Seq::filter, 1);
    if b.len() > 0 {
        lemma_no_full_rows(b.drop_last());
        assert(!is_full(b[b.len() - 1]));
        assert(b.drop_last().push(b.last()) =~= b);
    }
}

/// Whether the row at `r` of a board has an empty square in one of its columns.
pub open spec fn has_hole(board: Seq<Seq<usize>>, r: int) -> bool {
    exists|c: int| 0 <= c < COLS && board[r][c] == 0
}

proof fn lemma_locked_board_shape(s: MapState)
    requires
        state_wf(s),
    ensures
        locked_board(s).len() == ROWS,
        forall|r: int| 0 <= r < ROWS ==> (#[trigger] locked_board(s)[r]).len() == COLS,
        forall|k: int| 0 <= k < s.block.shape.len() ==>
            locked_board(s)[(#[trigger] s.block.shape[k])[1] as int][s.block.shape[k][0] as int] == s.block.id,
{
    lemma_block_on_board(s.block);
    assert forall|k: int| 0 <= k < s.block.shape.len() implies
        locked_board(s)[(#[trigger] s.block.shape[k])[1] as int][s.block.shape[k][0] as int] == s.block.id by {
        assert(covers(s.block.shape, s.block.shape[k][1] as int, s.block.shape[k][0] as int));
    }
}

proof fn lemma_holes_mean_no_full_rows(p: Seq<Seq<usize>>)
    requires
        p.len() == ROWS,
        forall|r: int| 0 <= r < ROWS ==> (#[trigger] p[r]).len() == COLS,
        forall|r: int| 0 <= r < ROWS ==> #[trigger] has_hole(p, r),
    ensures
        full_rows(p).len() == 0,
        cleared(p) == p,
{
    assert forall|r: int| 0 <= r < p.len() implies !is_full(#[trigger] p[r]) by {
        assert(has_hole(p, r));
        let c = choose|c: int| 0 <= c < COLS && p[r][c] == 0;
        assert(p[r].len() == COLS);
    }
    lemma_no_full_rows(p);
    assert(cleared(p) =~= p);
}

/// When every row of the board, once the piece is set into it, still has an
/// empty square, locking clears nothing: the board is the old board with the
/// piece's squares set to its kind, and neither score changes.
pub proof fn law_rows_with_a_hole_stay(s: MapState, next_id: usize)
    requires
        state_wf(s),
        forall|r: int| 0 <= r < ROWS ==> #[trigger] has_hole(locked_board(s), r),
    ensures
        map_locked(s, next_id).board == locked_board(s),
        map_locked(s, next_id).score == s.score,
        map_locked(s, next_id).best_score == s.best_score,
        forall|k: int| 0 <= k < s.block.shape.len() ==>
            map_locked(s, next_id).board[(#[trigger] s.block.shape[k])[1] as int][s.block.shape[k][0] as int] == s.block.id,
{
    lemma_locked_board_shape(s);
    lemma_holes_mean_no_full_rows(locked_board(s));
    assert(clear_gain(0) == 0) by (nonlinear_arith);
}

/// Whether every square of the row at `r` of a board is taken.
pub open spec fn no_hole(board: Seq<Seq<usize>>, r: int) -> bool {
    forall|c: int| 0 <= c < COLS ==> board[r][c] != 0
}

/// When some row of the board, once the piece is set into it, has no empty
/// square, locking scores at least 100 points.
pub proof fn law_full_row_scores(s: MapState, next_id: usize)
    requires
        state_wf(s),
        lock_room(s),
        exists|r: int| 0 <= r < ROWS && #[trigger] no_hole(locked_board(s), r),
    ensures
        map_locked(s, next_id).score >= s.score + 100,
{
    let p = locked_board(s);
    let r = choose|r: int| 0 <= r < ROWS && #[trigger] no_hole(locked_board(s), r);
    assert(p[r].len() == COLS);
    assert(is_full(p[r]));
    lemma_full_prefix(p, r);
    lemma_filter_step(p, r);
    lemma_full_suffix(p, r + 1);
    let k = full_rows(p).len();
    assert(k >= 1);
    assert(clear_gain(k) >= 100) by (nonlinear_arith)
        requires k >= 1;
}

proof fn lemma_single_full_prefix(p: Seq<Seq<usize>>, r0: int, i: int)
    requires
        0 <= r0 < p.len(),
        0 <= i <= p.len(),
        is_full(p[r0]),
        forall|r: int| 0 <= r < p.len() && r != r0 ==> !is_full(#[trigger] p[r]),
    ensures
        full_rows(p.take(i)).len() == (if i > r0 { 1nat } else { 0nat }),
    decreases i,
{
    if i == 0 {
        reveal_with_fuel(Seq::filter, 1);
        assert(p.take(0).len() == 0);
    } else {
        lemma_single_full_prefix(p, r0, i - 1);
        lemma_filter_step(p, i - 1);
    }
}

/// When exactly one row of the board, once the piece is set into it, has no
/// empty square, locking removes that row, brings one empty row in on top and
/// scores exactly 100 points.
pub proof fn law_one_full_row(s: MapState, next_id: usize, r0: int)
    requires
        state_wf(s),
        lock_room(s),
        0 <= r0 < ROWS,
        no_hole(locked_board(s), r0),
        forall|r: int| 0 <= r < ROWS && r != r0 ==> #[trigger] has_hole(locked_board(s), r),
    ensures
        map_locked(s, next_id).score == s.score + 100,
        map_locked(s, next_id).board == seq![Seq::new(COLS as nat, |c: int| 0usize)]
            + locked_board(s).take(r0) + locked_board(s).skip(r0 + 1),
{
    let p = locked_board(s);
    lemma_locked_board_shape(s);
    assert(is_full(p[r0]));
    assert forall|r: int| 0 <= r < p.len() && r != r0 implies !is_full(#[trigger] p[r]) by {
        assert(has_hole(p, r));
        let c = choose|c: int| 0 <= c < COLS && p[r][c] == 0;
    }
    lemma_single_full_prefix(p, r0, p.len() as int);
    assert(p.take(p.len() as int) =~= p);
    assert(clear_gain(1) == 100) by (nonlinear_arith);
    lemma_kept_without(p, r0, p.len() as int);
    assert(kept_rows(p) =~= p.take(r0) + p.skip(r0 + 1));
    assert(map_locked(s, next_id).board =~= seq![Seq::new(COLS as nat, |c: int| 0usize)] + p.take(r0) + p.skip(r0 + 1));
}

proof fn lemma_kept_without(p: Seq<Seq<usize>>, r0: int, i: int)
    requires
        0 <= r0 < p.len(),
        0 <= i <= p.len(),
        is_full(p[r0]),
        forall|r: int| 0 <= r < p.len() && r != r0 ==> !is_full(#[trigger] p[r]),
    ensures
        kept_rows(p.take(i)) == (if i > r0 { p.take(r0) + p.subrange(r0 + 1, i) } else { p.take(i) }),
    decreases i,
{
    if i == 0 {
        reveal_with_fuel(Seq::filter, 1);
        assert(p.take(0) =~= Seq::<Seq<usize>>::empty());
    } else {
        lemma_kept_without(p, r0, i - 1);
        lemma_filter_step(p, i - 1);
        if i - 1 > r0 {
            assert(p.take(r0) + p.subrange(r0 + 1, i) =~= (p.take(r0) + p.subrange(r0 + 1, i - 1)).push(p[i - 1]));
        } else if i - 1 == r0 {
            assert(p.subrange(r0 + 1, i) =~= Seq::<Seq<usize>>::empty());
            assert(p.take(r0) + p.subrange(r0 + 1, i) =~= p.take(r0));
        } else {
            assert(p.take(i) =~= p.take(i - 1).push(p[i - 1]));
        }
    }
    if i == p.len() {
        assert(p.subrange(r0 + 1, i) =~= p.skip(r0 + 1));
    }
}

// ----- Moving -----

/// An accepted sideways move shifts every square of the piece by one column in
/// that direction and keeps its row.
pub proof fn law_move_shifts_one_column(b: BlockState, direction: Move)
    requires
        block_placed(b),
        b.pos.x > isize::MIN + 1,
        b.pos.x < isize::MAX - 1,
        block_moved(b, direction) != b,
    ensures
        block_moved(b, direction).shape.len() == b.shape.len(),
        forall|k: int| 0 <= k < b.shape.len() ==> {
            &&& #[trigger] block_moved(b, direction).shape[k][1] == b.shape[k][1]
            &&& block_moved(b, direction).shape[k][0] as int == b.shape[k][0] as int
                + (if direction == Move::Left { -1int } else { 1int })
        },
{
    let m = block_moved(b, direction);
    assert forall|k: int| 0 <= k < b.shape.len() implies {
        &&& #[trigger] m.shape[k][1] == b.shape[k][1]
        &&& m.shape[k][0] as int == b.shape[k][0] as int + (if direction == Move::Left { -1int } else { 1int })
    } by {
        assert(0 <= cell_col(b.id, b.pos, b.rot, k) < COLS);
        assert(0 <= cell_col(b.id, m.pos, b.rot, k) < COLS);
    }
}

// ----- Spawning -----

/// The next piece is the chosen kind at the spawn position in rotation 0 when
/// all its squares are free; otherwise it is the marker of a lost game.
pub proof fn law_spawned_piece(board: Seq<Seq<usize>>, id: usize)
    ensures
        spawned(board, id).pos == (Pos { x: 3, y: 0 }),
        spawned(board, id).rot == 0,
        fits_on(board, placed_cells(id, Pos { x: 3, y: 0 }, 0)) ==> spawned(board, id).id == id,
        !fits_on(board, placed_cells(id, Pos { x: 3, y: 0 }, 0)) ==> spawned(board, id).id == 0,
{
}

// ----- Dropping -----

/// Whether the piece, one row lower, would leave the board or land on a taken square.
pub open spec fn drop_blocked(s: MapState) -> bool {
    match spec_make_shape(s.block.id, Pos { x: s.block.pos.x, y: (s.block.pos.y + 1) as isize }, s.block.rot) {
        None => true,
        Some(sh) => exists|k: int| 0 <= k < sh.len() && s.board[(#[trigger] sh[k])[1] as int][sh[k][0] as int] != 0,
    }
}

/// In a running game a piece that cannot go lower is locked: a new piece comes
/// in at the spawn position in rotation 0, and, when no row is completed, the
/// old piece's squares are left on the board in its kind.
pub proof fn law_blocked_piece_locks(s: MapState, next_id: usize)
    requires
        state_wf(s),
        !s.stop,
        drop_room(s),
        drop_blocked(s),
    ensures
        map_dropped(s, next_id).block.pos == (Pos { x: 3, y: 0 }),
        map_dropped(s, next_id).block.rot == 0,
        (forall|r: int| 0 <= r < ROWS ==> #[trigger] has_hole(locked_board(s), r)) ==>
            forall|k: int| 0 <= k < s.block.shape.len() ==>
                map_dropped(s, next_id).board[(#[trigger] s.block.shape[k])[1] as int][s.block.shape[k][0] as int] == s.block.id,
{
    assert(lowered(s.block) == Pos { x: s.block.pos.x, y: (s.block.pos.y + 1) as isize });
    match spec_make_shape(s.block.id, lowered(s.block), s.block.rot) {
        None => {}
        Some(sh) => {
            let k = choose|k: int| 0 <= k < sh.len() && s.board[(#[trigger] sh[k])[1] as int][sh[k][0] as int] != 0;
            assert(!fits_on(s.board, sh));
        }
    }
    assert(!can_drop(s));
    if forall|r: int| 0 <= r < ROWS ==> #[trigger] has_hole(locked_board(s), r) {
        law_rows_with_a_hole_stay(s, next_id);
    }
}

/// In a running game a piece that can go lower drops by exactly one row, and
/// nothing else changes.
pub proof fn law_free_piece_drops(s: MapState, next_id: usize)
    requires
        state_wf(s),
        !s.stop,
        !drop_blocked(s),
    ensures
        map_dropped(s, next_id).block.pos == (Pos { x: s.block.pos.x, y: (s.block.pos.y + 1) as isize }),
        map_dropped(s, next_id).block.id == s.block.id,
        map_dropped(s, next_id).block.rot == s.block.rot,
        map_dropped(s, next_id).board == s.board,
        map_dropped(s, next_id).score == s.score,
{
    assert(lowered(s.block) == Pos { x: s.block.pos.x, y: (s.block.pos.y + 1) as isize });
    let sh = spec_make_shape(s.block.id, lowered(s.block), s.block.rot).unwrap();
    assert forall|k: int| 0 <= k < sh.len() implies s.board[(#[trigger] sh[k])[1] as int][sh[k][0] as int] == 0 by {
        if s.board[sh[k][1] as int][sh[k][0] as int] != 0 {
            assert(drop_blocked(s));
        }
    }
    assert(can_drop(s));
}

// ----- The falling piece never overlaps settled squares -----

/// Whether every square of the falling piece is empty on the board.
pub open spec fn piece_on_empty(s: MapState) -> bool {
    forall|k: int| 0 <= k < s.block.shape.len() ==> s.board[(#[trigger] s.block.shape[k])[1] as int][s.block.shape[k][0] as int] == 0
}

/// Moving, turning and dropping keep the falling piece on empty squares: a
/// change that would put it on a taken square is refused.
pub proof fn law_piece_stays_on_empty(s: MapState, direction: Move, next_id: usize)
    requires
        state_wf(s),
        piece_on_empty(s),
    ensures
        piece_on_empty(map_moved(s, direction)),
        piece_on_empty(map_spun(s)),
        can_drop(s) || s.stop ==> piece_on_empty(map_dropped(s, next_id)),
{
}

// ----- The piece table -----

/// A square turned a quarter turn clockwise on the screen (rows grow downwards).
pub open spec fn turned(c: (usize, usize)) -> (int, int) {
    (-(c.1 as int), c.0 as int)
}

/// Whether the four squares of a piece are all different.
pub open spec fn distinct_cells(a: Seq<(usize, usize)>) -> bool {
    forall|i: int, j: int| 0 <= i < a.len() && 0 <= j < a.len() && i != j ==> a[i] != a[j]
}

/// Whether the square `t`, shifted by `(dx, dy)`, is one of the squares of `b`.
pub open spec fn lands_in(b: Seq<(usize, usize)>, t: (int, int), dx: int, dy: int) -> bool {
    exists|j: int| 0 <= j < b.len() && (#[trigger] b[j]).0 == t.0 + dx && b[j].1 == t.1 + dy
}

/// Whether every square of `a`, turned and shifted by `(dx, dy)`, is a square of `b`.
pub open spec fn turn_matches(a: Seq<(usize, usize)>, b: Seq<(usize, usize)>, dx: int, dy: int) -> bool {
    forall|k: int| 0 <= k < a.len() ==> lands_in(b, turned(#[trigger] a[k]), dx, dy)
}

/// Whether `b` holds the squares of `a` turned a quarter turn and then shifted.
pub open spec fn quarter_turn_of(a: Seq<(usize, usize)>, b: Seq<(usize, usize)>) -> bool {
    &&& a.len() == b.len()
    &&& exists|dx: int, dy: int| #[trigger] turn_matches(a, b, dx, dy)
}

proof fn lemma_turn_witness(a: Seq<(usize, usize)>, b: Seq<(usize, usize)>, dx: int, dy: int, j0: int, j1: int, j2: int, j3: int)
    requires
        a.len() == 4,
        b.len() == 4,
        0 <= j0 < 4 && 0 <= j1 < 4 && 0 <= j2 < 4 && 0 <= j3 < 4,
        b[j0].0 == turned(a[0]).0 + dx && b[j0].1 == turned(a[0]).1 + dy,
        b[j1].0 == turned(a[1]).0 + dx && b[j1].1 == turned(a[1]).1 + dy,
        b[j2].0 == turned(a[2]).0 + dx && b[j2].1 == turned(a[2]).1 + dy,
        b[j3].0 == turned(a[3]).0 + dx && b[j3].1 == turned(a[3]).1 + dy,
    ensures
        quarter_turn_of(a, b),
{
    assert forall|k: int| 0 <= k < a.len() implies lands_in(b, turned(#[trigger] a[k]), dx, dy) by {
        if k == 0 { assert(b[j0].0 == turned(a[0]).0 + dx); }
        else if k == 1 { assert(b[j1].0 == turned(a[1]).0 + dx); }
        else if k == 2 { assert(b[j2].0 == turned(a[2]).0 + dx); }
        else { assert(b[j3].0 == turned(a[3]).0 + dx); }
    }
    assert(turn_matches(a, b, dx, dy));
}

/// Every piece is made of four different squares, and each turn of a piece is
/// the previous rotation turned a quarter turn clockwise and shifted: every
/// rotation of a kind is the same tetromino.
pub proof fn law_turns_are_quarter_turns(id: usize, rot: usize)
    requires
        1 <= id < 8,
        rot < 4,
    ensures
        distinct_cells(shape_cells(id, rot)),
        quarter_turn_of(shape_cells(id, rot), shape_cells(id, next_rot(rot))),
{
    if id == 1 && rot == 0 {
        lemma_turn_witness(shape_cells(id, rot), shape_cells(id, next_rot(rot)), 3, 0, 0, 1, 2, 3);
    } else if id == 1 && rot == 1 {
        lemma_turn_witness(shape_cells(id, rot), shape_cells(id, next_rot(rot)), 3, 0, 3, 2, 1, 0);
    } else if id == 1 && rot == 2 {
        lemma_turn_witness(shape_cells(id, rot), shape_cells(id, next_rot(rot)), 3, 0, 0, 1, 2, 3);
    } else if id == 1 && rot == 3 {
        lemma_turn_witness(shape_cells(id, rot), shape_cells(id, next_rot(rot)), 3, 0, 3, 2, 1, 0);
    } else if id == 2 && rot == 0 {
        lemma_turn_witness(shape_cells(id, rot), shape_cells(id, next_rot(rot)), 2, 0, 2, 1, 0, 3);
    } else if id == 2 && rot == 1 {
        lemma_turn_witness(shape_cells(id, rot), shape_cells(id, next_rot(rot)), 2, 0, 2, 1, 3, 0);
    } else if id == 2 && rot == 2 {
        lemma_turn_witness(shape_cells(id, rot), shape_cells(id, next_rot(rot)), 2, 0, 0, 1, 3, 2);
    } else if id == 2 && rot == 3 {
        lemma_turn_witness(shape_cells(id, rot), shape_cells(id, next_rot(rot)), 2, 0, 3, 1, 0, 2);
    } else if id == 3 && rot == 0 {
        lemma_turn_witness(shape_cells(id, rot), shape_cells(id, next_rot(rot)), 2, -1, 1, 3, 0, 2);
    } else if id == 3 && rot == 1 {
        lemma_turn_witness(shape_cells(id, rot), shape_cells(id, next_rot(rot)), 2, -1, 1, 3, 0, 2);
    } else if id == 3 && rot == 2 {
        lemma_turn_witness(shape_cells(id, rot), shape_cells(id, next_rot(rot)), 2, -1, 1, 3, 0, 2);
    } else if id == 3 && rot == 3 {
        lemma_turn_witness(shape_cells(id, rot), shape_cells(id, next_rot(rot)), 2, -1, 1, 3, 0, 2);
    } else if id == 4 && rot == 0 {
        lemma_turn_witness(shape_cells(id, rot), shape_cells(id, next_rot(rot)), 2, 0, 0, 1, 2, 3);
    } else if id == 4 && rot == 1 {
        lemma_turn_witness(shape_cells(id, rot), shape_cells(id, next_rot(rot)), 2, 0, 2, 1, 0, 3);
    } else if id == 4 && rot == 2 {
        lemma_turn_witness(shape_cells(id, rot), shape_cells(id, next_rot(rot)), 2, 0, 0, 1, 2, 3);
    } else if id == 4 && rot == 3 {
        lemma_turn_witness(shape_cells(id, rot), shape_cells(id, next_rot(rot)), 2, 0, 2, 1, 0, 3);
    } else if id == 5 && rot == 0 {
        lemma_turn_witness(shape_cells(id, rot), shape_cells(id, next_rot(rot)), 2, 0, 0, 1, 2, 3);
    } else if id == 5 && rot == 1 {
        lemma_turn_witness(shape_cells(id, rot), shape_cells(id, next_rot(rot)), 2, 0, 2, 1, 0, 3);
    } else if id == 5 && rot == 2 {
        lemma_turn_witness(shape_cells(id, rot), shape_cells(id, next_rot(rot)), 2, 0, 0, 1, 2, 3);
    } else if id == 5 && rot == 3 {
        lemma_turn_witness(shape_cells(id, rot), shape_cells(id, next_rot(rot)), 2, 0, 2, 1, 0, 3);
    } else if id == 6 && rot == 0 {
        lemma_turn_witness(shape_cells(id, rot), shape_cells(id, next_rot(rot)), 2, 0, 3, 1, 2, 0);
    } else if id == 6 && rot == 1 {
        lemma_turn_witness(shape_cells(id, rot), shape_cells(id, next_rot(rot)), 2, 0, 0, 1, 2, 3);
    } else if id == 6 && rot == 2 {
        lemma_turn_witness(shape_cells(id, rot), shape_cells(id, next_rot(rot)), 2, 0, 0, 1, 2, 3);
    } else if id == 6 && rot == 3 {
        lemma_turn_witness(shape_cells(id, rot), shape_cells(id, next_rot(rot)), 2, 0, 3, 1, 2, 0);
    } else if id == 7 && rot == 0 {
        lemma_turn_witness(shape_cells(id, rot), shape_cells(id, next_rot(rot)), 2, 0, 0, 1, 2, 3);
    } else if id == 7 && rot == 1 {
        lemma_turn_witness(shape_cells(id, rot), shape_cells(id, next_rot(rot)), 2, 0, 3, 1, 2, 0);
    } else if id == 7 && rot == 2 {
        lemma_turn_witness(shape_cells(id, rot), shape_cells(id, next_rot(rot)), 2, 0, 0, 1, 2, 3);
    } else if id == 7 && rot == 3 {
        lemma_turn_witness(shape_cells(id, rot), shape_cells(id, next_rot(rot)), 2, 0, 3, 1, 2, 0);
    }

}

// ----- Colours -----

/// Only an empty square is drawn black, the seven kinds of piece have seven
/// different colours, and any other number is drawn as kind 7.
pub proof fn law_colours(a: usize, b: usize)
    ensures
        (color_of(a) == (0u8, 0u8, 0u8)) <==> a == 0,
        1 <= a < 8 && 1 <= b < 8 && a != b ==> color_of(a) != color_of(b),
        a >= 8 ==> color_of(a) == color_of(7),
{
}

} // verus!
