use vstd::prelude::*;
use crate::pos::{Pos, Move};
use crate::built_in::{COLS, ROWS, make_shape, spec_make_shape, shape_cells, placed_cells, cell_col, cell_row};
use crate::block::{Block, BlockState, block_placed, block_moved, block_spun, spawn_pos, copy_grid};
use crate::random::{thread_rng, gen_range};

verus! {

/// Whether a board has `ROWS` rows of `COLS` cells each.
pub open spec fn board_wf(board: Seq<Seq<usize>>) -> bool {
    &&& board.len() == ROWS
    &&& forall|r: int| 0 <= r < ROWS ==> (#[trigger] board[r]).len() == COLS
}

/// Whether every cell of a shape is a `[column, row]` pair inside the board.
pub open spec fn on_board(cells: Seq<Seq<usize>>) -> bool {
    forall|k: int| 0 <= k < cells.len() ==> {
        &&& (#[trigger] cells[k]).len() == 2
        &&& cells[k][0] < COLS
        &&& cells[k][1] < ROWS
    }
}

/// Whether every cell of a shape lies on an empty square of the board.
pub open spec fn fits_on(board: Seq<Seq<usize>>, cells: Seq<Seq<usize>>) -> bool {
    forall|k: int| 0 <= k < cells.len() ==> board[(#[trigger] cells[k])[1] as int][cells[k][0] as int] == 0
}

/// Whether some cell of the shape is the square at row `r`, column `c`.
pub open spec fn covers(cells: Seq<Seq<usize>>, r: int, c: int) -> bool {
    exists|k: int| 0 <= k < cells.len() && (#[trigger] cells[k])[0] == c && cells[k][1] == r
}

/// The board with the squares of `cells` set to `id`.
pub open spec fn place(board: Seq<Seq<usize>>, cells: Seq<Seq<usize>>, id: usize) -> Seq<Seq<usize>> {
    Seq::new(
        board.len(),
        |r: int| Seq::new(board[r].len(), |c: int| if covers(cells, r, c) { id } else { board[r][c] }),
    )
}

/// Whether the falling block is consistent and at or below the top row.
pub open spec fn block_ok(b: BlockState) -> bool {
    &&& block_placed(b)
    &&& b.pos.y >= 0
}

proof fn lemma_shape_cells_small(id: usize, rot: usize)
    ensures
        shape_cells(id, rot).len() == 4,
        forall|k: int| 0 <= k < 4 ==> (#[trigger] shape_cells(id, rot)[k]).0 <= 3 && shape_cells(id, rot)[k].1 <= 3,
{
}

/// A consistent block at or below the top row has all its cells on the board,
/// and its frame lies within a few columns and rows of it.
pub proof fn lemma_block_on_board(b: BlockState)
    requires
        block_ok(b),
    ensures
        on_board(b.shape),
        b.shape.len() == 4,
        -3 <= b.pos.x <= 9,
        0 <= b.pos.y <= 20,
{
    lemma_shape_cells_small(b.id, b.rot);
    assert forall|k: int| 0 <= k < b.shape.len() implies {
        &&& (#[trigger] b.shape[k]).len() == 2
        &&& b.shape[k][0] < COLS
        &&& b.shape[k][1] < ROWS
    } by {
        assert(0 <= cell_col(b.id, b.pos, b.rot, k) < COLS);
        assert(cell_row(b.id, b.pos, b.rot, k) < ROWS);
        assert(shape_cells(b.id, b.rot)[k].1 + b.pos.y >= 0);
    }
    assert(0 <= cell_col(b.id, b.pos, b.rot, 0) < COLS);
    assert(cell_row(b.id, b.pos, b.rot, 0) < ROWS);
}

/// A piece of any kind fits at the spawn position in rotation 0.
pub proof fn lemma_spawn_fits(id: usize)
    ensures
        spec_make_shape(id, spawn_pos(), 0) is Some,
        block_ok(BlockState { shape: placed_cells(id, spawn_pos(), 0), pos: spawn_pos(), id: id, rot: 0 }),
{
    lemma_shape_cells_small(id, 0);
    assert forall|k: int| 0 <= k < 4 implies {
        &&& 0 <= #[trigger] cell_col(id, spawn_pos(), 0, k) < COLS
        &&& cell_row(id, spawn_pos(), 0, k) < ROWS
    } by {
        assert(shape_cells(id, 0)[k].0 <= 3);
    }
}

/// Whether every cell of `cells` is empty on `board`.
fn cells_free(board: &Vec<Vec<usize>>, cells: &Vec<Vec<usize>>) -> (res: bool)
    requires
        board_wf(board.deep_view()),
        on_board(cells.deep_view()),
    ensures
        res == fits_on(board.deep_view(), cells.deep_view()),
{
    let mut k: usize = 0;
    while k < cells.len()
        invariant
            k <= cells.len(),
            board_wf(board.deep_view()),
            on_board(cells.deep_view()),
            forall|j: int| 0 <= j < k ==> board.deep_view()[(#[trigger] cells.deep_view()[j])[1] as int][cells.deep_view()[j][0] as int] == 0,
        decreases cells.len() - k,
    {
        assert(cells.deep_view()[k as int].len() == 2);
        let x: usize = cells[k][0];
        let y: usize = cells[k][1];
        assert(board.deep_view()[y as int].len() == COLS);
        if board[y][x] != 0 {
            return false;
        }
        k = k + 1;
    }
    true
}

/// Sets the squares of `cells` on `board` to `id`.
fn place_cells(board: &mut Vec<Vec<usize>>, cells: &Vec<Vec<usize>>, id: usize)
    requires
        board_wf(old(board).deep_view()),
        on_board(cells.deep_view()),
    ensures
        final(board).deep_view() == place(old(board).deep_view(), cells.deep_view(), id),
        board_wf(final(board).deep_view()),
{
    let ghost b0 = board.deep_view();
    let ghost cs = cells.deep_view();
    let mut k: usize = 0;
    while k < cells.len()
        invariant
            k <= cells.len(),
            cs == cells.deep_view(),
            on_board(cs),
            board_wf(b0),
            board_wf(board.deep_view()),
            forall|r: int, c: int| 0 <= r < ROWS && 0 <= c < COLS ==>
                #[trigger] board.deep_view()[r][c] == if covers(cs.take(k as int), r, c) { id } else { b0[r][c] },
        decreases cells.len() - k,
    {
        assert(cs[k as int].len() == 2);
        let x: usize = cells[k][0];
        let y: usize = cells[k][1];
        let ghost before = board.deep_view();
        assert(board.deep_view()[y as int] == board@[y as int].deep_view());
        assert(board@[y as int]@.len() == COLS);
        board[y][x] = id;
        assert(board.deep_view() =~~= before.update(y as int, before[y as int].update(x as int, id)));
        assert forall|r: int, c: int| 0 <= r < ROWS && 0 <= c < COLS implies
            #[trigger] board.deep_view()[r][c] == if covers(cs.take(k + 1), r, c) { id } else { b0[r][c] }
        by {
            if r == y && c == x {
                assert(cs.take(k + 1)[k as int] == cs[k as int]);
            } else {
                assert(board.deep_view()[r][c] == before[r][c]);
                if covers(cs.take(k + 1), r, c) {
                    let j = choose|j: int| 0 <= j < k + 1 && (#[trigger] cs.take(k + 1)[j])[0] == c && cs.take(k + 1)[j][1] == r;
                    assert(j != k);
                    assert(cs.take(k as int)[j] == cs[j]);
                }
                if covers(cs.take(k as int), r, c) {
                    let j = choose|j: int| 0 <= j < k && (#[trigger] cs.take(k as int)[j])[0] == c && cs.take(k as int)[j][1] == r;
                    assert(cs.take(k + 1)[j] == cs[j]);
                }
            }
        }
        k = k + 1;
    }
    assert(cs.take(cells.len() as int) == cs);
    assert(board.deep_view() =~~= place(b0, cs, id));
}

/// The game: the settled squares (0 for empty, else the kind of piece that left
/// it), the falling piece, the score and the best score so far, and a flag that
/// is up while a piece is being locked.
#[derive(Debug, Clone)]
pub struct GameMap {
    pub map: Vec<Vec<usize>>,
    pub block: Block,
    pub score: usize,
    pub best_score: usize,
    pub stop: bool,
}

/// What a game stands for.
#[verifier::ext_equal]
pub struct MapState {
    pub board: Seq<Seq<usize>>,
    pub block: BlockState,
    pub score: usize,
    pub best_score: usize,
    pub stop: bool,
}

impl View for GameMap {
    type V = MapState;

    open spec fn view(&self) -> MapState {
        MapState {
            board: self.map.deep_view(),
            block: self.block@,
            score: self.score,
            best_score: self.best_score,
            stop: self.stop,
        }
    }
}

/// Whether a game is well formed: a full-size board and a consistent falling
/// piece at or below the top row. Every operation keeps this.
pub open spec fn state_wf(s: MapState) -> bool {
    &&& board_wf(s.board)
    &&& block_ok(s.block)
}

/// A row of empty squares.
pub open spec fn empty_row() -> Seq<usize> {
    Seq::new(COLS as nat, |c: int| 0usize)
}

/// The game with its falling piece replaced.
pub open spec fn with_block(s: MapState, b: BlockState) -> MapState {
    MapState { board: s.board, block: b, score: s.score, best_score: s.best_score, stop: s.stop }
}

/// A new piece of kind `id` at the spawn position in rotation 0.
pub open spec fn fresh_block(id: usize) -> BlockState {
    BlockState { shape: placed_cells(id, spawn_pos(), 0), pos: spawn_pos(), id: id, rot: 0 }
}

/// The piece that appears next: the new piece of kind `id` if all its squares are
/// empty on `board`, else the marker of a lost game (kind 0).
pub open spec fn spawned(board: Seq<Seq<usize>>, id: usize) -> BlockState {
    if fits_on(board, fresh_block(id).shape) { fresh_block(id) } else { fresh_block(0) }
}

/// A new game: an empty board, a piece of kind `id`, score 0.
pub open spec fn new_game(id: usize, best_score: usize) -> MapState {
    MapState {
        board: Seq::new(ROWS as nat, |r: int| empty_row()),
        block: fresh_block(id),
        score: 0,
        best_score: best_score,
        stop: false,
    }
}

/// The game after a sideways move: the piece moves where it stays on the board
/// and its new squares are empty; nothing changes while `stop` is up.
pub open spec fn map_moved(s: MapState, direction: Move) -> MapState {
    if s.stop {
        s
    } else if fits_on(s.board, block_moved(s.block, direction).shape) {
        with_block(s, block_moved(s.block, direction))
    } else {
        s
    }
}

/// The game after a turn of the piece, accepted on the same terms as a move.
pub open spec fn map_spun(s: MapState) -> MapState {
    if s.stop {
        s
    } else if fits_on(s.board, block_spun(s.block).shape) {
        with_block(s, block_spun(s.block))
    } else {
        s
    }
}

/// A list of `n` empty rows.
pub open spec fn empty_rows(n: nat) -> Seq<Seq<usize>> {
    Seq::new(n, |i: int| empty_row())
}

/// Whether a row has no empty square.
pub open spec fn is_full(row: Seq<usize>) -> bool {
    forall|c: int| 0 <= c < row.len() ==> row[c] != 0
}

/// The full rows of a board, top to bottom.
pub open spec fn full_rows(board: Seq<Seq<usize>>) -> Seq<Seq<usize>> {
    board.filter(|row: Seq<usize>| is_full(row))
}

/// The rows of a board that are not full, top to bottom.
pub open spec fn kept_rows(board: Seq<Seq<usize>>) -> Seq<Seq<usize>> {
    board.filter(|row: Seq<usize>| !is_full(row))
}

/// The board once its full rows are gone: as many empty rows on top, then the
/// other rows in their order.
pub open spec fn cleared(board: Seq<Seq<usize>>) -> Seq<Seq<usize>> {
    empty_rows(full_rows(board).len()) + kept_rows(board)
}

/// Points for clearing `k` rows at once: the n-th of them is worth `100 * n`.
pub open spec fn clear_gain(k: nat) -> nat {
    50 * k * (k + 1)
}

/// The board with the falling piece set into it.
pub open spec fn locked_board(s: MapState) -> Seq<Seq<usize>> {
    place(s.board, s.block.shape, s.block.id)
}

/// Whether the score can take the points that locking the piece earns.
pub open spec fn lock_room(s: MapState) -> bool {
    s.score + clear_gain(full_rows(locked_board(s)).len()) <= usize::MAX
}

/// The game after the falling piece is locked: its squares are set into the
/// board, full rows are cleared and scored, the best score follows the score
/// when rows were cleared, and the next piece (of kind `next_id`, checked
/// against the board as it was before the lock) appears.
pub open spec fn map_locked(s: MapState, next_id: usize) -> MapState {
    let p = locked_board(s);
    let k = full_rows(p).len();
    let score = s.score + clear_gain(k);
    MapState {
        board: cleared(p),
        block: spawned(s.board, next_id),
        score: score as usize,
        best_score: if k > 0 && score > s.best_score { score as usize } else { s.best_score },
        stop: false,
    }
}

/// The piece one row lower, if it stays on the board.
pub open spec fn lowered(b: BlockState) -> Pos {
    Pos { x: b.pos.x, y: (b.pos.y + 1) as isize }
}

/// Whether the piece can drop one row: it stays on the board and lands on empty squares.
pub open spec fn can_drop(s: MapState) -> bool {
    match spec_make_shape(s.block.id, lowered(s.block), s.block.rot) {
        Some(shape) => fits_on(s.board, shape),
        None => false,
    }
}

/// The game after the piece is pushed down one row: it drops when it can, else
/// it is locked and `next_id` comes next; nothing changes while `stop` is up.
pub open spec fn map_dropped(s: MapState, next_id: usize) -> MapState {
    if s.stop {
        s
    } else if can_drop(s) {
        with_block(s, BlockState {
            shape: spec_make_shape(s.block.id, lowered(s.block), s.block.rot).unwrap(),
            pos: lowered(s.block),
            id: s.block.id,
            rot: s.block.rot,
        })
    } else {
        map_locked(s, next_id)
    }
}

/// Whether pushing the piece down has room for the points it may earn.
pub open spec fn drop_room(s: MapState) -> bool {
    !s.stop && !can_drop(s) ==> lock_room(s)
}

/// A row of `COLS` empty squares.
fn empty_row_vec() -> (row: Vec<usize>)
    ensures
        row@ == empty_row(),
        row.deep_view() == empty_row(),
{
    let mut row: Vec<usize> = Vec::new();
    let mut c: usize = 0;
    while c < COLS
        invariant
            c <= COLS,
            row@ == Seq::new(c as nat, |j: int| 0usize),
        decreases COLS - c,
    {
        row.push(0);
        c = c + 1;
        assert(row@ =~= Seq::new(c as nat, |j: int| 0usize));
    }
    assert(row@ =~= empty_row());
    assert(row.deep_view() =~= row@);
    row
}

/// Whether a row of the board has no empty square.
fn row_full(row: &Vec<usize>) -> (res: bool)
    ensures
        res == is_full(row.deep_view()),
{
    assert(row.deep_view() =~= row@);
    let mut c: usize = 0;
    while c < row.len()
        invariant
            c <= row.len(),
            row.deep_view() == row@,
            forall|j: int| 0 <= j < c ==> row@[j] != 0,
        decreases row.len() - c,
    {
        if row[c] == 0 {
            return false;
        }
        c = c + 1;
    }
    true
}

pub proof fn lemma_filter_step(p: Seq<Seq<usize>>, i: int)
    requires
        0 <= i < p.len(),
    ensures
        full_rows(p.take(i + 1)) == (if is_full(p[i]) { full_rows(p.take(i)).push(p[i]) } else { full_rows(p.take(i)) }),
        kept_rows(p.take(i + 1)) == (if is_full(p[i]) { kept_rows(p.take(i)) } else { kept_rows(p.take(i)).push(p[i]) }),
{
    reveal_with_fuel(Seq::filter, 1);
    assert(p.take(i + 1).drop_last() =~= p.take(i));
    assert(p.take(i + 1).last() == p[i]);
}

pub proof fn lemma_full_prefix(p: Seq<Seq<usize>>, i: int)
    requires
        0 <= i <= p.len(),
    ensures
        full_rows(p.take(i)).len() <= full_rows(p).len(),
        full_rows(p.take(i)).len() + kept_rows(p.take(i)).len() == i,
    decreases i,
{
    if i == 0 {
        reveal_with_fuel(Seq::filter, 1);
        assert(p.take(0).len() == 0);
        lemma_full_suffix(p, 0);
    } else {
        lemma_full_prefix(p, i - 1);
        lemma_filter_step(p, i - 1);
        lemma_full_suffix(p, i);
    }
}

pub proof fn lemma_full_suffix(p: Seq<Seq<usize>>, i: int)
    requires
        0 <= i <= p.len(),
    ensures
        full_rows(p.take(i)).len() <= full_rows(p).len(),
    decreases p.len() - i,
{
    if i == p.len() {
        assert(p.take(i) =~= p);
    } else {
        lemma_filter_step(p, i);
        lemma_full_suffix(p, i + 1);
    }
}

pub proof fn lemma_gain_step(c: nat, k: nat)
    requires
        c + 1 <= k,
    ensures
        clear_gain(c + 1) == clear_gain(c) + 100 * (c + 1),
        clear_gain(c + 1) <= clear_gain(k),
{
    assert(50 * (c + 1) * (c + 2) == 50 * c * (c + 1) + 100 * (c + 1)) by (nonlinear_arith);
    assert(50 * (c + 1) * (c + 2) <= 50 * k * (k + 1)) by (nonlinear_arith)
        requires c + 1 <= k;
}

impl GameMap {
    /// A new game with a piece of kind `id` and the best score read from storage.
    pub fn with_block(id: usize, best_score: usize) -> (res: Self)
        ensures
            res@ == new_game(id, best_score),
            state_wf(res@),
    {
        proof { lemma_spawn_fits(id); }
        let block: Block = Block::new(id, None, 0);
        let mut map: Vec<Vec<usize>> = Vec::new();
        let mut r: usize = 0;
        while r < ROWS
            invariant
                r <= ROWS,
                map.deep_view() == Seq::new(r as nat, |i: int| empty_row()),
            decreases ROWS - r,
        {
            let row = empty_row_vec();
            let ghost before = map.deep_view();
            map.push(row);
            assert(map.deep_view() =~~= before.push(empty_row()));
            r = r + 1;
            assert(map.deep_view() =~~= Seq::new(r as nat, |i: int| empty_row()));
        }
        let res = Self { map: map, block: block, score: 0, best_score: best_score, stop: false };
        assert(res@.block == fresh_block(id));
        assert(res@ =~~= new_game(id, best_score));
        res
    }

    /// A new game whose first piece is drawn at random among kinds 1 to 7.
    pub fn new(best_score: usize) -> (res: Self)
        ensures
            exists|id: usize| 1 <= id < 8 && res@ == #[trigger] new_game(id, best_score),
            state_wf(res@),
    {
        let mut rng = thread_rng();
        let id: usize = gen_range(&mut rng, 1, 8);
        Self::with_block(id, best_score)
    }

    /// Replaces the falling piece by a new one of kind `id`, or by the marker of a
    /// lost game when one of its squares is taken.
    pub fn spawn_block_with(&mut self, id: usize)
        requires
            board_wf(old(self).map.deep_view()),
        ensures
            final(self)@ == with_block(old(self)@, spawned(old(self)@.board, id)),
    {
        proof {
            lemma_spawn_fits(id);
            lemma_spawn_fits(0);
            lemma_block_on_board(fresh_block(id));
        }
        let block: Block = Block::new(id, None, 0);
        assert(block@ == fresh_block(id));
        if !cells_free(&self.map, &block.shape) {
            self.block = Block::new(0, None, 0);
            assert(self.block@ == fresh_block(0));
            return;
        }
        self.block = block;
    }

    /// Replaces the falling piece by a new one of a kind drawn at random among 1 to 7.
    pub fn spawn_block(&mut self)
        requires
            board_wf(old(self).map.deep_view()),
        ensures
            exists|id: usize| 1 <= id < 8 && final(self)@ == with_block(old(self)@, #[trigger] spawned(old(self)@.board, id)),
    {
        let mut rng = thread_rng();
        let id: usize = gen_range(&mut rng, 1, 8);
        self.spawn_block_with(id);
    }

    /// Whether all squares of `block_shape` are empty.
    pub fn check(&mut self, block_shape: &Vec<Vec<usize>>) -> (res: bool)
        requires
            board_wf(old(self).map.deep_view()),
            on_board(block_shape.deep_view()),
        ensures
            *final(self) == *old(self),
            res == fits_on(old(self).map.deep_view(), block_shape.deep_view()),
    {
        cells_free(&self.map, block_shape)
    }

    /// Moves the falling piece one column, where it stays on the board and lands
    /// on empty squares.
    pub fn move_block(&mut self, direction: Move)
        requires
            state_wf(old(self)@),
        ensures
            final(self)@ == map_moved(old(self)@, direction),
            state_wf(final(self)@),
    {
        if self.stop {
            return;
        }
        proof { lemma_block_on_board(self.block@); }
        let mut block_clone = self.block.duplicate();
        block_clone.move_block(direction);
        proof {
            assert(block_ok(block_clone@));
            lemma_block_on_board(block_clone@);
        }
        let ok = self.check(&block_clone.shape);
        if ok {
            self.block = block_clone;
        }
    }

    /// Turns the falling piece, where it stays on the board and lands on empty squares.
    pub fn spin_block(&mut self)
        requires
            state_wf(old(self)@),
        ensures
            final(self)@ == map_spun(old(self)@),
            state_wf(final(self)@),
    {
        if self.stop {
            return;
        }
        let mut block_clone = self.block.duplicate();
        block_clone.spin();
        proof {
            assert(block_ok(block_clone@));
            lemma_block_on_board(block_clone@);
        }
        if self.check(&block_clone.shape) {
            self.block = block_clone;
        }
    }

    /// Locks the falling piece into the board, clears the full rows and scores
    /// them, and brings in a piece of kind `next_id` (or the marker of a lost game
    /// when its squares were taken before the lock).
    pub fn set_block_with(&mut self, next_id: usize)
        requires
            state_wf(old(self)@),
            lock_room(old(self)@),
        ensures
            final(self)@ == map_locked(old(self)@, next_id),
            state_wf(final(self)@),
            forall|r: int| 0 <= r < ROWS ==> !is_full(#[trigger] final(self)@.board[r]),
    {
        let ghost s0 = self@;
        proof { lemma_block_on_board(self.block@); }
        let block = self.block.duplicate();
        self.spawn_block_with(next_id);
        place_cells(&mut self.map, &block.shape, block.id);
        let ghost p = self.map.deep_view();
        assert(p == locked_board(s0));
        let mut earn: usize = 10;
        self.stop = true;
        let snapshot = copy_grid(&self.map);
        proof {
            assert(p.take(0) =~= Seq::<Seq<usize>>::empty());
            reveal_with_fuel(Seq::filter, 1);
            assert(full_rows(p.take(0)).len() == 0);
            assert(clear_gain(0) == 0) by (nonlinear_arith);
            assert(self.map.deep_view() =~= empty_rows(0) + kept_rows(p.take(0)) + p.skip(0));
        }
        let mut i: usize = 0;
        while i < snapshot.len()
            invariant
                i <= ROWS,
                snapshot.deep_view() == p,
                board_wf(p),
                p == locked_board(s0),
                lock_room(s0),
                self.map.deep_view() == empty_rows(full_rows(p.take(i as int)).len())
                    + kept_rows(p.take(i as int)) + p.skip(i as int),
                self.score == s0.score + clear_gain(full_rows(p.take(i as int)).len()),
                earn == 10 * (full_rows(p.take(i as int)).len() + 1),
                self.best_score == (if full_rows(p.take(i as int)).len() > 0 && self.score > s0.best_score {
                    self.score
                } else {
                    s0.best_score
                }),
                self.block@ == spawned(s0.board, next_id),
                self.stop,
                board_wf(self.map.deep_view()),
                forall|r: int| 0 <= r < i ==> !is_full(#[trigger] self.map.deep_view()[r]),
            decreases ROWS - i,
        {
            let ghost c = full_rows(p.take(i as int)).len();
            let ghost m = self.map.deep_view();
            proof {
                lemma_full_prefix(p, i as int);
                lemma_full_prefix(p, i + 1);
                lemma_filter_step(p, i as int);
                assert(m[i as int] == p[i as int]);
                assert(snapshot.deep_view()[i as int] == snapshot@[i as int].deep_view());
            }
            if row_full(&snapshot[i]) {
                proof { lemma_gain_step(c, full_rows(p).len()); }
                self.score = self.score + 10 * earn;
                earn = earn + 10;
                self.map.remove(i);
                assert(self.map.deep_view() =~~= m.remove(i as int));
                let row = empty_row_vec();
                self.map.insert(0, row);
                assert(self.map.deep_view() =~~= m.remove(i as int).insert(0, empty_row()));
                assert(self.map.deep_view() =~~= empty_rows(c + 1) + kept_rows(p.take(i + 1)) + p.skip(i + 1));
                assert forall|r: int| 0 <= r < i + 1 implies !is_full(#[trigger] self.map.deep_view()[r]) by {
                    if r == 0 {
                        assert(self.map.deep_view()[0][0] == 0);
                    } else {
                        assert(self.map.deep_view()[r] == m[r - 1]);
                    }
                }
                if self.score > self.best_score {
                    self.best_score = self.score;
                }
            } else {
                assert(m =~~= empty_rows(c) + kept_rows(p.take(i + 1)) + p.skip(i + 1));
                assert(!is_full(m[i as int]));
            }
            i = i + 1;
        }
        proof {
            assert(p.take(ROWS as int) =~= p);
            assert(p.skip(ROWS as int) =~= Seq::<Seq<usize>>::empty());
            assert(self.map.deep_view() =~~= cleared(p));
        }
        self.stop = false;
        proof {
            lemma_spawn_fits(next_id);
            lemma_spawn_fits(0);
        }
        assert(self@ =~~= map_locked(s0, next_id));
    }

    /// Locks the falling piece as `set_block_with` does, the next piece being of a
    /// kind drawn at random among 1 to 7.
    pub fn set_block(&mut self)
        requires
            state_wf(old(self)@),
            lock_room(old(self)@),
        ensures
            exists|id: usize| 1 <= id < 8 && final(self)@ == #[trigger] map_locked(old(self)@, id),
            state_wf(final(self)@),
            forall|r: int| 0 <= r < ROWS ==> !is_full(#[trigger] final(self)@.board[r]),
    {
        let mut rng = thread_rng();
        let id: usize = gen_range(&mut rng, 1, 8);
        self.set_block_with(id);
    }

    /// Pushes the falling piece down one row; where it cannot go lower it is
    /// locked, and the next piece is drawn at random among kinds 1 to 7.
    pub fn down_block(&mut self)
        requires
            state_wf(old(self)@),
            drop_room(old(self)@),
        ensures
            exists|id: usize| 1 <= id < 8 && final(self)@ == #[trigger] map_dropped(old(self)@, id),
            state_wf(final(self)@),
    {
        let ghost s0 = self@;
        if self.stop {
            assert(map_dropped(s0, 1) == self@);
            return;
        }
        proof { lemma_block_on_board(self.block@); }
        self.block.pos.y = self.block.pos.y + 1;
        match make_shape(self.block.id, self.block.pos, self.block.rot) {
            Ok(ok) => {
                let test_block = ok;
                proof {
                    lemma_block_on_board(BlockState {
                        shape: test_block.deep_view(),
                        pos: self.block.pos,
                        id: self.block.id,
                        rot: self.block.rot,
                    });
                }
                let ok2 = self.check(&test_block);
                if ok2 {
                    self.block.shape = test_block;
                    assert(map_dropped(s0, 1) =~~= self@);
                } else {
                    self.block.pos.y = self.block.pos.y - 1;
                    assert(self@ =~~= s0);
                    self.set_block();
                    let ghost id = choose|id: usize| 1 <= id < 8 && self@ == #[trigger] map_locked(s0, id);
                    assert(map_dropped(s0, id) == self@);
                }
            }
            Err(_) => {
                self.block.pos.y = self.block.pos.y - 1;
                assert(self@ =~~= s0);
                self.set_block();
                let ghost id = choose|id: usize| 1 <= id < 8 && self@ == #[trigger] map_locked(s0, id);
                assert(map_dropped(s0, id) == self@);
            }
        };
    }

    /// Whether the score can take the points that locking the falling piece
    /// now would earn.
    pub fn lock_room_ok(&self) -> (ok: bool)
        requires
            state_wf(self@),
        ensures
            ok == lock_room(self@),
    {
        let frame = self.encoding();
        let ghost p = frame.deep_view();
        proof {
            reveal_with_fuel(Seq::filter, 1);
            assert(p.take(0) =~= Seq::<Seq<usize>>::empty());
            assert(full_rows(p.take(0)).len() == 0);
        }
        let mut k: usize = 0;
        let mut i: usize = 0;
        while i < frame.len()
            invariant
                i <= frame.len(),
                p == frame.deep_view(),
                k == full_rows(p.take(i as int)).len(),
                k <= i,
            decreases frame.len() - i,
        {
            proof {
                lemma_filter_step(p, i as int);
                lemma_full_prefix(p, i + 1);
                assert(frame.deep_view()[i as int] == frame@[i as int].deep_view());
            }
            if row_full(&frame[i]) {
                k = k + 1;
            }
            i = i + 1;
        }
        proof {
            assert(p.take(frame.len() as int) =~= p);
            assert(k <= ROWS);
        }
        assert(50 * k * (k + 1) <= 21000) by (nonlinear_arith)
            requires k <= 20;
        let gain: usize = 50 * k * (k + 1);
        self.score <= usize::MAX - gain
    }

    /// Whether pushing the falling piece down has room in the score for the
    /// points it may earn: always, unless the piece would be locked.
    pub fn drop_room_ok(&self) -> (ok: bool)
        requires
            state_wf(self@),
        ensures
            ok == drop_room(self@),
    {
        if self.stop {
            return true;
        }
        proof { lemma_block_on_board(self.block@); }
        let lower = Pos { x: self.block.pos.x, y: self.block.pos.y + 1 };
        match make_shape(self.block.id, lower, self.block.rot) {
            Ok(shape) => {
                proof {
                    lemma_block_on_board(BlockState {
                        shape: shape.deep_view(),
                        pos: lower,
                        id: self.block.id,
                        rot: self.block.rot,
                    });
                }
                if cells_free(&self.map, &shape) {
                    return true;
                }
                self.lock_room_ok()
            }
            Err(_) => self.lock_room_ok(),
        }
    }

    /// The picture of the game: the board with the falling piece drawn into it.
    pub fn encoding(&self) -> (frame: Vec<Vec<usize>>)
        requires
            state_wf(self@),
        ensures
            frame.deep_view() == locked_board(self@),
    {
        proof { lemma_block_on_board(self.block@); }
        let mut frame = copy_grid(&self.map);
        place_cells(&mut frame, &self.block.shape, self.block.id);
        frame
    }
}

/// The board as a fixed-size array, as it is sent to the other player.
pub fn to_array(vec: &Vec<Vec<usize>>) -> (arr: [[usize; 10]; 20])
    requires
        board_wf(vec.deep_view()),
    ensures
        forall|i: int, j: int| 0 <= i < ROWS && 0 <= j < COLS ==> #[trigger] arr[i][j] == vec.deep_view()[i][j],
{
    let mut arr: [[usize; 10]; 20] = [[0usize; 10]; 20];
    let mut i: usize = 0;
    while i < ROWS
        invariant
            i <= ROWS,
            board_wf(vec.deep_view()),
            forall|r: int, c: int| 0 <= r < i && 0 <= c < COLS ==> #[trigger] arr[r][c] == vec.deep_view()[r][c],
        decreases ROWS - i,
    {
        let mut row: [usize; 10] = [0usize; 10];
        let mut j: usize = 0;
        assert(vec.deep_view()[i as int] == vec@[i as int]@);
        while j < COLS
            invariant
                i < ROWS,
                j <= COLS,
                board_wf(vec.deep_view()),
                vec.deep_view()[i as int] == vec@[i as int]@,
                forall|c: int| 0 <= c < j ==> #[trigger] row[c] == vec.deep_view()[i as int][c],
            decreases COLS - j,
        {
            row[j] = vec[i][j];
            j = j + 1;
        }
        arr[i] = row;
        i = i + 1;
    }
    arr
}

} // verus!
