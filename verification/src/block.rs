use vstd::prelude::*;
use crate::pos::{Pos, Move};
use crate::built_in::{make_shape, spec_make_shape};

verus! {

/// A piece: its cells on the board, the corner of its frame, its kind and its rotation.
#[derive(Debug, Clone)]
pub struct Block {
    pub shape: Vec<Vec<usize>>,
    pub pos: Pos,
    pub id: usize,
    pub rot: usize,
}

/// What a block stands for: its cells, position, kind and rotation.
#[verifier::ext_equal]
pub struct BlockState {
    pub shape: Seq<Seq<usize>>,
    pub pos: Pos,
    pub id: usize,
    pub rot: usize,
}

impl View for Block {
    type V = BlockState;

    open spec fn view(&self) -> BlockState {
        BlockState { shape: self.shape.deep_view(), pos: self.pos, id: self.id, rot: self.rot }
    }
}

/// Whether the cells of `b` are the ones its kind, position and rotation give,
/// with the rotation one of the four.
pub open spec fn block_placed(b: BlockState) -> bool {
    &&& b.rot < 4
    &&& spec_make_shape(b.id, b.pos, b.rot) == Some(b.shape)
}

/// The block after a sideways move: shifted where the piece still fits, else unchanged.
pub open spec fn block_moved(b: BlockState, direction: Move) -> BlockState {
    match spec_make_shape(b.id, shifted(b.pos, direction), b.rot) {
        Some(s) => BlockState { shape: s, pos: shifted(b.pos, direction), id: b.id, rot: b.rot },
        None => b,
    }
}

/// The block after a turn: in its next rotation where the piece fits there, else with
/// the cells kept and the rotation stepped back from the next one.
pub open spec fn block_spun(b: BlockState) -> BlockState {
    match spec_make_shape(b.id, b.pos, next_rot(b.rot)) {
        Some(s) => BlockState { shape: s, pos: b.pos, id: b.id, rot: next_rot(b.rot) },
        None => BlockState { shape: b.shape, pos: b.pos, id: b.id, rot: prev_rot(next_rot(b.rot)) },
    }
}

/// Whether `b` is the marker of a lost game: the cells of kind 0 in rotation 0 at its position.
pub open spec fn block_is_none(b: BlockState) -> bool {
    spec_make_shape(0, b.pos, 0) == Some(b.shape)
}

/// Where a new piece appears when no position is given.
pub open spec fn spawn_pos() -> Pos {
    Pos { x: 3, y: 0 }
}

/// The position one column to the left or right of `pos`.
pub open spec fn shifted(pos: Pos, direction: Move) -> Pos {
    match direction {
        Move::Left => Pos { x: (pos.x - 1) as isize, y: pos.y },
        Move::Right => Pos { x: (pos.x + 1) as isize, y: pos.y },
    }
}

/// The rotation after `rot`, counting 0, 1, 2, 3 and back to 0.
pub open spec fn next_rot(rot: usize) -> usize {
    if rot + 1 >= 4 { 0 } else { (rot + 1) as usize }
}

/// The rotation before `rot` in the same cycle.
pub open spec fn prev_rot(rot: usize) -> usize {
    if rot == 0 { 3 } else { (rot - 1) as usize }
}

/// Whether two shapes hold the same cells in the same order.
pub fn same_shape(a: &Vec<Vec<usize>>, b: &Vec<Vec<usize>>) -> (res: bool)
    ensures
        res == (a.deep_view() == b.deep_view()),
{
    if a.len() != b.len() {
        assert(a.deep_view().len() != b.deep_view().len());
        return false;
    }
    let mut i: usize = 0;
    while i < a.len()
        invariant
            i <= a.len(),
            a.len() == b.len(),
            forall|j: int| 0 <= j < i ==> a@[j]@ == b@[j]@,
        decreases a.len() - i,
    {
        let ra = &a[i];
        let rb = &b[i];
        if ra.len() != rb.len() {
            assert(a.deep_view()[i as int].len() != b.deep_view()[i as int].len());
            return false;
        }
        let mut j: usize = 0;
        while j < ra.len()
            invariant
                j <= ra.len(),
                ra.len() == rb.len(),
                i < a.len(),
                a.len() == b.len(),
                ra@ == a@[i as int]@,
                rb@ == b@[i as int]@,
                forall|c: int| 0 <= c < j ==> ra@[c] == rb@[c],
            decreases ra.len() - j,
        {
            if ra[j] != rb[j] {
                assert(a.deep_view()[i as int][j as int] != b.deep_view()[i as int][j as int]);
                return false;
            }
            j = j + 1;
        }
        assert(a@[i as int]@ =~= b@[i as int]@);
        i = i + 1;
    }
    assert(a.deep_view() =~~= b.deep_view());
    true
}

/// A copy of a grid of numbers, such as a shape or a board.
pub fn copy_grid(s: &Vec<Vec<usize>>) -> (res: Vec<Vec<usize>>)
    ensures
        res.deep_view() == s.deep_view(),
{
    let mut res: Vec<Vec<usize>> = Vec::new();
    let mut i: usize = 0;
    while i < s.len()
        invariant
            i <= s.len(),
            res@.len() == i,
            forall|j: int| 0 <= j < i ==> (#[trigger] res@[j])@ == s@[j]@,
        decreases s.len() - i,
    {
        let row = &s[i];
        let mut copy: Vec<usize> = Vec::new();
        let mut j: usize = 0;
        while j < row.len()
            invariant
                j <= row.len(),
                copy@ == row@.take(j as int),
            decreases row.len() - j,
        {
            copy.push(row[j]);
            j = j + 1;
            assert(copy@ =~= row@.take(j as int));
        }
        assert(copy@ =~= row@);
        res.push(copy);
        i = i + 1;
    }
    assert(res.deep_view() =~~= s.deep_view());
    res
}

impl Block {
    /// A copy of the block.
    pub fn duplicate(&self) -> (res: Block)
        ensures
            res@ == self@,
    {
        Block { shape: copy_grid(&self.shape), pos: self.pos, id: self.id, rot: self.rot }
    }

    /// A piece of kind `id` in rotation `rot`, at `pos` or, when none is given,
    /// at column 3 of the top row.
    pub fn new(id: usize, pos: Option<Pos>, rot: usize) -> (res: Self)
        requires
            rot < 4,
            spec_make_shape(id, pos.unwrap_or(spawn_pos()), rot) is Some,
        ensures
            res.id == id,
            res.pos == pos.unwrap_or(spawn_pos()),
            res.rot == rot,
            block_placed(res@),
    {
        let pos = match pos {
            Some(p) => p,
            None => Pos { x: 3, y: 0 },
        };
        let shape = match make_shape(id, pos, rot) {
            Ok(s) => s,
            Err(_) => {
                assert(false);
                Vec::new()
            }
        };
        Self { shape: shape, pos: pos, id: id, rot: rot }
    }

    /// Moves the piece one column; where it would leave the board it stays put.
    pub fn move_block(&mut self, direction: Move)
        requires
            old(self).rot < 4,
            direction == Move::Left ==> old(self).pos.x > isize::MIN,
            direction == Move::Right ==> old(self).pos.x < isize::MAX,
        ensures
            final(self)@ == block_moved(old(self)@, direction),
    {
        match direction {
            Move::Left => {
                self.pos.x = self.pos.x - 1;
                match make_shape(self.id, self.pos, self.rot) {
                    Ok(ok) => { self.shape = ok }
                    Err(_) => { self.pos.x = self.pos.x + 1 }
                }
            }
            Move::Right => {
                self.pos.x = self.pos.x + 1;
                match make_shape(self.id, self.pos, self.rot) {
                    Ok(ok) => { self.shape = ok }
                    Err(_) => { self.pos.x = self.pos.x - 1 }
                }
            }
        }
    }

    /// Whether the block is the placeholder that marks a lost game: four cells
    /// on the corner of its frame, as kind 0 in rotation 0 gives them.
    pub fn is_none(&self) -> (res: bool)
        ensures
            res == block_is_none(self@),
    {
        match make_shape(0, self.pos, 0) {
            Ok(ok) => same_shape(&self.shape, &ok),
            Err(_) => false,
        }
    }

    /// Turns the piece to its next rotation; where that would leave the board
    /// the rotation steps back instead and the cells stay.
    pub fn spin(&mut self)
        requires
            old(self).rot < usize::MAX,
        ensures
            final(self)@ == block_spun(old(self)@),
    {
        if self.rot + 1 >= 4 {
            self.rot = 0;
        } else {
            self.rot = self.rot + 1;
        }
        match make_shape(self.id, self.pos, self.rot) {
            Ok(ok) => { self.shape = ok }
            Err(_) => {
                if self.rot == 0 {
                    self.rot = 3
                } else {
                    self.rot = self.rot - 1
                }
            }
        }
    }
}

} // verus!
