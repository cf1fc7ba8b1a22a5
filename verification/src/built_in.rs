use vstd::prelude::*;
use crate::pos::Pos;
use vstd::bytes::{spec_u64_from_le_bytes, spec_u64_to_le_bytes, u64_from_le_bytes};
use vstd::slice::slice_subrange;

verus! {

/// Number of columns of the board.
pub const COLS: usize = 10;
/// Number of rows of the board.
pub const ROWS: usize = 20;

/// The four cells of piece `id` in rotation `rot`, as `(column, row)` offsets
/// inside the piece's 4x4 frame. Ids outside `1..=7` give four cells at `(0, 0)`.
pub open spec fn shape_cells(id: usize, rot: usize) -> Seq<(usize, usize)> {
    if id == 1 {
        if rot == 0 { seq![(0, 1), (1, 1), (2, 1), (3, 1)] }
        else if rot == 1 { seq![(2, 0), (2, 1), (2, 2), (2, 3)] }
        else if rot == 2 { seq![(0, 2), (1, 2), (2, 2), (3, 2)] }
        else { seq![(1, 0), (1, 1), (1, 2), (1, 3)] }
    } else if id == 2 {
        if rot == 0 { seq![(1, 0), (1, 1), (0, 1), (2, 1)] }
        else if rot == 1 { seq![(1, 0), (1, 1), (2, 1), (1, 2)] }
        else if rot == 2 { seq![(0, 1), (1, 1), (2, 1), (1, 2)] }
        else { seq![(1, 0), (1, 1), (0, 1), (1, 2)] }
    } else if id == 3 {
        seq![(1, 0), (2, 0), (1, 1), (2, 1)]
    } else if id == 4 {
        if rot == 0 { seq![(0, 1), (1, 1), (2, 1), (0, 0)] }
        else if rot == 1 { seq![(1, 0), (1, 1), (1, 2), (2, 0)] }
        else if rot == 2 { seq![(0, 1), (1, 1), (2, 1), (2, 2)] }
        else { seq![(1, 0), (1, 1), (1, 2), (0, 2)] }
    } else if id == 5 {
        if rot == 0 { seq![(0, 1), (1, 1), (2, 1), (2, 0)] }
        else if rot == 1 { seq![(1, 0), (1, 1), (1, 2), (2, 2)] }
        else if rot == 2 { seq![(0, 1), (1, 1), (2, 1), (0, 2)] }
        else { seq![(1, 0), (1, 1), (1, 2), (0, 0)] }
    } else if id == 6 {
        if rot == 0 { seq![(0, 0), (1, 1), (1, 0), (2, 1)] }
        else if rot == 1 { seq![(1, 2), (1, 1), (2, 1), (2, 0)] }
        else if rot == 2 { seq![(0, 1), (1, 1), (1, 2), (2, 2)] }
        else { seq![(1, 0), (1, 1), (0, 1), (0, 2)] }
    } else if id == 7 {
        if rot == 0 { seq![(0, 2), (1, 1), (1, 2), (2, 1)] }
        else if rot == 1 { seq![(0, 0), (1, 1), (0, 1), (1, 2)] }
        else if rot == 2 { seq![(0, 1), (1, 1), (1, 0), (2, 0)] }
        else { seq![(1, 0), (1, 1), (2, 1), (2, 2)] }
    } else {
        seq![(0, 0), (0, 0), (0, 0), (0, 0)]
    }
}

/// The offsets of `shape_cells`, read from a table.
fn rotation_cells(id: usize, rot: usize) -> (cells: [(usize, usize); 4])
    ensures
        cells@ == shape_cells(id, rot),
{
    let cells: [(usize, usize); 4] = if id == 1 {
        if rot == 0 { [(0, 1), (1, 1), (2, 1), (3, 1)] }
        else if rot == 1 { [(2, 0), (2, 1), (2, 2), (2, 3)] }
        else if rot == 2 { [(0, 2), (1, 2), (2, 2), (3, 2)] }
        else { [(1, 0), (1, 1), (1, 2), (1, 3)] }
    } else if id == 2 {
        if rot == 0 { [(1, 0), (1, 1), (0, 1), (2, 1)] }
        else if rot == 1 { [(1, 0), (1, 1), (2, 1), (1, 2)] }
        else if rot == 2 { [(0, 1), (1, 1), (2, 1), (1, 2)] }
        else { [(1, 0), (1, 1), (0, 1), (1, 2)] }
    } else if id == 3 {
        [(1, 0), (2, 0), (1, 1), (2, 1)]
    } else if id == 4 {
        if rot == 0 { [(0, 1), (1, 1), (2, 1), (0, 0)] }
        else if rot == 1 { [(1, 0), (1, 1), (1, 2), (2, 0)] }
        else if rot == 2 { [(0, 1), (1, 1), (2, 1), (2, 2)] }
        else { [(1, 0), (1, 1), (1, 2), (0, 2)] }
    } else if id == 5 {
        if rot == 0 { [(0, 1), (1, 1), (2, 1), (2, 0)] }
        else if rot == 1 { [(1, 0), (1, 1), (1, 2), (2, 2)] }
        else if rot == 2 { [(0, 1), (1, 1), (2, 1), (0, 2)] }
        else { [(1, 0), (1, 1), (1, 2), (0, 0)] }
    } else if id == 6 {
        if rot == 0 { [(0, 0), (1, 1), (1, 0), (2, 1)] }
        else if rot == 1 { [(1, 2), (1, 1), (2, 1), (2, 0)] }
        else if rot == 2 { [(0, 1), (1, 1), (1, 2), (2, 2)] }
        else { [(1, 0), (1, 1), (0, 1), (0, 2)] }
    } else if id == 7 {
        if rot == 0 { [(0, 2), (1, 1), (1, 2), (2, 1)] }
        else if rot == 1 { [(0, 0), (1, 1), (0, 1), (1, 2)] }
        else if rot == 2 { [(0, 1), (1, 1), (1, 0), (2, 0)] }
        else { [(1, 0), (1, 1), (2, 1), (2, 2)] }
    } else {
        [(0, 0), (0, 0), (0, 0), (0, 0)]
    };
    assert(cells@ =~= shape_cells(id, rot));
    cells
}

/// Board column of the `k`-th cell of piece `id` placed at `pos` in rotation `rot`.
pub open spec fn cell_col(id: usize, pos: Pos, rot: usize, k: int) -> int {
    shape_cells(id, rot)[k].0 + pos.x
}

/// Board row of the `k`-th cell: the straight piece (id 1) sits one row higher,
/// unless that would take the cell above row 0.
pub open spec fn cell_row(id: usize, pos: Pos, rot: usize, k: int) -> int {
    let y = shape_cells(id, rot)[k].1 + pos.y;
    if id == 1 && y >= 1 { y - 1 } else { y }
}

/// Whether every cell lands in a column of the board and above its bottom edge.
/// Rows above the top are allowed.
pub open spec fn shape_fits(id: usize, pos: Pos, rot: usize) -> bool {
    forall|k: int| 0 <= k < 4 ==> {
        &&& 0 <= #[trigger] cell_col(id, pos, rot, k) < COLS
        &&& cell_row(id, pos, rot, k) < ROWS
    }
}

/// The cells of the placed piece, each as `[column, row]`; a row above the
/// top wraps around as a `usize` does.
pub open spec fn placed_cells(id: usize, pos: Pos, rot: usize) -> Seq<Seq<usize>> {
    Seq::new(4, |k: int| seq![cell_col(id, pos, rot, k) as usize, cell_row(id, pos, rot, k) as usize])
}

/// What `make_shape` gives: the placed cells, or nothing when the piece does not fit.
pub open spec fn spec_make_shape(id: usize, pos: Pos, rot: usize) -> Option<Seq<Seq<usize>>> {
    if shape_fits(id, pos, rot) { Some(placed_cells(id, pos, rot)) } else { None }
}

/// Places piece `id` in rotation `rot` with its frame's top-left corner at `pos`.
/// Fails when a cell would leave the board at the sides or the bottom.
pub fn make_shape(id: usize, pos: Pos, rot: usize) -> (res: Result<Vec<Vec<usize>>, ()>)
    requires
        rot < 4,
    ensures
        match res {
            Ok(shape) => spec_make_shape(id, pos, rot) == Some(shape.deep_view()),
            Err(_) => spec_make_shape(id, pos, rot) is None,
        },
{
    let cells = rotation_cells(id, rot);
    let mut k: usize = 0;
    while k < 4
        invariant
            k <= 4,
            cells@ == shape_cells(id, rot),
            forall|j: int| 0 <= j < k ==> {
                &&& 0 <= #[trigger] cell_col(id, pos, rot, j) < COLS
                &&& cell_row(id, pos, rot, j) < ROWS
            },
        decreases 4 - k,
    {
        let (cx, cy) = cells[k];
        let x: i128 = cx as i128 + pos.x as i128;
        let mut y: i128 = cy as i128 + pos.y as i128;
        if id == 1 && y - 1 >= 0 {
            y = y - 1;
        }
        assert(x == cell_col(id, pos, rot, k as int));
        assert(y == cell_row(id, pos, rot, k as int));
        if x >= 10 || x < 0 || y >= 20 {
            return Err(());
        }
        k = k + 1;
    }
    let mut shape: Vec<Vec<usize>> = Vec::new();
    let mut k: usize = 0;
    while k < 4
        invariant
            k <= 4,
            cells@ == shape_cells(id, rot),
            shape_fits(id, pos, rot),
            shape@.len() == k,
            forall|j: int| 0 <= j < k ==> (#[trigger] shape@[j]).deep_view() == placed_cells(id, pos, rot)[j],
        decreases 4 - k,
    {
        let (cx, cy) = cells[k];
        let x: i128 = cx as i128 + pos.x as i128;
        let mut y: i128 = cy as i128 + pos.y as i128;
        if id == 1 && y - 1 >= 0 {
            y = y - 1;
        }
        assert(x == cell_col(id, pos, rot, k as int));
        assert(y == cell_row(id, pos, rot, k as int));
        let cell: Vec<usize> = vec![x as usize, #[verifier::truncate] (y as usize)];
        assert(cell.deep_view() =~= placed_cells(id, pos, rot)[k as int]);
        shape.push(cell);
        k = k + 1;
    }
    assert(shape.deep_view() =~~= placed_cells(id, pos, rot));
    Ok(shape)
}

/// Bytes in one stored number.
pub const USIZE_BYTES: usize = 8;

/// The rows that `bytes` holds: each number is `USIZE_BYTES` bytes, least
/// significant first, and each row `row_len` numbers; bytes left over after the
/// last whole row are ignored.
pub open spec fn decoded(bytes: Seq<u8>, row_len: nat) -> Seq<Seq<usize>> {
    Seq::new(
        bytes.len() / (row_len * 8),
        |i: int| Seq::new(
            row_len,
            |j: int| spec_u64_from_le_bytes(bytes.subrange((i * row_len + j) * 8, (i * row_len + j) * 8 + 8)) as usize,
        ),
    )
}

proof fn lemma_offset_in_range(i: int, j: int, row_len: int, rows: int, len: int)
    requires
        0 <= i < rows,
        0 <= j < row_len,
        row_len > 0,
        len >= 0,
        rows == len / (row_len * 8),
    ensures
        0 <= (i * row_len + j) * 8,
        (i * row_len + j) * 8 + 8 <= len,
{
    assert(rows * (row_len * 8) <= len) by (nonlinear_arith)
        requires rows == len / (row_len * 8), row_len > 0, len >= 0;
    assert((i * row_len + j) * 8 + 8 <= rows * (row_len * 8)) by (nonlinear_arith)
        requires 0 <= i < rows, 0 <= j < row_len;
    assert(0 <= (i * row_len + j) * 8) by (nonlinear_arith)
        requires 0 <= i, 0 <= j, row_len > 0;
}

/// Reads a grid of numbers stored as bytes, `row_len` numbers to a row, each
/// number least significant byte first.
pub fn byte_to_usize_vec(bytes: &[u8], row_len: usize) -> (vec: Vec<Vec<usize>>)
    requires
        row_len > 0,
        row_len * 8 <= usize::MAX,
    ensures
        vec.deep_view() == decoded(bytes@, row_len as nat),
{
    let width: usize = row_len * USIZE_BYTES;
    let n: usize = bytes.len();
    let col_len: usize = n / width;
    let ghost target = decoded(bytes@, row_len as nat);
    let mut vec: Vec<Vec<usize>> = Vec::new();
    let mut i: usize = 0;
    while i < col_len
        invariant
            i <= col_len,
            row_len > 0,
            width == row_len * 8,
            col_len == bytes@.len() / (row_len as nat * 8),
            target == decoded(bytes@, row_len as nat),
            target.len() == col_len,
            vec.deep_view() == target.take(i as int),
            bytes@.len() <= usize::MAX,
        decreases col_len - i,
    {
        let mut row: Vec<usize> = Vec::new();
        let mut j: usize = 0;
        while j < row_len
            invariant
                i < col_len,
                j <= row_len,
                row_len > 0,
                col_len == bytes@.len() / (row_len as nat * 8),
                target == decoded(bytes@, row_len as nat),
                row@ == target[i as int].take(j as int),
                bytes@.len() <= usize::MAX,
            decreases row_len - j,
        {
            proof { lemma_offset_in_range(i as int, j as int, row_len as int, col_len as int, bytes@.len() as int); }
            let offset: usize = (i * row_len + j) * USIZE_BYTES;
            let v: u64 = u64_from_le_bytes(slice_subrange(bytes, offset, offset + USIZE_BYTES));
            row.push(#[verifier::truncate] (v as usize));
            j = j + 1;
            assert(row@ =~= target[i as int].take(j as int));
        }
        assert(row@ =~= target[i as int]);
        let ghost before = vec.deep_view();
        assert(row.deep_view() =~= row@);
        vec.push(row);
        assert(vec.deep_view() =~~= before.push(target[i as int]));
        i = i + 1;
        assert(vec.deep_view() =~~= target.take(i as int));
    }
    assert(target.take(col_len as int) =~= target);
    vec
}

/// Whether `chunk` is `x` in one of the two byte orders a machine may use.
pub open spec fn ne_chunk(x: usize, chunk: Seq<u8>) -> bool {
    ||| chunk == spec_u64_to_le_bytes(x as u64)
    ||| chunk == spec_u64_to_le_bytes(x as u64).reverse()
}

/// Whether `bytes` holds `values` one after the other, `USIZE_BYTES` bytes each,
/// each in one of the two byte orders.
pub open spec fn ne_encoded(values: Seq<usize>, bytes: Seq<u8>) -> bool {
    &&& bytes.len() == 8 * values.len()
    &&& forall|k: int| 0 <= k < values.len() ==> ne_chunk(#[trigger] values[k], bytes.subrange(8 * k, 8 * k + 8))
}

/// `usize::to_ne_bytes`: the bytes of `x` in the machine's byte order. Its
/// documentation says only that the order is the machine's, so the contract
/// claims one of the two orders without saying which. The body compiles only
/// where a `usize` has eight bytes.
#[verifier::external_body]
fn usize_to_ne_bytes(x: usize) -> (bytes: [u8; 8])
    ensures
        ne_chunk(x, bytes@),
{
    x.to_ne_bytes()
}

/// The numbers of a grid, row after row, as bytes in the machine's byte order;
/// nothing for a grid without rows.
pub fn usize_vec_to_byte(vec: &Vec<Vec<usize>>) -> (res: Option<Vec<u8>>)
    ensures
        vec@.len() == 0 ==> res is None,
        vec@.len() > 0 ==> (res matches Some(bytes) && ne_encoded(vec.deep_view().flatten(), bytes@)),
{
    if vec.len() <= 0 {
        return None;
    }
    let ghost rows = vec.deep_view();
    let mut byte_array: Vec<u8> = Vec::new();
    let mut i: usize = 0;
    proof {
        assert(rows.take(0) =~= Seq::<Seq<usize>>::empty());
        assert(rows.take(0).flatten() =~= Seq::<usize>::empty());
    }
    while i < vec.len()
        invariant
            i <= vec.len(),
            rows == vec.deep_view(),
            ne_encoded(rows.take(i as int).flatten(), byte_array@),
        decreases vec.len() - i,
    {
        let row = &vec[i];
        assert(rows[i as int] == row@);
        let mut j: usize = 0;
        proof { assert(row@.take(0) =~= Seq::<usize>::empty()); assert(rows.take(i as int).flatten() + row@.take(0) =~= rows.take(i as int).flatten()); }
        while j < row.len()
            invariant
                i < vec.len(),
                j <= row.len(),
                rows == vec.deep_view(),
                rows[i as int] == row@,
                ne_encoded(rows.take(i as int).flatten() + row@.take(j as int), byte_array@),
            decreases row.len() - j,
        {
            let ghost vals = rows.take(i as int).flatten() + row@.take(j as int);
            let ghost before = byte_array@;
            let chunk: [u8; 8] = usize_to_ne_bytes(row[j]);
            let mut k: usize = 0;
            while k < 8
                invariant
                    k <= 8,
                    byte_array@ == before + chunk@.take(k as int),
                decreases 8 - k,
            {
                byte_array.push(chunk[k]);
                k = k + 1;
                assert(byte_array@ =~= before + chunk@.take(k as int));
            }
            assert(chunk@.take(8) =~= chunk@);
            j = j + 1;
            let ghost vals2 = rows.take(i as int).flatten() + row@.take(j as int);
            assert(vals2 =~= vals.push(row@[j - 1]));
            assert forall|t: int| 0 <= t < vals2.len() implies ne_chunk(#[trigger] vals2[t], byte_array@.subrange(8 * t, 8 * t + 8)) by {
                if t < vals.len() {
                    assert(byte_array@.subrange(8 * t, 8 * t + 8) =~= before.subrange(8 * t, 8 * t + 8));
                    assert(vals2[t] == vals[t]);
                } else {
                    assert(byte_array@.subrange(8 * t, 8 * t + 8) =~= chunk@);
                }
            }
        }
        proof {
            assert(row@.take(row@.len() as int) =~= row@);
            assert(rows.take(i + 1) =~= rows.take(i as int).push(rows[i as int]));
            rows.take(i as int).lemma_flatten_push(rows[i as int]);
        }
        i = i + 1;
    }
    assert(rows.take(vec.len() as int) =~= rows);
    Some(byte_array)
}

} // verus!
