use vstd::prelude::*;
use crate::grid::same_unit;

verus! {

/// Row of cell `i` in row-major order.
pub open spec fn row_of(i: int) -> int {
    i / 9
}

/// Column of cell `i`.
pub open spec fn col_of(i: int) -> int {
    i % 9
}

/// Box of cell `i`: boxes are numbered row-major, three to a band.
pub open spec fn box_of(i: int) -> int {
    (i / 27) * 3 + (i % 9) / 3
}

/// Position of cell `i` inside its box, row-major within the box.
pub open spec fn pos_in_box(i: int) -> int {
    (row_of(i) % 3) * 3 + col_of(i) % 3
}

/// Kinds of unit: rows, columns and boxes.
pub open spec fn is_kind(kind: int) -> bool {
    0 <= kind < 3
}

/// The `k`-th cell (0 to 8, ascending) of unit `n` of the given kind:
/// 0 for a row, 1 for a column, 2 for a box.
pub open spec fn unit_cell(kind: int, n: int, k: int) -> int {
    if kind == 0 {
        n * 9 + k
    } else if kind == 1 {
        k * 9 + n
    } else {
        (n / 3) * 27 + (n % 3) * 3 + (k / 3) * 9 + k % 3
    }
}

/// `k` skipping over position `p`: the `k`-th of the eight positions other than `p`.
pub open spec fn skip(k: int, p: int) -> int {
    if k < p {
        k
    } else {
        k + 1
    }
}

/// Unit cells are grid cells, and distinct positions give distinct cells.
pub proof fn lemma_unit_cell(kind: int, n: int, k: int)
    requires
        is_kind(kind),
        0 <= n < 9,
        0 <= k < 9,
    ensures
        0 <= unit_cell(kind, n, k) < 81,
        forall|k2: int| 0 <= k2 < 9 && k2 != k ==> unit_cell(kind, n, k2) != unit_cell(kind, n, k),
        kind == 0 ==> row_of(unit_cell(kind, n, k)) == n && col_of(unit_cell(kind, n, k)) == k,
        kind == 1 ==> row_of(unit_cell(kind, n, k)) == k && col_of(unit_cell(kind, n, k)) == n,
        kind == 2 ==> box_of(unit_cell(kind, n, k)) == n && pos_in_box(unit_cell(kind, n, k)) == k,
        kind == 2 ==> row_of(unit_cell(kind, n, k)) == (n / 3) * 3 + k / 3,
        kind == 2 ==> col_of(unit_cell(kind, n, k)) == (n % 3) * 3 + k % 3,
{
}

/// Every cell is the `col`-th cell of its row, the `row`-th of its column and
/// the `pos_in_box`-th of its box.
pub proof fn lemma_cell_units(i: int)
    requires
        0 <= i < 81,
    ensures
        0 <= row_of(i) < 9,
        0 <= col_of(i) < 9,
        0 <= box_of(i) < 9,
        0 <= pos_in_box(i) < 9,
        unit_cell(0, row_of(i), col_of(i)) == i,
        unit_cell(1, col_of(i), row_of(i)) == i,
        unit_cell(2, box_of(i), pos_in_box(i)) == i,
{
}

/// Row of a cell index.
pub fn get_row_num(idx: usize) -> (r: usize)
    ensures
        r == row_of(idx as int),
{
    idx / 9
}

/// Column of a cell index.
pub fn get_col_num(idx: usize) -> (r: usize)
    ensures
        r == col_of(idx as int),
{
    idx % 9
}

/// Box of a cell index.
pub fn get_box_num(idx: usize) -> (r: usize)
    ensures
        r == box_of(idx as int),
{
    let box_row = idx / 27 * 3;
    let box_col = idx % 9 / 3;
    box_row + box_col
}

/// The nine cells of unit `num` of the given kind, ascending.
pub fn unit_cells(kind: usize, num: usize) -> (r: Vec<usize>)
    requires
        kind < 3,
        num < 9,
    ensures
        r@.len() == 9,
        forall|k: int| 0 <= k < 9 ==> #[trigger] r@[k] == unit_cell(kind as int, num as int, k),
{
    let mut r: Vec<usize> = Vec::new();
    for k in 0..9usize
        invariant
            kind < 3,
            num < 9,
            r@.len() == k,
            forall|j: int| 0 <= j < k ==> #[trigger] r@[j] == unit_cell(kind as int, num as int, j),
    {
        let c = if kind == 0 {
            num * 9 + k
        } else if kind == 1 {
            k * 9 + num
        } else {
            num / 3 * 27 + num % 3 * 3 + k / 3 * 9 + k % 3
        };
        r.push(c);
    }
    r
}

/// The nine cells of row `num`, left to right.
pub fn row_num(num: usize) -> (r: Vec<usize>)
    requires
        num < 9,
    ensures
        r@.len() == 9,
        forall|k: int| 0 <= k < 9 ==> #[trigger] r@[k] == unit_cell(0, num as int, k),
{
    unit_cells(0, num)
}

/// The nine cells of column `num`, top to bottom.
pub fn col_num(num: usize) -> (r: Vec<usize>)
    requires
        num < 9,
    ensures
        r@.len() == 9,
        forall|k: int| 0 <= k < 9 ==> #[trigger] r@[k] == unit_cell(1, num as int, k),
{
    unit_cells(1, num)
}

/// The nine cells of box `num`, ascending.
pub fn box_num(num: usize) -> (r: Vec<usize>)
    requires
        num < 9,
    ensures
        r@.len() == 9,
        forall|k: int| 0 <= k < 9 ==> #[trigger] r@[k] == unit_cell(2, num as int, k),
{
    unit_cells(2, num)
}

/// The cells of a unit other than its `pos`-th one, ascending.
fn unit_mates(kind: usize, num: usize, pos: usize) -> (r: Vec<usize>)
    requires
        kind < 3,
        num < 9,
        pos < 9,
    ensures
        r@.len() == 8,
        forall|k: int|
            0 <= k < 8 ==> #[trigger] r@[k] == unit_cell(kind as int, num as int, skip(k, pos as int)),
{
    let all = unit_cells(kind, num);
    let mut r: Vec<usize> = Vec::new();
    for k in 0..9usize
        invariant
            all@.len() == 9,
            forall|j: int| 0 <= j < 9 ==> #[trigger] all@[j] == unit_cell(kind as int, num as int, j),
            pos < 9,
            r@.len() == if k <= pos { k as int } else { k - 1 },
            forall|j: int|
                0 <= j < r@.len() ==> #[trigger] r@[j] == unit_cell(
                    kind as int,
                    num as int,
                    skip(j, pos as int),
                ),
    {
        if k != pos {
            r.push(all[k]);
        }
    }
    r
}

/// The eight other cells in the row of `idx`, left to right.
pub fn idx_to_row(idx: usize) -> (r: Vec<usize>)
    requires
        idx < 81,
    ensures
        r@.len() == 8,
        forall|k: int|
            0 <= k < 8 ==> #[trigger] r@[k] == unit_cell(
                0,
                row_of(idx as int),
                skip(k, col_of(idx as int)),
            ),
{
    unit_mates(0, get_row_num(idx), get_col_num(idx))
}

/// The eight other cells in the column of `idx`, top to bottom.
pub fn idx_to_col(idx: usize) -> (r: Vec<usize>)
    requires
        idx < 81,
    ensures
        r@.len() == 8,
        forall|k: int|
            0 <= k < 8 ==> #[trigger] r@[k] == unit_cell(
                1,
                col_of(idx as int),
                skip(k, row_of(idx as int)),
            ),
{
    unit_mates(1, get_col_num(idx), get_row_num(idx))
}

/// The eight other cells in the box of `idx`, ascending.
pub fn idx_to_box(idx: usize) -> (r: Vec<usize>)
    requires
        idx < 81,
    ensures
        r@.len() == 8,
        forall|k: int|
            0 <= k < 8 ==> #[trigger] r@[k] == unit_cell(
                2,
                box_of(idx as int),
                skip(k, pos_in_box(idx as int)),
            ),
{
    let pos = get_row_num(idx) % 3 * 3 + get_col_num(idx) % 3;
    unit_mates(2, get_box_num(idx), pos)
}

/// Whether cells `i` and `j` share a row, a column or a box.
pub fn shares_unit(i: usize, j: usize) -> (r: bool)
    ensures
        r == same_unit(i as int, j as int),
{
    get_row_num(i) == get_row_num(j) || get_col_num(i) == get_col_num(j) || get_box_num(i)
        == get_box_num(j)
}

/// The peers of `idx`: every other cell that shares a row, a column or a box
/// with it, in ascending order.
pub fn peers_of(idx: usize) -> (r: Vec<usize>)
    requires
        idx < 81,
    ensures
        forall|j: usize| #[trigger] r@.contains(j) <==> (j < 81 && j != idx && same_unit(idx as int, j as int)),
        forall|a: int, b: int| 0 <= a < b < r@.len() ==> r@[a] < r@[b],
{
    let mut r: Vec<usize> = Vec::new();
    for j in 0..81usize
        invariant
            forall|m: int| 0 <= m < r@.len() ==> #[trigger] r@[m] < j,
            forall|m: usize| #[trigger] r@.contains(m) <==> (m < j && m != idx && same_unit(idx as int, m as int)),
            forall|a: int, b: int| 0 <= a < b < r@.len() ==> r@[a] < r@[b],
    {
        if j != idx && shares_unit(idx, j) {
            let ghost prev = r@;
            r.push(j);
            proof {
                assert forall|m: usize| #[trigger] r@.contains(m) <==> (m < j + 1 && m != idx && same_unit(idx as int, m as int)) by {
                    if r@.contains(m) && m != j {
                        let k = choose|k: int| 0 <= k < r@.len() && r@[k] == m;
                        assert(k < prev.len());
                        assert(prev[k] == m);
                        assert(prev.contains(m));
                    }
                    if m < j && m != idx && same_unit(idx as int, m as int) {
                        assert(prev.contains(m));
                        let k = choose|k: int| 0 <= k < prev.len() && prev[k] == m;
                        assert(r@[k] == m);
                    }
                    if m == j {
                        assert(r@[r@.len() - 1] == j);
                        assert(r@.contains(m));
                    }
                }
            }
        }
    }
    r
}

} // verus!
