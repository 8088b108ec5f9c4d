//! Building a matrix from a list of cells.

use super::Cell;
use super::CSR;
use super::ascending;
use super::row_ascending;
use crate::sorting::arranges;
use crate::sorting::first_key;
use crate::sorting::ordered_stably;
use crate::sorting::sort_by_first;
use crate::sorting::stable_sort_of;
use vstd::prelude::*;

verus! {

/// Entry `i` of the list is the cell `k`.
pub open spec fn names(t: Seq<(usize, usize, i64)>, i: int, k: Cell) -> bool {
    0 <= i < t.len() && t[i].0 == k.0 && t[i].1 == k.1
}

/// The sparse map that a list of `(row, column, value)` entries describes.
pub open spec fn cells_of(t: Seq<(usize, usize, i64)>) -> Map<Cell, int> {
    Map::new(
        |k: Cell| exists|i: int| names(t, i, k),
        |k: Cell| t[choose|i: int| names(t, i, k)].2 as int,
    )
}

/// Every entry lies in a row below `n_rows`.
pub open spec fn fits_rows(t: Seq<(usize, usize, i64)>, n_rows: int) -> bool {
    forall|i: int| 0 <= i < t.len() ==> (#[trigger] t[i]).0 < n_rows
}

/// Every entry lies in a column below `n_cols`.
pub open spec fn fits_cols(t: Seq<(usize, usize, i64)>, n_cols: int) -> bool {
    forall|i: int| 0 <= i < t.len() ==> (#[trigger] t[i]).1 < n_cols
}

/// Every entry lies inside a matrix of the given shape.
pub open spec fn fits_shape(t: Seq<(usize, usize, i64)>, n_rows: int, n_cols: int) -> bool {
    fits_rows(t, n_rows) && fits_cols(t, n_cols)
}

/// No two entries are the same cell.
pub open spec fn distinct_cells(t: Seq<(usize, usize, i64)>) -> bool {
    forall|i: int, j: int|
        0 <= i < j < t.len() ==> !((#[trigger] t[i]).0 == (#[trigger] t[j]).0 && t[i].1 == t[j].1)
}

/// The pair `e` of row `r` is one of the first `n` entries of the list.
spec fn listed(t: Seq<(usize, usize, i64)>, n: int, r: int, e: (usize, i64)) -> bool {
    exists|i: int| 0 <= i < n && #[trigger] t[i] == (r as usize, e.0, e.1)
}

/// The entry `e` of the list stands in its row.
spec fn placed(rows: Seq<Vec<(usize, i64)>>, e: (usize, usize, i64)) -> bool {
    e.0 < rows.len() && exists|x: int|
        0 <= x < rows[e.0 as int]@.len() && #[trigger] rows[e.0 as int]@[x] == (e.1, e.2)
}

/// The rows hold, each under its own row and once, the first `n` entries
/// of the list and nothing else.
spec fn rows_hold(
    t: Seq<(usize, usize, i64)>,
    n: int,
    rows: Seq<Vec<(usize, i64)>>,
) -> bool {
    &&& forall|r: int, x: int|
        0 <= r < rows.len() && 0 <= x < rows[r]@.len() ==> listed(t, n, r, #[trigger] rows[r]@[x])
    &&& forall|i: int| 0 <= i < n ==> placed(rows, #[trigger] t[i])
    &&& forall|r: int, x: int, y: int|
        0 <= r < rows.len() && 0 <= x < y < rows[r]@.len() ==> (#[trigger] rows[r]@[x]).0 != (
        #[trigger] rows[r]@[y]).0
}

/// Every row is in strictly ascending column order.
spec fn rows_ascend(rows: Seq<Vec<(usize, i64)>>) -> bool {
    forall|r: int, x: int, y: int|
        0 <= r < rows.len() && 0 <= x < y < rows[r]@.len() ==> (#[trigger] rows[r]@[x]).0 < (
        #[trigger] rows[r]@[y]).0
}

/// Groups the entries by row, in the order of the list.
fn group_by_row(triplets: &Vec<(usize, usize, i64)>, n_rows: usize) -> (rows: Vec<
    Vec<(usize, i64)>,
>)
    requires
        forall|i: int| 0 <= i < triplets@.len() ==> (#[trigger] triplets@[i]).0 < n_rows,
        distinct_cells(triplets@),
    ensures
        rows@.len() == n_rows,
        rows_hold(triplets@, triplets@.len() as int, rows@),
{
    let mut rows: Vec<Vec<(usize, i64)>> = Vec::new();
    let mut r: usize = 0;
    while r < n_rows
        invariant
            r <= n_rows,
            rows@.len() == r,
            forall|k: int| 0 <= k < r ==> (#[trigger] rows@[k])@.len() == 0,
        decreases n_rows - r,
    {
        rows.push(Vec::new());
        r += 1;
    }
    let ghost t = triplets@;
    let mut i: usize = 0;
    while i < triplets.len()
        invariant
            t == triplets@,
            i <= t.len(),
            rows@.len() == n_rows,
            forall|i: int| 0 <= i < t.len() ==> (#[trigger] t[i]).0 < n_rows,
            distinct_cells(t),
            rows_hold(t, i as int, rows@),
        decreases t.len() - i,
    {
        let (r, c, v) = triplets[i];
        let ghost before = rows@;
        rows[r].push((c, v));
        proof {
            let after = rows@;
            let n = i as int;
            assert(after[r as int]@ == before[r as int]@.push((c, v)));
            assert(forall|q: int| 0 <= q < n_rows && q != r ==> after[q] == before[q]);
            assert(t[n] == (r, c, v));
            assert forall|q: int, x: int| 0 <= q < after.len() && 0 <= x < after[q]@.len() implies listed(
                t,
                n + 1,
                q,
                #[trigger] after[q]@[x],
            ) by {
                if q == r && x == before[q]@.len() {
                    assert(t[n] == (q as usize, after[q]@[x].0, after[q]@[x].1));
                } else {
                    assert(after[q]@[x] == before[q]@[x]);
                    assert(listed(t, n, q, before[q]@[x]));
                    let w = choose|w: int|
                        0 <= w < n && #[trigger] t[w] == (
                            q as usize,
                            before[q]@[x].0,
                            before[q]@[x].1,
                        );
                    assert(t[w] == (q as usize, after[q]@[x].0, after[q]@[x].1));
                }
            }
            assert forall|w: int| 0 <= w < n + 1 implies placed(after, #[trigger] t[w]) by {
                if w == n {
                    assert(after[r as int]@[before[r as int]@.len() as int] == (c, v));
                } else {
                    assert(placed(before, t[w]));
                    let q = t[w].0 as int;
                    let x = choose|x: int|
                        0 <= x < before[q]@.len() && #[trigger] before[q]@[x] == (t[w].1, t[w].2);
                    assert(after[q]@[x] == before[q]@[x]);
                }
            }
            assert forall|q: int, x: int, y: int|
                0 <= q < after.len() && 0 <= x < y < after[q]@.len() implies (
            #[trigger] after[q]@[x]).0 != (#[trigger] after[q]@[y]).0 by {
                assert(after[q]@[x] == before[q]@[x]);
                if q == r && y == before[q]@.len() {
                    assert(listed(t, n, q, before[q]@[x]));
                    let w = choose|w: int|
                        0 <= w < n && #[trigger] t[w] == (
                            q as usize,
                            before[q]@[x].0,
                            before[q]@[x].1,
                        );
                    assert(!(t[w].0 == t[n].0 && t[w].1 == t[n].1));
                } else {
                    assert(after[q]@[y] == before[q]@[y]);
                }
            }
        }
        i += 1;
    }
    rows
}

/// Brings every row into ascending column order.
fn sort_rows(rows: &mut Vec<Vec<(usize, i64)>>, Ghost(t): Ghost<Seq<(usize, usize, i64)>>)
    requires
        rows_hold(t, t.len() as int, old(rows)@),
    ensures
        final(rows)@.len() == old(rows)@.len(),
        rows_hold(t, t.len() as int, final(rows)@),
        rows_ascend(final(rows)@),
{
    let n_rows = rows.len();
    let mut r: usize = 0;
    while r < n_rows
        invariant
            r <= n_rows,
            rows@.len() == n_rows,
            rows_hold(t, t.len() as int, rows@),
            forall|q: int, x: int, y: int|
                0 <= q < r && 0 <= x < y < rows@[q]@.len() ==> (#[trigger] rows@[q]@[x]).0 < (
                #[trigger] rows@[q]@[y]).0,
        decreases n_rows - r,
    {
        let ghost before = rows@;
        sort_by_first(&mut rows[r]);
        proof {
            let after = rows@;
            let old_row = before[r as int]@;
            let new_row = after[r as int]@;
            let n = t.len() as int;
            assert(forall|q: int| 0 <= q < n_rows && q != r ==> after[q] == before[q]);
            assert(stable_sort_of(old_row, new_row, |e: (usize, i64)| first_key(e)));
            let p = choose|p: Seq<int>| #[trigger]
                arranges(old_row, new_row, p) && ordered_stably(
                    new_row,
                    p,
                    |e: (usize, i64)| first_key(e),
                );
            assert forall|q: int, x: int| 0 <= q < after.len() && 0 <= x < after[q]@.len() implies listed(
                t,
                n,
                q,
                #[trigger] after[q]@[x],
            ) by {
                if q == r {
                    assert(new_row[x] == old_row[p[x]]);
                    assert(listed(t, n, q, before[q]@[p[x]]));
                } else {
                    assert(listed(t, n, q, before[q]@[x]));
                }
            }
            assert forall|w: int| 0 <= w < n implies placed(after, #[trigger] t[w]) by {
                assert(placed(before, t[w]));
                let q = t[w].0 as int;
                let x = choose|x: int|
                    0 <= x < before[q]@.len() && #[trigger] before[q]@[x] == (t[w].1, t[w].2);
                if q == r {
                    let e = (t[w].1, t[w].2);
                    assert(old_row[x] == e);
                    assert(old_row.contains(e));
                    old_row.to_multiset_ensures();
                    new_row.to_multiset_ensures();
                    assert(new_row.to_multiset().count(e) > 0);
                    assert(new_row.contains(e));
                    let y = choose|y: int| 0 <= y < new_row.len() && new_row[y] == e;
                    assert(after[q]@[y] == e);
                } else {
                    assert(after[q]@[x] == before[q]@[x]);
                }
            }
            assert forall|q: int, x: int, y: int|
                0 <= q < after.len() && 0 <= x < y < after[q]@.len() implies (
            #[trigger] after[q]@[x]).0 != (#[trigger] after[q]@[y]).0 by {
                if q == r {
                    assert(new_row[x] == old_row[p[x]]);
                    assert(new_row[y] == old_row[p[y]]);
                    assert(p[x] != p[y]);
                    if p[x] < p[y] {
                        assert(before[q]@[p[x]].0 != before[q]@[p[y]].0);
                    } else {
                        assert(before[q]@[p[y]].0 != before[q]@[p[x]].0);
                    }
                } else {
                    assert(after[q]@[x] == before[q]@[x]);
                    assert(after[q]@[y] == before[q]@[y]);
                }
            }
            assert forall|q: int, x: int, y: int|
                0 <= q < r + 1 && 0 <= x < y < after[q]@.len() implies (#[trigger] after[q]@[x]).0
                < (#[trigger] after[q]@[y]).0 by {
                if q == r {
                    assert(first_key(new_row[x]) <= first_key(new_row[y]));
                    assert(new_row[x].0 != new_row[y].0);
                } else {
                    assert(after[q]@[x] == before[q]@[x]);
                    assert(after[q]@[y] == before[q]@[y]);
                }
            }
        }
        r += 1;
    }
}

/// The slots from `start` on hold the first `n` pairs of `row`.
spec fn row_laid(
    row: Seq<(usize, i64)>,
    n: int,
    start: int,
    col_idx: Seq<usize>,
    val: Seq<i64>,
) -> bool {
    &&& 0 <= start
    &&& start + n <= col_idx.len()
    &&& col_idx.len() == val.len()
    &&& forall|x: int|
        0 <= x < n ==> col_idx[start + x] == (#[trigger] row[x]).0 && val[start + x] == row[x].1
}

/// Row `q` of the output is `rows[q]`, slot for slot.
spec fn row_stands(
    rows: Seq<Vec<(usize, i64)>>,
    q: int,
    row_ptr: Seq<usize>,
    col_idx: Seq<usize>,
    val: Seq<i64>,
) -> bool {
    &&& row_ptr[q + 1] - row_ptr[q] == rows[q]@.len()
    &&& row_laid(rows[q]@, rows[q]@.len() as int, row_ptr[q] as int, col_idx, val)
}

/// Appending to the slots leaves a row that was laid out as it is.
proof fn lemma_laid_kept(
    row: Seq<(usize, i64)>,
    n: int,
    start: int,
    col_idx: Seq<usize>,
    val: Seq<i64>,
    c: usize,
    v: i64,
)
    requires
        row_laid(row, n, start, col_idx, val),
    ensures
        row_laid(row, n, start, col_idx.push(c), val.push(v)),
{
    assert forall|x: int| 0 <= x < n implies col_idx.push(c)[start + x] == (#[trigger] row[x]).0
        && val.push(v)[start + x] == row[x].1 by {
        assert(col_idx.push(c)[start + x] == col_idx[start + x]);
        assert(val.push(v)[start + x] == val[start + x]);
    }
}

/// Writes the rows one after another into compressed-row storage.
fn lay_out(
    rows: &Vec<Vec<(usize, i64)>>,
    n_rows: usize,
    n_cols: usize,
    Ghost(t): Ghost<Seq<(usize, usize, i64)>>,
) -> (m: CSR)
    requires
        rows@.len() == n_rows,
        rows_hold(t, t.len() as int, rows@),
        rows_ascend(rows@),
        distinct_cells(t),
    ensures
        m.wf(),
        m.n_rows == n_rows,
        m.n_cols == n_cols,
        m@ == cells_of(t),
        m.in_shape() == fits_cols(t, n_cols as int),
{
    let mut row_ptr: Vec<usize> = Vec::new();
    let mut col_idx: Vec<usize> = Vec::new();
    let mut val: Vec<i64> = Vec::new();

    row_ptr.push(0);
    let mut r: usize = 0;
    while r < n_rows
        invariant
            rows@.len() == n_rows,
            rows_hold(t, t.len() as int, rows@),
            0 <= r <= n_rows,
            row_ptr@.len() == r + 1,
            row_ptr@[0] == 0,
            row_ptr@[r as int] == col_idx@.len(),
            col_idx@.len() == val@.len(),
            forall|q: int, s: int|
                0 <= q <= s <= r ==> #[trigger] row_ptr@[q] <= #[trigger] row_ptr@[s],
            forall|q: int| 0 <= q < r ==> #[trigger] row_stands(rows@, q, row_ptr@, col_idx@, val@),
            rows_ascend(rows@),
            distinct_cells(t),
        decreases n_rows - r,
    {
        let row = &rows[r];
        let ghost start = col_idx@.len() as int;
        let mut x: usize = 0;
        while x < row.len()
            invariant
                rows@.len() == n_rows,
                rows_hold(t, t.len() as int, rows@),
                0 <= r < n_rows,
                *row == rows@[r as int],
                0 <= x <= row@.len(),
                row_ptr@.len() == r + 1,
                row_ptr@[r as int] == start,
                col_idx@.len() == start + x,
                row_laid(row@, x as int, start, col_idx@, val@),
                forall|q: int, s: int|
                    0 <= q <= s <= r ==> #[trigger] row_ptr@[q] <= #[trigger] row_ptr@[s],
                forall|q: int|
                    0 <= q < r ==> #[trigger] row_stands(rows@, q, row_ptr@, col_idx@, val@),
            decreases row@.len() - x,
        {
            let (c, v) = row[x];
            proof {
                lemma_laid_kept(row@, x as int, start, col_idx@, val@, c, v);
                assert forall|q: int| 0 <= q < r implies #[trigger] row_stands(
                    rows@,
                    q,
                    row_ptr@,
                    col_idx@.push(c),
                    val@.push(v),
                ) by {
                    assert(row_stands(rows@, q, row_ptr@, col_idx@, val@));
                    lemma_laid_kept(
                        rows@[q]@,
                        rows@[q]@.len() as int,
                        row_ptr@[q] as int,
                        col_idx@,
                        val@,
                        c,
                        v,
                    );
                }
            }
            col_idx.push(c);
            val.push(v);
            x += 1;
        }
        let ghost offsets = row_ptr@;
        row_ptr.push(col_idx.len());
        proof {
            assert forall|q: int| 0 <= q < r + 1 implies #[trigger] row_stands(
                rows@,
                q,
                row_ptr@,
                col_idx@,
                val@,
            ) by {
                if q < r {
                    assert(row_stands(rows@, q, offsets, col_idx@, val@));
                }
            }
        }
        r += 1;
    }
    let m = CSR { n_rows, n_cols, n_nz: val.len(), row_ptr, col_idx, val };
    proof {
        assert forall|q: int| 0 <= q < m.row_ptr@.len() - 1 implies #[trigger] row_ascending(
            m.row_ptr@,
            m.col_idx@,
            q,
        ) by {
            assert(row_stands(rows@, q, m.row_ptr@, m.col_idx@, m.val@));
            lemma_row_slots(rows@, q, &m);
            assert forall|j: int, k: int| m.row_ptr@[q] <= j < k < m.row_ptr@[q + 1] implies #[trigger] m.col_idx@[j]
                < #[trigger] m.col_idx@[k] by {
                let x = j - m.row_ptr@[q];
                let y = k - m.row_ptr@[q];
                assert(rows@[q]@[x].0 < rows@[q]@[y].0);
            }
        }
        assert(m.wf());
        assert forall|k: Cell| #[trigger] m@.contains_key(k) implies cells_of(t).contains_key(k)
            && cells_of(t)[k] == m@[k] by {
            let j = m.slot(k.0, k.1);
            assert(m.holds_at(k.0, k.1, j));
            m.lemma_slot(k.0, k.1, j);
            assert(row_stands(rows@, k.0, m.row_ptr@, m.col_idx@, m.val@));
            lemma_row_slots(rows@, k.0, &m);
            let x = j - m.row_ptr@[k.0];
            assert(listed(t, t.len() as int, k.0, rows@[k.0]@[x]));
            let i = choose|i: int|
                0 <= i < t.len() && #[trigger] t[i] == (
                    k.0 as usize,
                    rows@[k.0]@[x].0,
                    rows@[k.0]@[x].1,
                );
            lemma_cell_named(t, i);
        }
        assert forall|k: Cell| #[trigger] cells_of(t).contains_key(k) implies m@.contains_key(k) by {
            let i = choose|i: int| names(t, i, k);
            assert(placed(rows@, t[i]));
            let x = choose|x: int|
                0 <= x < rows@[k.0]@.len() && #[trigger] rows@[k.0]@[x] == (t[i].1, t[i].2);
            assert(row_stands(rows@, k.0, m.row_ptr@, m.col_idx@, m.val@));
            lemma_row_slots(rows@, k.0, &m);
            assert(m.holds_at(k.0, k.1, m.row_ptr@[k.0] + x));
        }
        assert(m@ =~= cells_of(t));
        m.lemma_in_shape();
        if m.in_shape() {
            assert forall|i: int| 0 <= i < t.len() implies (#[trigger] t[i]).1 < n_cols by {
                lemma_cell_named(t, i);
            }
        }
        if fits_cols(t, n_cols as int) {
            assert forall|k: Cell| #[trigger] m@.contains_key(k) implies k.1 < n_cols by {
                let i = choose|i: int| names(t, i, k);
                assert(t[i].1 < n_cols);
            }
        }
    }
    m
}

/// Where the slots of row `q` stand in a matrix that was laid out from `rows`.
proof fn lemma_row_slots(rows: Seq<Vec<(usize, i64)>>, q: int, m: &CSR)
    requires
        0 <= q < m.n_rows,
        m.row_ptr@.len() == m.n_rows + 1,
        row_stands(rows, q, m.row_ptr@, m.col_idx@, m.val@),
    ensures
        forall|j: int|
            m.row_ptr@[q] <= j < m.row_ptr@[q + 1] ==> 0 <= j - m.row_ptr@[q] < rows[q]@.len()
                && #[trigger] m.col_idx@[j] == rows[q]@[j - m.row_ptr@[q]].0 && m.val@[j]
                == rows[q]@[j - m.row_ptr@[q]].1,
        forall|x: int|
            0 <= x < rows[q]@.len() ==> m.row_ptr@[q] <= m.row_ptr@[q] + x < m.row_ptr@[q + 1]
                && m.col_idx@[m.row_ptr@[q] + x] == (#[trigger] rows[q]@[x]).0,
{
    let start = m.row_ptr@[q] as int;
    assert forall|j: int| m.row_ptr@[q] <= j < m.row_ptr@[q + 1] implies 0 <= j - m.row_ptr@[q]
        < rows[q]@.len() && #[trigger] m.col_idx@[j] == rows[q]@[j - m.row_ptr@[q]].0 && m.val@[j]
        == rows[q]@[j - m.row_ptr@[q]].1 by {
        let x = j - start;
        assert(m.col_idx@[start + x] == rows[q]@[x].0);
    }
}

/// In a list without repeated cells, entry `i` gives its cell its value.
pub proof fn lemma_cell_named(t: Seq<(usize, usize, i64)>, i: int)
    requires
        distinct_cells(t),
        0 <= i < t.len(),
    ensures
        cells_of(t).contains_key((t[i].0 as int, t[i].1 as int)),
        cells_of(t)[(t[i].0 as int, t[i].1 as int)] == t[i].2,
{
    let k = (t[i].0 as int, t[i].1 as int);
    assert(names(t, i, k));
    let j = choose|j: int| names(t, j, k);
    if j < i {
        assert(!(t[j].0 == t[i].0 && t[j].1 == t[i].1));
    }
    if i < j {
        assert(!(t[i].0 == t[j].0 && t[i].1 == t[j].1));
    }
}

impl CSR {
    /// The matrix of the given shape that stores exactly the listed cells.
    ///
    /// The entries may come in any order; no cell may be listed twice.
    /// The matrix is in shape where every listed column lies below `n_cols`.
    pub fn from_triplet(triplets: &Vec<(usize, usize, i64)>, n_rows: usize, n_cols: usize) -> (m:
        CSR)
        requires
            fits_rows(triplets@, n_rows as int),
            distinct_cells(triplets@),
        ensures
            m.wf(),
            m.n_rows == n_rows,
            m.n_cols == n_cols,
            m@ == cells_of(triplets@),
            m.in_shape() == fits_cols(triplets@, n_cols as int),
    {
        let mut rows = group_by_row(triplets, n_rows);
        sort_rows(&mut rows, Ghost(triplets@));
        lay_out(&rows, n_rows, n_cols, Ghost(triplets@))
    }
}

} // verus!
