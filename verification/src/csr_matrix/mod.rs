//! The compressed-row sparse matrix.

pub mod canonical;
pub mod construct;
pub mod inspect;
pub mod iter;
pub mod ops;

use crate::hashed::cell_map_entries;
use crate::hashed::cells_held;
use crate::hashed::CellMap;
use construct::cells_of;
use construct::names;
use ops::added;
use ops::CsrError;
use std::ops::Add;
use vstd::prelude::*;

verus! {

/// A position in a matrix: row, then column.
pub type Cell = (int, int);

/// A sparse matrix in compressed-row storage.
///
/// Row `r` owns the slots `row_ptr[r] .. row_ptr[r + 1]` of `col_idx` and
/// `val`; inside a row the columns ascend strictly. A matrix whose
/// columns all lie below `n_cols` is in shape.
#[derive(Debug, Clone)]
pub struct CSR {
    pub n_rows: usize,
    pub n_cols: usize,
    pub n_nz: usize,
    pub row_ptr: Vec<usize>,
    pub col_idx: Vec<usize>,
    pub val: Vec<i64>,
}

/// Row offsets start at zero, never decrease and end at the slot count.
pub open spec fn offsets_ok(row_ptr: Seq<usize>, n_rows: int, n_nz: int) -> bool {
    &&& row_ptr.len() == n_rows + 1
    &&& row_ptr[0] == 0
    &&& row_ptr[n_rows] == n_nz
    &&& forall|r: int, s: int|
        0 <= r <= s <= n_rows ==> #[trigger] row_ptr[r] <= #[trigger] row_ptr[s]
}

/// The slots `lo .. hi` hold strictly ascending columns.
pub open spec fn ascending(col_idx: Seq<usize>, lo: int, hi: int) -> bool {
    forall|j: int, k: int| lo <= j < k < hi ==> #[trigger] col_idx[j] < #[trigger] col_idx[k]
}

/// The columns of row `r` ascend strictly.
pub open spec fn row_ascending(row_ptr: Seq<usize>, col_idx: Seq<usize>, r: int) -> bool {
    ascending(col_idx, row_ptr[r] as int, row_ptr[r + 1] as int)
}

/// Inside every row the columns ascend strictly.
pub open spec fn columns_ok(row_ptr: Seq<usize>, col_idx: Seq<usize>) -> bool {
    forall|r: int| 0 <= r < row_ptr.len() - 1 ==> #[trigger] row_ascending(row_ptr, col_idx, r)
}

/// The value of cell `k` in a sparse map: what is stored, or zero.
pub open spec fn read(cells: Map<Cell, int>, k: Cell) -> int {
    if cells.contains_key(k) {
        cells[k]
    } else {
        0
    }
}

/// Every cell that the hash map holds lies in a row below `n_rows`.
pub open spec fn rows_cover(fxhash: CellMap, n_rows: usize) -> bool {
    forall|k: Cell| #[trigger] cells_held(fxhash).contains_key(k) ==> 0 <= k.0 < n_rows
}

/// Every cell that the hash map holds lies inside the given shape.
pub open spec fn covers(fxhash: CellMap, n_rows: usize, n_cols: usize) -> bool {
    forall|k: Cell| #[trigger]
        cells_held(fxhash).contains_key(k) ==> 0 <= k.0 < n_rows && 0 <= k.1 < n_cols
}

impl CSR {
    /// The structural invariant of the storage.
    pub open spec fn wf(&self) -> bool {
        &&& self.col_idx@.len() == self.n_nz
        &&& self.val@.len() == self.n_nz
        &&& offsets_ok(self.row_ptr@, self.n_rows as int, self.n_nz as int)
        &&& columns_ok(self.row_ptr@, self.col_idx@)
    }

    /// Every stored column lies below `n_cols`.
    pub open spec fn in_shape(&self) -> bool {
        forall|j: int| 0 <= j < self.col_idx@.len() ==> #[trigger] self.col_idx@[j] < self.n_cols
    }

    /// Row `r` stores column `c` in slot `j`.
    pub open spec fn holds_at(&self, r: int, c: int, j: int) -> bool {
        self.row_ptr@[r] <= j < self.row_ptr@[r + 1] && self.col_idx@[j] == c
    }

    /// Row `r` stores column `c`.
    pub open spec fn stores(&self, r: int, c: int) -> bool {
        0 <= r < self.n_rows && exists|j: int| self.holds_at(r, c, j)
    }

    /// The slot in which row `r` stores column `c`.
    pub open spec fn slot(&self, r: int, c: int) -> int {
        choose|j: int| self.holds_at(r, c, j)
    }
}

impl View for CSR {
    type V = Map<Cell, int>;

    /// The stored cells with their values. A cell outside the map reads as zero.
    open spec fn view(&self) -> Map<Cell, int> {
        Map::new(|k: Cell| self.stores(k.0, k.1), |k: Cell| self.val@[self.slot(k.0, k.1)] as int)
    }
}

impl CSR {
    /// The matrix of the given shape with no stored cell.
    pub fn new(n_rows: usize, n_cols: usize) -> (m: CSR)
        ensures
            m.wf(),
            m.in_shape(),
            m.n_rows == n_rows,
            m.n_cols == n_cols,
            m.n_nz == 0,
            m@ == Map::<Cell, int>::empty(),
    {
        let mut row_ptr: Vec<usize> = vec![0; n_rows];
        row_ptr.push(0);
        let m = CSR { n_rows, n_cols, n_nz: 0, row_ptr, col_idx: Vec::new(), val: Vec::new() };
        assert(m@ =~= Map::<Cell, int>::empty());
        m
    }

    /// The value of cell `(row, col)`: what is stored there, zero where
    /// nothing is stored, and `None` outside the matrix.
    pub fn value(&self, row: usize, col: usize) -> (v: Option<i64>)
        requires
            self.wf(),
        ensures
            match v {
                Some(x) => row < self.n_rows && col < self.n_cols && x == read(
                    self@,
                    (row as int, col as int),
                ),
                None => row >= self.n_rows || col >= self.n_cols,
            },
    {
        if row >= self.n_rows || col >= self.n_cols {
            return None;
        }
        let row_start = self.row_ptr[row];
        let row_end = self.row_ptr[row + 1];
        let mut i: usize = row_start;
        while i < row_end
            invariant
                self.wf(),
                row < self.n_rows,
                col < self.n_cols,
                row_start == self.row_ptr@[row as int],
                row_end == self.row_ptr@[row + 1],
                row_start <= i <= row_end,
                forall|j: int| row_start <= j < i ==> self.col_idx@[j] != col,
            decreases row_end - i,
        {
            assert(self.row_ptr@[row + 1] <= self.row_ptr@[self.n_rows as int]);
            if self.col_idx[i] == col {
                proof {
                    self.lemma_slot(row as int, col as int, i as int);
                }
                return Some(self.val[i]);
            }
            i += 1;
        }
        assert(!self.stores(row as int, col as int));
        Some(0)
    }

    /// The matrix of the given shape that stores exactly what the hash map
    /// holds, whatever the order in which the map hands out its cells.
    pub fn from_fxhash(fxhash: &CellMap, n_rows: usize, n_cols: usize) -> (m: CSR)
        requires
            rows_cover(*fxhash, n_rows),
        ensures
            m.wf(),
            m.n_rows == n_rows,
            m.n_cols == n_cols,
            m@ == cells_held(*fxhash),
            m.in_shape() == covers(*fxhash, n_rows, n_cols),
    {
        let entries = cell_map_entries(fxhash);
        proof {
            assert forall|i: int| 0 <= i < entries@.len() implies (#[trigger] entries@[i]).0
                < n_rows by {
                assert(cells_held(*fxhash).contains_key(
                    (entries@[i].0 as int, entries@[i].1 as int),
                ));
            }
        }
        let m = CSR::from_triplet(&entries, n_rows, n_cols);
        proof {
            let held = cells_held(*fxhash);
            assert forall|k: Cell| #[trigger] held.contains_key(k) implies cells_of(
                entries@,
            ).contains_key(k) by {
                let i = choose|i: int|
                    0 <= i < entries@.len() && (#[trigger] entries@[i]).0 == k.0 && entries@[i].1
                        == k.1;
                assert(names(entries@, i, k));
            }
            assert forall|k: Cell| #[trigger] cells_of(entries@).contains_key(k) implies held.contains_key(
                k,
            ) && held[k] == cells_of(entries@)[k] by {
                let i = choose|i: int| names(entries@, i, k);
                construct::lemma_cell_named(entries@, i);
            }
            assert(cells_of(entries@) =~= held);
            m.lemma_in_shape();
            if m.in_shape() {
                assert forall|k: Cell| #[trigger] held.contains_key(k) implies 0 <= k.0 < n_rows
                    && 0 <= k.1 < n_cols by {
                    m.lemma_read_fits(k);
                }
            }
        }
        m
    }

    /// The matrix that stores what the hash map holds, or `None` where a
    /// cell of the map lies outside the given shape.
    pub fn try_from_fxhash(fxhash: &CellMap, n_rows: usize, n_cols: usize) -> (m: Option<CSR>)
        ensures
            match m {
                Some(m) => m.wf() && m.in_shape() && m.n_rows == n_rows && m.n_cols == n_cols
                    && m@ == cells_held(*fxhash) && covers(*fxhash, n_rows, n_cols),
                None => !covers(*fxhash, n_rows, n_cols),
            },
    {
        let entries = cell_map_entries(fxhash);
        let mut i: usize = 0;
        while i < entries.len()
            invariant
                0 <= i <= entries@.len(),
                forall|j: int|
                    0 <= j < i ==> (#[trigger] entries@[j]).0 < n_rows && entries@[j].1 < n_cols,
                forall|j: int|
                    0 <= j < entries@.len() ==> cells_held(*fxhash).contains_key(
                        ((#[trigger] entries@[j]).0 as int, entries@[j].1 as int),
                    ),
            decreases entries@.len() - i,
        {
            if entries[i].0 >= n_rows || entries[i].1 >= n_cols {
                assert(cells_held(*fxhash).contains_key(
                    (entries@[i as int].0 as int, entries@[i as int].1 as int),
                ));
                return None;
            }
            i += 1;
        }
        proof {
            assert forall|k: Cell| #[trigger] cells_held(*fxhash).contains_key(k) implies 0 <= k.0
                < n_rows && 0 <= k.1 < n_cols by {
                let j = choose|j: int|
                    0 <= j < entries@.len() && (#[trigger] entries@[j]).0 == k.0 && entries@[j].1
                        == k.1;
                assert(entries@[j].0 < n_rows);
            }
        }
        Some(CSR::from_fxhash(fxhash, n_rows, n_cols))
    }

    /// Adds `other` to this matrix, which is replaced by the sum. Where
    /// the sum cannot be formed, the matrix stays as it was.
    pub fn add_in_place(&mut self, other: &CSR) -> (res: Result<(), CsrError>)
        requires
            old(self).wf(),
            other.wf(),
        ensures
            match res {
                Ok(_) => added(old(self), other, Ok(*final(self))),
                Err(e) => added(old(self), other, Err(e)) && *final(self) == *old(self),
            },
    {
        match (&*self).add(other) {
            Ok(total) => {
                *self = total;
                Ok(())
            },
            Err(e) => Err(e),
        }
    }

    /// Every cell reads as a value of the cell type, and every stored cell
    /// lies in a row of the matrix; in a matrix that is in shape, in a
    /// column of it too.
    pub proof fn lemma_read_fits(&self, k: Cell)
        requires
            self.wf(),
        ensures
            i64::MIN <= read(self@, k) <= i64::MAX,
            self@.contains_key(k) ==> 0 <= k.0 < self.n_rows && 0 <= k.1 <= usize::MAX,
            self@.contains_key(k) && self.in_shape() ==> k.1 < self.n_cols,
    {
        if self@.contains_key(k) {
            let j = self.slot(k.0, k.1);
            assert(self.holds_at(k.0, k.1, j));
            self.lemma_slot(k.0, k.1, j);
        }
    }

    /// A matrix is in shape where every cell of its view lies below `n_cols`.
    pub proof fn lemma_in_shape(&self)
        requires
            self.wf(),
        ensures
            self.in_shape() <==> forall|k: Cell| #[trigger] self@.contains_key(k) ==> k.1 < self.n_cols,
    {
        if self.in_shape() {
            assert forall|k: Cell| #[trigger] self@.contains_key(k) implies k.1 < self.n_cols by {
                self.lemma_read_fits(k);
            }
        }
        if forall|k: Cell| #[trigger] self@.contains_key(k) ==> k.1 < self.n_cols {
            assert forall|j: int| 0 <= j < self.col_idx@.len() implies #[trigger] self.col_idx@[j]
                < self.n_cols by {
                self.lemma_slot_row(j);
                let r = self.row_of(j);
                self.lemma_slot(r, self.col_idx@[j] as int, j);
                assert(self@.contains_key((r, self.col_idx@[j] as int)));
            }
        }
    }

    /// A slot that holds a cell is the slot of that cell.
    pub proof fn lemma_slot(&self, r: int, c: int, j: int)
        requires
            self.wf(),
            0 <= r < self.n_rows,
            self.holds_at(r, c, j),
        ensures
            self.stores(r, c),
            self.slot(r, c) == j,
            self@.contains_key((r, c)),
            self@[(r, c)] == self.val@[j],
            0 <= j < self.n_nz,
    {
        let k = self.slot(r, c);
        assert(self.holds_at(r, c, k));
        assert(self.row_ptr@[r + 1] <= self.row_ptr@[self.n_rows as int]);
        assert(row_ascending(self.row_ptr@, self.col_idx@, r));
        if k < j {
            assert(self.col_idx@[k] < self.col_idx@[j]);
        }
        if j < k {
            assert(self.col_idx@[j] < self.col_idx@[k]);
        }
    }
}

} // verus!
