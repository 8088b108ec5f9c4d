//! Walking the stored cells of a matrix, all of them or one row.

use super::construct::cells_of;
use super::construct::distinct_cells;
use super::construct::fits_cols;
use super::construct::fits_rows;
use super::construct::lemma_cell_named;
use super::construct::names;
use super::row_ascending;
use super::Cell;
use super::CSR;
use vstd::prelude::*;

verus! {

impl CSR {
    /// Slot `j` belongs to row `r`.
    pub open spec fn in_row(&self, r: int, j: int) -> bool {
        0 <= r < self.n_rows && self.row_ptr@[r] <= j < self.row_ptr@[r + 1]
    }

    /// The row that slot `j` belongs to.
    pub open spec fn row_of(&self, j: int) -> int {
        choose|r: int| self.in_row(r, j)
    }

    /// The stored cells as `(row, column, value)`, row after row and, inside
    /// a row, in ascending column order.
    pub open spec fn entries(&self) -> Seq<(usize, usize, i64)> {
        Seq::new(
            self.n_nz as nat,
            |j: int| (self.row_of(j) as usize, self.col_idx@[j], self.val@[j]),
        )
    }

    /// Some row at or below `hi` owns slot `j`.
    proof fn lemma_row_found(&self, j: int, hi: int)
        requires
            self.wf(),
            0 <= hi <= self.n_rows,
            0 <= j < self.row_ptr@[hi],
        ensures
            exists|r: int| self.in_row(r, j),
        decreases hi,
    {
        if hi > 0 {
            if self.row_ptr@[hi - 1] <= j {
                assert(self.in_row(hi - 1, j));
            } else {
                self.lemma_row_found(j, hi - 1);
            }
        }
    }

    /// Every slot belongs to exactly one row.
    pub proof fn lemma_row_of(&self, r: int, j: int)
        requires
            self.wf(),
            self.in_row(r, j),
        ensures
            self.row_of(j) == r,
            0 <= j < self.n_nz,
    {
        let q = self.row_of(j);
        assert(self.in_row(q, j));
        if q < r {
            assert(self.row_ptr@[q + 1] <= self.row_ptr@[r]);
        }
        if r < q {
            assert(self.row_ptr@[r + 1] <= self.row_ptr@[q]);
        }
        assert(self.row_ptr@[r + 1] <= self.row_ptr@[self.n_rows as int]);
    }

    /// Every slot has its row.
    pub proof fn lemma_slot_row(&self, j: int)
        requires
            self.wf(),
            0 <= j < self.n_nz,
        ensures
            self.in_row(self.row_of(j), j),
    {
        self.lemma_row_found(j, self.n_rows as int);
    }

    /// The list of stored cells is in row-major order and, inside a row, in
    /// ascending column order.
    pub proof fn lemma_entries_ordered(&self, i: int, j: int)
        requires
            self.wf(),
            0 <= i < j < self.n_nz,
        ensures
            self.entries()[i].0 < self.entries()[j].0 || (self.entries()[i].0
                == self.entries()[j].0 && self.entries()[i].1 < self.entries()[j].1),
    {
        self.lemma_slot_row(i);
        self.lemma_slot_row(j);
        let r = self.row_of(i);
        let s = self.row_of(j);
        if s < r {
            assert(self.row_ptr@[s + 1] <= self.row_ptr@[r]);
        }
        if r == s {
            assert(row_ascending(self.row_ptr@, self.col_idx@, r));
        }
    }

    /// The list of stored cells has one entry per stored cell, inside the
    /// shape, and describes the same sparse map as the matrix.
    pub proof fn lemma_entries(&self)
        requires
            self.wf(),
        ensures
            self.entries().len() == self.n_nz,
            fits_rows(self.entries(), self.n_rows as int),
            self.in_shape() == fits_cols(self.entries(), self.n_cols as int),
            distinct_cells(self.entries()),
            cells_of(self.entries()) == self@,
    {
        let e = self.entries();
        assert forall|i: int| 0 <= i < e.len() implies (#[trigger] e[i]).0 < self.n_rows by {
            self.lemma_slot_row(i);
        }
        if self.in_shape() {
            assert forall|i: int| 0 <= i < e.len() implies (#[trigger] e[i]).1 < self.n_cols by {
                assert(self.col_idx@[i] < self.n_cols);
            }
        }
        if fits_cols(e, self.n_cols as int) {
            assert forall|j: int| 0 <= j < self.col_idx@.len() implies #[trigger] self.col_idx@[j]
                < self.n_cols by {
                assert(e[j].1 < self.n_cols);
            }
        }
        assert forall|i: int, j: int| 0 <= i < j < e.len() implies !((#[trigger] e[i]).0 == (
        #[trigger] e[j]).0 && e[i].1 == e[j].1) by {
            self.lemma_slot_row(i);
            self.lemma_slot_row(j);
            if e[i].0 == e[j].0 {
                assert(row_ascending(self.row_ptr@, self.col_idx@, self.row_of(i)));
            }
        }
        assert forall|k: Cell| #[trigger] self@.contains_key(k) implies cells_of(e).contains_key(k)
            && cells_of(e)[k] == self@[k] by {
            let j = self.slot(k.0, k.1);
            assert(self.holds_at(k.0, k.1, j));
            self.lemma_slot(k.0, k.1, j);
            self.lemma_row_of(k.0, j);
            lemma_cell_named(e, j);
        }
        assert forall|k: Cell| #[trigger] cells_of(e).contains_key(k) implies self@.contains_key(
            k,
        ) by {
            let i = choose|i: int| names(e, i, k);
            self.lemma_slot_row(i);
            assert(self.holds_at(k.0, k.1, i));
        }
        assert(cells_of(e) =~= self@);
    }
}

/// A cursor over all stored cells of a matrix.
pub struct CSRIter<'a> {
    csr: &'a CSR,
    row: usize,
    idx: usize,
}

impl<'a> CSRIter<'a> {
    /// The matrix that the cursor walks.
    pub closed spec fn matrix(&self) -> &'a CSR {
        self.csr
    }

    /// How many cells the cursor has handed out.
    pub closed spec fn position(&self) -> int {
        self.idx as int
    }

    /// The cursor stands at a slot of a well-formed matrix, or at its end.
    pub closed spec fn wf(&self) -> bool {
        &&& self.csr.wf()
        &&& self.idx <= self.csr.n_nz
        &&& self.row <= self.csr.n_rows
        &&& self.csr.row_ptr@[self.row as int] <= self.idx
        &&& self.idx < self.csr.n_nz ==> self.row < self.csr.n_rows
    }

    /// The next stored cell in row-major order, or `None` after the last.
    pub fn next(&mut self) -> (item: Option<(usize, usize, i64)>)
        requires
            old(self).wf(),
        ensures
            final(self).wf(),
            final(self).matrix() == old(self).matrix(),
            0 <= old(self).position() <= old(self).matrix().n_nz,
            match item {
                Some(e) => old(self).position() < old(self).matrix().n_nz && e == old(
                    self,
                ).matrix().entries()[old(self).position()] && final(self).position() == old(
                    self,
                ).position() + 1,
                None => old(self).position() == old(self).matrix().n_nz && final(self).position()
                    == old(self).position(),
            },
    {
        if self.idx >= self.csr.n_nz {
            return None;
        }
        while self.idx >= self.csr.row_ptr[self.row + 1]
            invariant
                self.csr.wf(),
                self.csr == old(self).csr,
                self.idx == old(self).idx,
                self.idx < self.csr.n_nz,
                self.row < self.csr.n_rows,
                self.csr.row_ptr@[self.row as int] <= self.idx,
            decreases self.csr.n_rows - self.row,
        {
            self.row += 1;
        }
        let row = self.row;
        let col = self.csr.col_idx[self.idx];
        let val = self.csr.val[self.idx];
        proof {
            self.csr.lemma_row_of(row as int, self.idx as int);
        }
        self.idx += 1;
        Some((row, col, val))
    }
}

/// A cursor over the stored cells of one row.
pub struct CSRRowIter<'a> {
    csr: &'a CSR,
    row_end: usize,
    idx: usize,
}

impl<'a> CSRRowIter<'a> {
    /// The matrix that the cursor walks.
    pub closed spec fn matrix(&self) -> &'a CSR {
        self.csr
    }

    /// The slot that the cursor hands out next.
    pub closed spec fn slot(&self) -> int {
        self.idx as int
    }

    /// The slot at which the cursor stops.
    pub closed spec fn end(&self) -> int {
        self.row_end as int
    }

    /// The cursor stands inside its row of a well-formed matrix, or at its end.
    pub closed spec fn wf(&self) -> bool {
        &&& self.csr.wf()
        &&& self.idx <= self.row_end <= self.csr.n_nz
    }

    /// The next `(column, value)` of the row, or `None` after the last.
    pub fn next(&mut self) -> (item: Option<(usize, i64)>)
        requires
            old(self).wf(),
        ensures
            final(self).wf(),
            final(self).matrix() == old(self).matrix(),
            final(self).end() == old(self).end(),
            0 <= old(self).slot() <= old(self).end() <= old(self).matrix().n_nz,
            match item {
                Some(e) => old(self).slot() < old(self).end() && e == (
                    old(self).matrix().col_idx@[old(self).slot()],
                    old(self).matrix().val@[old(self).slot()],
                ) && final(self).slot() == old(self).slot() + 1,
                None => old(self).slot() == old(self).end() && final(self).slot() == old(
                    self,
                ).slot(),
            },
    {
        if self.idx >= self.row_end {
            return None;
        }
        let col = self.csr.col_idx[self.idx];
        let val = self.csr.val[self.idx];
        self.idx += 1;
        Some((col, val))
    }
}

impl CSR {
    /// A cursor at the first stored cell of the matrix.
    pub fn iter(&self) -> (it: CSRIter<'_>)
        requires
            self.wf(),
        ensures
            it.wf(),
            it.matrix() == self,
            it.position() == 0,
    {
        CSRIter { csr: self, row: 0, idx: 0 }
    }

    /// A cursor at the first stored cell of row `row`.
    pub fn inter_row(&self, row: usize) -> (it: CSRRowIter<'_>)
        requires
            self.wf(),
            row < self.n_rows,
        ensures
            it.wf(),
            it.matrix() == self,
            it.slot() == self.row_ptr@[row as int],
            it.end() == self.row_ptr@[row + 1],
    {
        let row_start = self.row_ptr[row];
        let row_end = self.row_ptr[row + 1];
        assert(self.row_ptr@[row + 1] <= self.row_ptr@[self.n_rows as int]);
        CSRRowIter { csr: self, row_end, idx: row_start }
    }
}

} // verus!
