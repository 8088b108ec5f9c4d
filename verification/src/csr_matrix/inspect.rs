//! Checking a matrix that came from outside, and measuring its storage.

use super::row_ascending;
use super::CSR;
use vstd::layout::size_of;
use vstd::prelude::*;

verus! {

/// Offsets that never fall from one row to the next never fall at all.
proof fn lemma_offsets_rise(row_ptr: Seq<usize>, r: int, s: int)
    requires
        forall|q: int| 0 <= q < row_ptr.len() - 1 ==> #[trigger] row_ptr[q] <= row_ptr[q + 1],
        0 <= r <= s < row_ptr.len(),
    ensures
        row_ptr[r] <= row_ptr[s],
    decreases s - r,
{
    if r < s {
        lemma_offsets_rise(row_ptr, r, s - 1);
        assert(row_ptr[s - 1] <= row_ptr[s - 1 + 1]);
    }
}

/// Columns that rise from each slot to the next rise over any distance.
proof fn lemma_columns_rise(col_idx: Seq<usize>, lo: int, j: int, k: int)
    requires
        forall|x: int| lo <= x < k ==> #[trigger] col_idx[x] < col_idx[x + 1],
        lo <= j < k,
    ensures
        col_idx[j] < col_idx[k],
    decreases k - j,
{
    if j + 1 < k {
        lemma_columns_rise(col_idx, lo, j, k - 1);
    }
    assert(col_idx[k - 1] < col_idx[k - 1 + 1]);
}

impl CSR {
    /// Whether the storage obeys its invariant and every stored column lies
    /// inside the matrix. A matrix that was put together from its parts
    /// may fail either.
    pub fn is_valid(&self) -> (ok: bool)
        ensures
            ok == (self.wf() && self.in_shape()),
    {
        let n_rows = self.n_rows;
        let n_nz = self.n_nz;
        if self.col_idx.len() != n_nz || self.val.len() != n_nz {
            return false;
        }
        let n_offsets = self.row_ptr.len();
        if n_rows == usize::MAX || n_offsets != n_rows + 1 {
            return false;
        }
        if self.row_ptr[0] != 0 || self.row_ptr[n_rows] != n_nz {
            return false;
        }
        let mut j: usize = 0;
        while j < n_nz
            invariant
                n_nz == self.n_nz,
                self.col_idx@.len() == n_nz,
                0 <= j <= n_nz,
                forall|x: int| 0 <= x < j ==> #[trigger] self.col_idx@[x] < self.n_cols,
            decreases n_nz - j,
        {
            if self.col_idx[j] >= self.n_cols {
                return false;
            }
            j += 1;
        }
        let mut r: usize = 0;
        while r < n_rows
            invariant
                n_rows == self.n_rows,
                n_nz == self.n_nz,
                self.row_ptr@.len() == n_rows + 1,
                self.col_idx@.len() == n_nz,
                self.row_ptr@[0] == 0,
                self.row_ptr@[n_rows as int] == n_nz,
                0 <= r <= n_rows,
                self.row_ptr@[r as int] <= n_nz,
                forall|q: int| 0 <= q < r ==> #[trigger] self.row_ptr@[q] <= self.row_ptr@[q + 1],
                forall|q: int|
                    0 <= q < r ==> #[trigger] row_ascending(self.row_ptr@, self.col_idx@, q),
            decreases n_rows - r,
        {
            let start = self.row_ptr[r];
            let end = self.row_ptr[r + 1];
            if end < start || end > n_nz {
                proof {
                    if self.wf() {
                        assert(self.row_ptr@[r as int] <= self.row_ptr@[r + 1]);
                        assert(self.row_ptr@[r + 1] <= self.row_ptr@[n_rows as int]);
                    }
                }
                return false;
            }
            let mut k: usize = start;
            while end - k > 1
                invariant
                    self.col_idx@.len() == n_nz,
                    start == self.row_ptr@[r as int],
                    end == self.row_ptr@[r + 1],
                    0 <= r < self.n_rows,
                    self.row_ptr@.len() == self.n_rows + 1,
                    start <= end <= n_nz,
                    start <= k <= end,
                    forall|x: int| start <= x < k ==> #[trigger] self.col_idx@[x] < self.col_idx@[x + 1],
                decreases end - k,
            {
                if self.col_idx[k] >= self.col_idx[k + 1] {
                    proof {
                        if self.wf() {
                            assert(row_ascending(self.row_ptr@, self.col_idx@, r as int));
                            assert(self.col_idx@[k as int] < self.col_idx@[k + 1]);
                        }
                    }
                    return false;
                }
                k += 1;
            }
            proof {
                assert forall|x: int, y: int| start <= x < y < end implies #[trigger] self.col_idx@[x]
                    < #[trigger] self.col_idx@[y] by {
                    lemma_columns_rise(self.col_idx@, start as int, x, y);
                }
            }
            r += 1;
        }
        proof {
            assert forall|p: int, s: int| 0 <= p <= s <= n_rows implies #[trigger] self.row_ptr@[p]
                <= #[trigger] self.row_ptr@[s] by {
                lemma_offsets_rise(self.row_ptr@, p, s);
            }
        }
        true
    }

    /// The bytes that the three arrays and the fixed part of a matrix take.
    pub open spec fn footprint(&self) -> int {
        (self.n_rows + 1) * size_of::<usize>() + self.n_nz * size_of::<usize>() + self.n_nz
            * size_of::<i64>() + size_of::<Vec<i64>>() + 2 * size_of::<Vec<usize>>() + 3
            * size_of::<usize>()
    }

    /// The bytes that the matrix takes, or the largest `usize` where the
    /// number does not fit.
    pub fn size(&self) -> (bytes: usize)
        ensures
            bytes == if self.footprint() <= usize::MAX {
                self.footprint()
            } else {
                usize::MAX as int
            },
    {
        let word = core::mem::size_of::<usize>();
        let cell = core::mem::size_of::<i64>();
        let values = core::mem::size_of::<Vec<i64>>();
        let indices = core::mem::size_of::<Vec<usize>>();
        let ghost a = (self.n_rows + 1) * word;
        let ghost b = self.n_nz * word;
        let ghost c = self.n_nz * cell;
        proof {
            assert(a >= 0 && b >= 0 && c >= 0) by (nonlinear_arith)
                requires
                    a == (self.n_rows + 1) * word,
                    b == self.n_nz * word,
                    c == self.n_nz * cell,
            ;
        }
        let rows = match self.n_rows.checked_add(1) {
            Some(n) => n,
            None => {
                assert(a > usize::MAX) by (nonlinear_arith)
                    requires
                        a == (self.n_rows + 1) * word,
                        self.n_rows + 1 > usize::MAX,
                        word >= 1,
                ;
                return usize::MAX;
            },
        };
        let offsets = match rows.checked_mul(word) {
            Some(n) => n,
            None => {
                return usize::MAX;
            },
        };
        let columns = match self.n_nz.checked_mul(word) {
            Some(n) => n,
            None => {
                return usize::MAX;
            },
        };
        let cells = match self.n_nz.checked_mul(cell) {
            Some(n) => n,
            None => {
                return usize::MAX;
            },
        };
        let fixed = match indices.checked_mul(2) {
            Some(n) => n,
            None => {
                return usize::MAX;
            },
        };
        let words = match word.checked_mul(3) {
            Some(n) => n,
            None => {
                return usize::MAX;
            },
        };
        let total = match offsets.checked_add(columns) {
            Some(n) => n,
            None => {
                return usize::MAX;
            },
        };
        let total = match total.checked_add(cells) {
            Some(n) => n,
            None => {
                return usize::MAX;
            },
        };
        let total = match total.checked_add(values) {
            Some(n) => n,
            None => {
                return usize::MAX;
            },
        };
        let total = match total.checked_add(fixed) {
            Some(n) => n,
            None => {
                return usize::MAX;
            },
        };
        match total.checked_add(words) {
            Some(n) => n,
            None => usize::MAX,
        }
    }
}

} // verus!
