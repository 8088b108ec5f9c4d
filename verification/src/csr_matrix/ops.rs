//! Cell-by-cell addition of two matrices.

use super::ascending;
use super::row_ascending;
use super::Cell;
use super::CSR;
use std::ops::Add;
use vstd::prelude::*;
use vstd::std_specs::ops::AddSpecImpl;

verus! {

/// Why two matrices could not be added.
#[derive(Debug, Clone, Copy, PartialEq, Eq, Structural)]
pub enum CsrError {
    /// The two matrices differ in shape.
    DimensionMismatch,
    /// The sum of some cell does not fit the cell type.
    Overflow,
}

/// What the sum of two sparse maps stores in cell `k`: a value that only
/// one side stores is kept as it is, two stored values are added, and a sum
/// of exactly zero is not stored.
pub open spec fn sum_cell(a: Map<Cell, int>, b: Map<Cell, int>, k: Cell) -> Option<int> {
    if a.contains_key(k) && b.contains_key(k) {
        if a[k] + b[k] != 0 {
            Some(a[k] + b[k])
        } else {
            None
        }
    } else if a.contains_key(k) {
        Some(a[k])
    } else if b.contains_key(k) {
        Some(b[k])
    } else {
        None
    }
}

/// The sum of two sparse maps, cell by cell.
pub open spec fn sum(a: Map<Cell, int>, b: Map<Cell, int>) -> Map<Cell, int> {
    Map::new(|k: Cell| sum_cell(a, b, k) is Some, |k: Cell| sum_cell(a, b, k).unwrap())
}

/// The two values of cell `k`, where both sides store one, add up inside `i64`.
pub open spec fn cell_fits(a: Map<Cell, int>, b: Map<Cell, int>, k: Cell) -> bool {
    a.contains_key(k) && b.contains_key(k) ==> i64::MIN <= a[k] + b[k] <= i64::MAX
}

/// Every cell that both sides store adds up inside `i64`.
pub open spec fn sum_fits(a: Map<Cell, int>, b: Map<Cell, int>) -> bool {
    forall|k: Cell| cell_fits(a, b, k)
}

/// No stored value is zero.
pub open spec fn nonzero(a: Map<Cell, int>) -> bool {
    forall|k: Cell| #[trigger] a.contains_key(k) ==> a[k] != 0
}

/// Adding two sparse maps that share no cell gives their union: every cell
/// of either, with its value.
pub proof fn lemma_sum_disjoint(a: Map<Cell, int>, b: Map<Cell, int>)
    requires
        a.dom().disjoint(b.dom()),
    ensures
        sum(a, b) == a.union_prefer_right(b),
        sum(a, b).dom() == a.dom().union(b.dom()),
{
    assert forall|k: Cell| !(a.contains_key(k) && b.contains_key(k)) by {
        assert(!(a.dom().contains(k) && b.dom().contains(k)));
    }
    assert(sum(a, b) =~= a.union_prefer_right(b));
    assert(sum(a, b).dom() =~= a.dom().union(b.dom()));
}

/// Where both sparse maps store a cell, the sum stores the sum of the two
/// values, unless that is zero: then the sum does not store the cell.
pub proof fn lemma_sum_overlap(a: Map<Cell, int>, b: Map<Cell, int>, k: Cell)
    requires
        a.contains_key(k),
        b.contains_key(k),
    ensures
        a[k] + b[k] != 0 ==> sum(a, b).contains_key(k) && sum(a, b)[k] == a[k] + b[k],
        a[k] + b[k] == 0 ==> !sum(a, b).contains_key(k),
{
}

/// The order of the two operands does not matter to the sum.
pub proof fn lemma_sum_commutative(a: Map<Cell, int>, b: Map<Cell, int>)
    ensures
        sum(a, b) == sum(b, a),
{
    assert(sum(a, b) =~= sum(b, a));
}

/// Among sparse maps that store no zero, it does not matter in which
/// order three of them are added up.
pub proof fn lemma_sum_associative(a: Map<Cell, int>, b: Map<Cell, int>, c: Map<Cell, int>)
    requires
        nonzero(a),
        nonzero(b),
        nonzero(c),
    ensures
        sum(sum(a, b), c) == sum(a, sum(b, c)),
{
    assert(sum(sum(a, b), c) =~= sum(a, sum(b, c)));
}

/// The sum of sparse maps that store no zero stores no zero.
pub proof fn lemma_sum_nonzero(a: Map<Cell, int>, b: Map<Cell, int>)
    requires
        nonzero(a),
        nonzero(b),
    ensures
        nonzero(sum(a, b)),
{
}

/// The slots `lo .. hi` of the output are row `r` of the sum, as far as
/// the columns below `bound` go.
spec fn row_summed(
    a: Map<Cell, int>,
    b: Map<Cell, int>,
    r: int,
    cols: Seq<usize>,
    vals: Seq<i64>,
    lo: int,
    hi: int,
    bound: int,
) -> bool {
    &&& 0 <= lo <= hi <= cols.len()
    &&& cols.len() == vals.len()
    &&& ascending(cols, lo, hi)
    &&& forall|k: int|
        lo <= k < hi ==> #[trigger] cols[k] < bound && sum_cell(a, b, (r, cols[k] as int)) == Some(
            vals[k] as int,
        )
    &&& forall|c: int|
        0 <= c < bound && #[trigger] sum_cell(a, b, (r, c)) is Some ==> exists|k: int|
            lo <= k < hi && #[trigger] cols[k] == c
    &&& forall|c: int| 0 <= c < bound ==> #[trigger] cell_fits(a, b, (r, c))
}

/// Slots below `p` of row `r` hold columns below `lo`, and slot `p`, if the
/// row has it, holds a column of at least `hi`: so the row stores no column
/// from `lo` up to `hi`.
proof fn lemma_gap(m: &CSR, r: int, p: int, lo: int, hi: int)
    requires
        m.wf(),
        0 <= r < m.n_rows,
        m.row_ptr@[r] <= p <= m.row_ptr@[r + 1],
        forall|j: int| m.row_ptr@[r] <= j < p ==> #[trigger] m.col_idx@[j] < lo,
        p < m.row_ptr@[r + 1] ==> m.col_idx@[p] >= hi,
    ensures
        forall|c: int| lo <= c < hi ==> !#[trigger] m@.contains_key((r, c)),
{
    assert forall|c: int| lo <= c < hi implies !#[trigger] m@.contains_key((r, c)) by {
        if m.stores(r, c) {
            let j = m.slot(r, c);
            assert(m.holds_at(r, c, j));
            assert(row_ascending(m.row_ptr@, m.col_idx@, r));
            if j > p {
                assert(m.col_idx@[p] < m.col_idx@[j]);
            }
        }
    }
}

/// Appending to the output leaves a finished row as it is.
proof fn lemma_row_kept(
    a: Map<Cell, int>,
    b: Map<Cell, int>,
    r: int,
    cols: Seq<usize>,
    vals: Seq<i64>,
    lo: int,
    hi: int,
    bound: int,
    c: usize,
    v: i64,
)
    requires
        row_summed(a, b, r, cols, vals, lo, hi, bound),
    ensures
        row_summed(a, b, r, cols.push(c), vals.push(v), lo, hi, bound),
{
    let cols2 = cols.push(c);
    let vals2 = vals.push(v);
    assert forall|k: int| lo <= k < hi implies #[trigger] cols2[k] < bound && sum_cell(
        a,
        b,
        (r, cols2[k] as int),
    ) == Some(vals2[k] as int) by {
        assert(cols2[k] == cols[k]);
        assert(vals2[k] == vals[k]);
    }
    assert forall|c: int| 0 <= c < bound && #[trigger] sum_cell(a, b, (r, c)) is Some implies exists|
        k: int,
    |
        lo <= k < hi && #[trigger] cols2[k] == c by {
        let k = choose|k: int| lo <= k < hi && #[trigger] cols[k] == c;
        assert(cols2[k] == c);
    }
    assert forall|j: int, k: int| lo <= j < k < hi implies #[trigger] cols2[j] < #[trigger] cols2[k] by {
        assert(cols2[j] == cols[j]);
        assert(cols2[k] == cols[k]);
    }
}

/// One more column of row `r` is settled: the columns from `bound` up to
/// `c` are stored on neither side, and `out` is what the sum stores in
/// column `c`.
proof fn lemma_row_extended(
    a: Map<Cell, int>,
    b: Map<Cell, int>,
    r: int,
    cols: Seq<usize>,
    vals: Seq<i64>,
    lo: int,
    bound: int,
    c: usize,
    out: Option<i64>,
)
    requires
        row_summed(a, b, r, cols, vals, lo, cols.len() as int, bound),
        0 <= bound <= c,
        forall|x: int| bound <= x < c ==> !a.contains_key((r, x)) && !b.contains_key((r, x)),
        cell_fits(a, b, (r, c as int)),
        sum_cell(a, b, (r, c as int)) == match out {
            Some(v) => Some(v as int),
            None => None::<int>,
        },
    ensures
        match out {
            Some(v) => row_summed(
                a,
                b,
                r,
                cols.push(c),
                vals.push(v),
                lo,
                cols.len() as int + 1,
                c + 1,
            ),
            None => row_summed(a, b, r, cols, vals, lo, cols.len() as int, c + 1),
        },
{
    let hi = cols.len() as int;
    match out {
        Some(v) => {
            let cols2 = cols.push(c);
            let vals2 = vals.push(v);
            assert forall|j: int, k: int| lo <= j < k < hi + 1 implies #[trigger] cols2[j]
                < #[trigger] cols2[k] by {
                assert(cols2[j] == cols[j]);
                if k < hi {
                    assert(cols2[k] == cols[k]);
                }
            }
            assert forall|k: int| lo <= k < hi + 1 implies #[trigger] cols2[k] < c + 1 && sum_cell(
                a,
                b,
                (r, cols2[k] as int),
            ) == Some(vals2[k] as int) by {
                if k < hi {
                    assert(cols2[k] == cols[k]);
                    assert(vals2[k] == vals[k]);
                }
            }
            assert forall|x: int| 0 <= x < c + 1 && #[trigger] sum_cell(a, b, (r, x)) is Some implies exists|
                k: int,
            |
                lo <= k < hi + 1 && #[trigger] cols2[k] == x by {
                if x < bound {
                    let k = choose|k: int| lo <= k < hi && #[trigger] cols[k] == x;
                    assert(cols2[k] == x);
                } else {
                    assert(x == c);
                    assert(cols2[hi] == x);
                }
            }
            assert forall|x: int| 0 <= x < c + 1 implies #[trigger] cell_fits(a, b, (r, x)) by {}
        },
        None => {
            assert forall|x: int| 0 <= x < c + 1 && #[trigger] sum_cell(a, b, (r, x)) is Some implies exists|
                k: int,
            |
                lo <= k < hi && #[trigger] cols[k] == x by {
                assert(x < bound);
            }
            assert forall|x: int| 0 <= x < c + 1 implies #[trigger] cell_fits(a, b, (r, x)) by {}
        },
    }
}

/// A row that neither side continues beyond `bound` is settled for every column.
proof fn lemma_row_closed(
    a: Map<Cell, int>,
    b: Map<Cell, int>,
    r: int,
    cols: Seq<usize>,
    vals: Seq<i64>,
    lo: int,
    bound: int,
    top: int,
)
    requires
        row_summed(a, b, r, cols, vals, lo, cols.len() as int, bound),
        bound <= top,
        forall|x: int| bound <= x < top ==> !a.contains_key((r, x)) && !b.contains_key((r, x)),
    ensures
        row_summed(a, b, r, cols, vals, lo, cols.len() as int, top),
{
    let hi = cols.len() as int;
    assert forall|x: int| 0 <= x < top && #[trigger] sum_cell(a, b, (r, x)) is Some implies exists|
        k: int,
    |
        lo <= k < hi && #[trigger] cols[k] == x by {
        assert(x < bound);
    }
    assert forall|x: int| 0 <= x < top implies #[trigger] cell_fits(a, b, (r, x)) by {}
}

/// What adding `a` and `b` gives: an error where the shapes differ or a
/// cell overflows, else the matrix of the same shape that holds the sum.
pub open spec fn added(a: &CSR, b: &CSR, res: Result<CSR, CsrError>) -> bool {
    if a.n_rows != b.n_rows || a.n_cols != b.n_cols {
        res == Err::<CSR, CsrError>(CsrError::DimensionMismatch)
    } else if !sum_fits(a@, b@) {
        res == Err::<CSR, CsrError>(CsrError::Overflow)
    } else {
        &&& res matches Ok(m)
        &&& m.wf()
        &&& m.n_rows == a.n_rows
        &&& m.n_cols == a.n_cols
        &&& m@ == sum(a@, b@)
        &&& a.in_shape() && b.in_shape() ==> m.in_shape()
    }
}

impl<'a> Add<&'a CSR> for &'a CSR {
    type Output = Result<CSR, CsrError>;

    /// Adds two matrices of one shape by merging their rows, column by
    /// column in ascending order.
    fn add(self, other: &'a CSR) -> (res: Result<CSR, CsrError>)
        ensures
            added(self, other, res),
    {
        if self.n_rows != other.n_rows || self.n_cols != other.n_cols {
            return Err(CsrError::DimensionMismatch);
        }
        let n_rows = self.n_rows;
        let ghost a = self@;
        let ghost b = other@;
        let ghost top: int = usize::MAX + 1;
        let mut row_ptr: Vec<usize> = Vec::with_capacity(self.row_ptr.len());
        let mut col_idx: Vec<usize> = Vec::new();
        let mut val: Vec<i64> = Vec::new();

        row_ptr.push(0);
        let mut i: usize = 0;
        while i < n_rows
            invariant
                self.wf(),
                other.wf(),
                n_rows == self.n_rows == other.n_rows,
                self.n_cols == other.n_cols,
                top == usize::MAX + 1,
                a == self@,
                b == other@,
                0 <= i <= n_rows,
                row_ptr@.len() == i + 1,
                row_ptr@[0] == 0,
                row_ptr@[i as int] == col_idx@.len(),
                col_idx@.len() == val@.len(),
                forall|r: int, s: int|
                    0 <= r <= s <= i ==> #[trigger] row_ptr@[r] <= #[trigger] row_ptr@[s],
                forall|r: int|
                    0 <= r < i ==> #[trigger] row_summed(
                        a,
                        b,
                        r,
                        col_idx@,
                        val@,
                        row_ptr@[r] as int,
                        row_ptr@[r + 1] as int,
                        top,
                    ),
            decreases n_rows - i,
        {
            let lhs_row_end = self.row_ptr[i + 1];
            let rhs_row_end = other.row_ptr[i + 1];
            let mut lhs_i = self.row_ptr[i];
            let mut rhs_i = other.row_ptr[i];
            let ghost start = col_idx@.len() as int;
            let ghost mut bound: int = 0;
            assert(self.row_ptr@[i + 1] <= self.row_ptr@[self.n_rows as int]);
            assert(other.row_ptr@[i + 1] <= other.row_ptr@[other.n_rows as int]);
            while lhs_i < lhs_row_end || rhs_i < rhs_row_end
                invariant
                    self.wf(),
                    other.wf(),
                    n_rows == self.n_rows == other.n_rows,
                    self.n_cols == other.n_cols,
                    top == usize::MAX + 1,
                    a == self@,
                    b == other@,
                    0 <= i < n_rows,
                    lhs_row_end == self.row_ptr@[i + 1],
                    rhs_row_end == other.row_ptr@[i + 1],
                    self.row_ptr@[i as int] <= lhs_i <= lhs_row_end <= self.n_nz,
                    other.row_ptr@[i as int] <= rhs_i <= rhs_row_end <= other.n_nz,
                    0 <= bound <= top,
                    forall|j: int|
                        self.row_ptr@[i as int] <= j < lhs_i ==> #[trigger] self.col_idx@[j] < bound,
                    forall|j: int|
                        other.row_ptr@[i as int] <= j < rhs_i ==> #[trigger] other.col_idx@[j]
                            < bound,
                    lhs_i < lhs_row_end ==> self.col_idx@[lhs_i as int] >= bound,
                    rhs_i < rhs_row_end ==> other.col_idx@[rhs_i as int] >= bound,
                    row_ptr@.len() == i + 1,
                    row_ptr@[0] == 0,
                    row_ptr@[i as int] == start,
                    col_idx@.len() == val@.len(),
                    forall|r: int, s: int|
                        0 <= r <= s <= i ==> #[trigger] row_ptr@[r] <= #[trigger] row_ptr@[s],
                    row_summed(a, b, i as int, col_idx@, val@, start, col_idx@.len() as int, bound),
                    forall|r: int|
                        0 <= r < i ==> #[trigger] row_summed(
                            a,
                            b,
                            r,
                            col_idx@,
                            val@,
                            row_ptr@[r] as int,
                            row_ptr@[r + 1] as int,
                            top,
                        ),
                decreases (lhs_row_end - lhs_i) + (rhs_row_end - rhs_i),
            {
                let take_lhs = lhs_i < lhs_row_end && (rhs_i == rhs_row_end
                    || self.col_idx[lhs_i] <= other.col_idx[rhs_i]);
                let take_rhs = rhs_i < rhs_row_end && (lhs_i == lhs_row_end
                    || other.col_idx[rhs_i] <= self.col_idx[lhs_i]);
                let col = if take_lhs {
                    self.col_idx[lhs_i]
                } else {
                    other.col_idx[rhs_i]
                };
                proof {
                    let r = i as int;
                    lemma_gap(self, r, lhs_i as int, bound, col as int);
                    lemma_gap(other, r, rhs_i as int, bound, col as int);
                    if take_lhs {
                        self.lemma_slot(r, col as int, lhs_i as int);
                    } else {
                        lemma_gap(self, r, lhs_i as int, col as int, col + 1);
                    }
                    if take_rhs {
                        other.lemma_slot(r, col as int, rhs_i as int);
                    } else {
                        lemma_gap(other, r, rhs_i as int, col as int, col + 1);
                    }
                    assert(row_ascending(self.row_ptr@, self.col_idx@, r));
                    assert(row_ascending(other.row_ptr@, other.col_idx@, r));
                }
                let out = if take_lhs && take_rhs {
                    match self.val[lhs_i].checked_add(other.val[rhs_i]) {
                        Some(total) => if total != 0 {
                            Some(total)
                        } else {
                            None
                        },
                        None => {
                            assert(!cell_fits(a, b, (i as int, col as int)));
                            return Err(CsrError::Overflow);
                        },
                    }
                } else if take_lhs {
                    Some(self.val[lhs_i])
                } else {
                    Some(other.val[rhs_i])
                };
                proof {
                    lemma_row_extended(a, b, i as int, col_idx@, val@, start, bound, col, out);
                    bound = col + 1;
                }
                if let Some(v) = out {
                    proof {
                        assert forall|r: int| 0 <= r < i implies #[trigger] row_summed(
                            a,
                            b,
                            r,
                            col_idx@.push(col),
                            val@.push(v),
                            row_ptr@[r] as int,
                            row_ptr@[r + 1] as int,
                            top,
                        ) by {
                            lemma_row_kept(
                                a,
                                b,
                                r,
                                col_idx@,
                                val@,
                                row_ptr@[r] as int,
                                row_ptr@[r + 1] as int,
                                top,
                                col,
                                v,
                            );
                        }
                    }
                    col_idx.push(col);
                    val.push(v);
                }
                if take_lhs {
                    lhs_i += 1;
                }
                if take_rhs {
                    rhs_i += 1;
                }
            }
            proof {
                let r = i as int;
                lemma_gap(self, r, lhs_i as int, bound, top);
                lemma_gap(other, r, rhs_i as int, bound, top);
                lemma_row_closed(a, b, r, col_idx@, val@, start, bound, top);
            }
            row_ptr.push(val.len());
            i += 1;
        }
        let sum = CSR { n_rows, n_cols: self.n_cols, n_nz: val.len(), row_ptr, col_idx, val };
        proof {
            assert forall|k: Cell| cell_fits(a, b, k) by {
                if a.contains_key(k) {
                    self.lemma_read_fits(k);
                    assert(row_summed(
                        a,
                        b,
                        k.0,
                        sum.col_idx@,
                        sum.val@,
                        sum.row_ptr@[k.0] as int,
                        sum.row_ptr@[k.0 + 1] as int,
                        top,
                    ));
                }
            }
            assert forall|r: int| 0 <= r < sum.row_ptr@.len() - 1 implies #[trigger] row_ascending(
                sum.row_ptr@,
                sum.col_idx@,
                r,
            ) by {
                assert(row_summed(
                    a,
                    b,
                    r,
                    sum.col_idx@,
                    sum.val@,
                    sum.row_ptr@[r] as int,
                    sum.row_ptr@[r + 1] as int,
                    top,
                ));
            }
            assert(sum.wf());
            assert forall|k: Cell| sum@.contains_key(k) implies #[trigger] sum_cell(a, b, k)
                == Some(sum@[k]) by {
                let j = sum.slot(k.0, k.1);
                assert(sum.holds_at(k.0, k.1, j));
                sum.lemma_slot(k.0, k.1, j);
                assert(row_summed(
                    a,
                    b,
                    k.0,
                    sum.col_idx@,
                    sum.val@,
                    sum.row_ptr@[k.0] as int,
                    sum.row_ptr@[k.0 + 1] as int,
                    top,
                ));
            }
            assert forall|k: Cell| #[trigger] sum_cell(a, b, k) is Some implies sum@.contains_key(
                k,
            ) by {
                if a.contains_key(k) {
                    self.lemma_read_fits(k);
                } else {
                    other.lemma_read_fits(k);
                }
                assert(row_summed(
                    a,
                    b,
                    k.0,
                    sum.col_idx@,
                    sum.val@,
                    sum.row_ptr@[k.0] as int,
                    sum.row_ptr@[k.0 + 1] as int,
                    top,
                ));
                let j = choose|j: int|
                    sum.row_ptr@[k.0] <= j < sum.row_ptr@[k.0 + 1] && #[trigger] sum.col_idx@[j]
                        == k.1;
                assert(sum.holds_at(k.0, k.1, j));
            }
            assert(sum@ =~= self::sum(a, b));
            if self.in_shape() && other.in_shape() {
                sum.lemma_in_shape();
                assert forall|k: Cell| #[trigger] sum@.contains_key(k) implies k.1
                    < sum.n_cols by {
                    self.lemma_read_fits(k);
                    other.lemma_read_fits(k);
                }
            }
        }
        Ok(sum)
    }
}

impl<'a> AddSpecImpl<&'a CSR> for &'a CSR {
    open spec fn obeys_add_spec() -> bool {
        false
    }

    open spec fn add_req(self, other: &'a CSR) -> bool {
        self.wf() && other.wf()
    }

    open spec fn add_spec(self, other: &'a CSR) -> Result<CSR, CsrError> {
        arbitrary()
    }
}

} // verus!
