//! The storage of a matrix is determined by its shape and its cells.

use super::construct::cells_of;
use super::construct::distinct_cells;
use super::construct::fits_rows;
use super::ops::added;
use super::ops::lemma_sum_associative;
use super::ops::lemma_sum_commutative;
use super::ops::nonzero;
use super::ops::sum_fits;
use super::ops::CsrError;
use super::read;
use super::row_ascending;
use super::Cell;
use super::CSR;
use vstd::prelude::*;

verus! {

/// The two matrices agree in every array and in the number of stored cells.
pub open spec fn same_storage(a: &CSR, b: &CSR) -> bool {
    &&& a.n_rows == b.n_rows
    &&& a.n_cols == b.n_cols
    &&& a.n_nz == b.n_nz
    &&& a.row_ptr@ == b.row_ptr@
    &&& a.col_idx@ == b.col_idx@
    &&& a.val@ == b.val@
}

/// Row `r` starts at the same slot in both matrices, and its first `x`
/// slots hold the same columns.
spec fn rows_agree(a: &CSR, b: &CSR, r: int, x: int) -> bool {
    &&& a.row_ptr@[r] == b.row_ptr@[r]
    &&& forall|j: int|
        a.row_ptr@[r] <= j < a.row_ptr@[r] + x ==> #[trigger] a.col_idx@[j] == b.col_idx@[j]
}

/// If two rows of the same cells agree in their first `x` columns, and `a`
/// has a further one, then `b` has it too, in the same slot.
proof fn lemma_next_column(a: &CSR, b: &CSR, r: int, x: int)
    requires
        a.wf(),
        b.wf(),
        a.n_rows == b.n_rows,
        a@ == b@,
        0 <= r < a.n_rows,
        0 <= x,
        rows_agree(a, b, r, x),
        a.row_ptr@[r] + x < a.row_ptr@[r + 1],
    ensures
        b.row_ptr@[r] + x < b.row_ptr@[r + 1],
        b.col_idx@[b.row_ptr@[r] + x] <= a.col_idx@[a.row_ptr@[r] + x],
{
    let s = a.row_ptr@[r] as int;
    let c = a.col_idx@[s + x] as int;
    a.lemma_slot(r, c, s + x);
    assert(b@.contains_key((r, c)));
    assert(b.stores(r, c));
    let j = b.slot(r, c);
    assert(b.holds_at(r, c, j));
    assert(row_ascending(a.row_ptr@, a.col_idx@, r));
    assert(row_ascending(b.row_ptr@, b.col_idx@, r));
    if j < s + x {
        assert(a.col_idx@[j] == b.col_idx@[j]);
        assert(a.col_idx@[j] < a.col_idx@[s + x]);
    }
    if j > s + x {
        assert(b.col_idx@[s + x] < b.col_idx@[j]);
    }
}

/// Two rows of the same cells agree in as many columns as either has.
proof fn lemma_rows_agree(a: &CSR, b: &CSR, r: int, x: int)
    requires
        a.wf(),
        b.wf(),
        a.n_rows == b.n_rows,
        a@ == b@,
        0 <= r < a.n_rows,
        a.row_ptr@[r] == b.row_ptr@[r],
        0 <= x,
        a.row_ptr@[r] + x <= a.row_ptr@[r + 1],
    ensures
        rows_agree(a, b, r, x),
        b.row_ptr@[r] + x <= b.row_ptr@[r + 1],
    decreases x,
{
    if x > 0 {
        lemma_rows_agree(a, b, r, x - 1);
        lemma_next_column(a, b, r, x - 1);
        lemma_next_column(b, a, r, x - 1);
    }
}

/// Every row starts at the same slot in both matrices.
proof fn lemma_offsets_agree(a: &CSR, b: &CSR, r: int)
    requires
        a.wf(),
        b.wf(),
        a.n_rows == b.n_rows,
        a@ == b@,
        0 <= r <= a.n_rows,
    ensures
        a.row_ptr@[r] == b.row_ptr@[r],
    decreases r,
{
    if r > 0 {
        lemma_offsets_agree(a, b, r - 1);
        let q = r - 1;
        assert(a.row_ptr@[q] <= a.row_ptr@[q + 1]);
        assert(b.row_ptr@[q] <= b.row_ptr@[q + 1]);
        lemma_rows_agree(a, b, q, a.row_ptr@[q + 1] - a.row_ptr@[q]);
        lemma_rows_agree(b, a, q, b.row_ptr@[q + 1] - b.row_ptr@[q]);
    }
}

/// Two well-formed matrices of one shape that store the same cells with
/// the same values are stored alike: same offsets, same columns, same
/// values.
pub proof fn lemma_same_cells_same_storage(a: &CSR, b: &CSR)
    requires
        a.wf(),
        b.wf(),
        a.n_rows == b.n_rows,
        a.n_cols == b.n_cols,
        a@ == b@,
    ensures
        same_storage(a, b),
{
    assert forall|r: int| 0 <= r < a.row_ptr@.len() implies a.row_ptr@[r] == b.row_ptr@[r] by {
        lemma_offsets_agree(a, b, r);
    }
    assert(a.row_ptr@ =~= b.row_ptr@);
    lemma_offsets_agree(a, b, a.n_rows as int);
    assert forall|j: int| 0 <= j < a.n_nz implies a.col_idx@[j] == b.col_idx@[j] && a.val@[j]
        == b.val@[j] by {
        a.lemma_slot_row(j);
        let r = a.row_of(j);
        let s = a.row_ptr@[r] as int;
        lemma_rows_agree(a, b, r, a.row_ptr@[r + 1] - s);
        assert(a.col_idx@[j] == b.col_idx@[j]);
        let c = a.col_idx@[j] as int;
        a.lemma_slot(r, c, j);
        b.lemma_slot(r, c, j);
    }
    assert(a.col_idx@ =~= b.col_idx@);
    assert(a.val@ =~= b.val@);
}

/// Building a matrix from the list of its own stored cells gives the
/// matrix again: the list is a valid input, and any well-formed matrix of
/// the same shape that stores what the list describes has the same
/// offsets, columns and values.
pub proof fn lemma_round_trip(m: &CSR, rebuilt: &CSR)
    requires
        m.wf(),
        rebuilt.wf(),
        rebuilt.n_rows == m.n_rows,
        rebuilt.n_cols == m.n_cols,
        rebuilt@ == cells_of(m.entries()),
    ensures
        fits_rows(m.entries(), m.n_rows as int),
        distinct_cells(m.entries()),
        same_storage(m, rebuilt),
{
    m.lemma_entries();
    lemma_same_cells_same_storage(m, rebuilt);
}

/// In every well-formed matrix, and so in every matrix that `from_triplet`,
/// `from_fxhash` or an addition gave, the columns of a row ascend strictly:
/// no row stores a column twice.
pub proof fn lemma_rows_ascend(m: &CSR, r: int, j: int, k: int)
    requires
        m.wf(),
        0 <= r < m.n_rows,
        m.row_ptr@[r] <= j < k < m.row_ptr@[r + 1],
    ensures
        m.col_idx@[j] < m.col_idx@[k],
{
    assert(row_ascending(m.row_ptr@, m.col_idx@, r));
}

/// What a successful addition stores, cell by cell. Every cell reads the
/// sum of what it reads in the operands. A cell that one operand stores is
/// stored with that value; a cell that both store is stored with the sum
/// of the two values, unless the sum is zero: then it is not stored. No
/// cell is stored twice, and a cell that neither operand stores is not stored.
pub proof fn lemma_added_cell(a: &CSR, b: &CSR, total: &CSR, k: Cell)
    requires
        added(a, b, Ok(*total)),
    ensures
        read(total@, k) == read(a@, k) + read(b@, k),
        a@.contains_key(k) && !b@.contains_key(k) ==> total@.contains_key(k) && total@[k] == a@[k],
        !a@.contains_key(k) && b@.contains_key(k) ==> total@.contains_key(k) && total@[k] == b@[k],
        a@.contains_key(k) && b@.contains_key(k) && a@[k] + b@[k] != 0 ==> total@.contains_key(k)
            && total@[k] == a@[k] + b@[k],
        a@.contains_key(k) && b@.contains_key(k) && a@[k] + b@[k] == 0 ==> !total@.contains_key(k),
        !a@.contains_key(k) && !b@.contains_key(k) ==> !total@.contains_key(k),
        distinct_cells(total.entries()),
        cells_of(total.entries()) == total@,
{
    total.lemma_entries();
}

/// Adding two matrices in either order fails alike or gives matrices
/// that are stored alike.
pub proof fn lemma_add_commutes(
    a: &CSR,
    b: &CSR,
    ab: Result<CSR, CsrError>,
    ba: Result<CSR, CsrError>,
)
    requires
        a.wf(),
        b.wf(),
        added(a, b, ab),
        added(b, a, ba),
    ensures
        match (ab, ba) {
            (Ok(x), Ok(y)) => same_storage(&x, &y),
            (Err(e), Err(f)) => e == f,
            _ => false,
        },
{
    lemma_sum_commutative(a@, b@);
    assert(sum_fits(a@, b@) == sum_fits(b@, a@)) by {
        if sum_fits(a@, b@) {
            assert forall|k: Cell| super::ops::cell_fits(b@, a@, k) by {
                assert(super::ops::cell_fits(a@, b@, k));
            }
        }
        if sum_fits(b@, a@) {
            assert forall|k: Cell| super::ops::cell_fits(a@, b@, k) by {
                assert(super::ops::cell_fits(b@, a@, k));
            }
        }
    }
    if ab is Ok && ba is Ok {
        lemma_same_cells_same_storage(&ab->Ok_0, &ba->Ok_0);
    }
}

/// Three matrices that store no zero, added up in either grouping, give
/// matrices that are stored alike, where every step succeeds.
pub proof fn lemma_add_associates(
    a: &CSR,
    b: &CSR,
    c: &CSR,
    ab: &CSR,
    bc: &CSR,
    left: &CSR,
    right: &CSR,
)
    requires
        nonzero(a@),
        nonzero(b@),
        nonzero(c@),
        added(a, b, Ok(*ab)),
        added(b, c, Ok(*bc)),
        added(ab, c, Ok(*left)),
        added(a, bc, Ok(*right)),
    ensures
        same_storage(left, right),
{
    lemma_sum_associative(a@, b@, c@);
    lemma_same_cells_same_storage(left, right);
}

} // verus!
