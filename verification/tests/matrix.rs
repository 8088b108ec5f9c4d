use rustc_hash::FxHashMap;
use std::ops::Add;
use tag_npmi::csr_matrix::ops::CsrError;
use tag_npmi::csr_matrix::CSR;

fn cells(m: &CSR) -> Vec<(usize, usize, i64)> {
    let mut out = Vec::new();
    let mut it = m.iter();
    while let Some(e) = it.next() {
        out.push(e);
    }
    out
}

fn row(m: &CSR, r: usize) -> Vec<(usize, i64)> {
    let mut out = Vec::new();
    let mut it = m.inter_row(r);
    while let Some(e) = it.next() {
        out.push(e);
    }
    out
}

fn same(a: &CSR, b: &CSR) -> bool {
    a.n_rows == b.n_rows
        && a.n_cols == b.n_cols
        && a.n_nz == b.n_nz
        && a.row_ptr == b.row_ptr
        && a.col_idx == b.col_idx
        && a.val == b.val
}

fn rows_ascend(m: &CSR) -> bool {
    for r in 0..m.n_rows {
        for j in m.row_ptr[r]..m.row_ptr[r + 1] {
            if j + 1 < m.row_ptr[r + 1] && m.col_idx[j] >= m.col_idx[j + 1] {
                return false;
            }
        }
    }
    true
}

#[test]
fn empty_matrix_reads_zero_everywhere() {
    let m = CSR::new(3, 4);
    assert_eq!(m.n_rows, 3);
    assert_eq!(m.n_cols, 4);
    assert_eq!(m.n_nz, 0);
    assert_eq!(m.row_ptr, vec![0, 0, 0, 0]);
    for r in 0..3 {
        for c in 0..4 {
            assert_eq!(m.value(r, c), Some(0));
        }
    }
    assert_eq!(cells(&m), vec![]);
    assert!(m.is_valid());
}

#[test]
fn empty_matrix_without_rows() {
    let m = CSR::new(0, 0);
    assert_eq!(m.row_ptr, vec![0]);
    assert_eq!(m.value(0, 0), None);
    assert_eq!(cells(&m), vec![]);
    assert!(m.is_valid());
}

#[test]
fn from_triplet_sorts_each_row_by_column() {
    let t = vec![(1, 2, 30), (0, 3, 4), (1, 0, 10), (0, 1, 2), (2, 2, 9)];
    let m = CSR::from_triplet(&t, 4, 4);
    assert_eq!(m.row_ptr, vec![0, 2, 4, 5, 5]);
    assert_eq!(m.col_idx, vec![1, 3, 0, 2, 2]);
    assert_eq!(m.val, vec![2, 4, 10, 30, 9]);
    assert_eq!(m.n_nz, 5);
    assert_eq!(m.value(1, 2), Some(30));
    assert_eq!(m.value(1, 1), Some(0));
    assert_eq!(m.value(3, 3), Some(0));
    assert!(m.is_valid());
}

#[test]
fn from_triplet_keeps_a_listed_zero() {
    let m = CSR::from_triplet(&vec![(0, 1, 0), (0, 0, 5)], 1, 2);
    assert_eq!(m.n_nz, 2);
    assert_eq!(cells(&m), vec![(0, 0, 5), (0, 1, 0)]);
    assert_eq!(m.value(0, 1), Some(0));
}

#[test]
fn rows_without_entries_are_empty_spans() {
    let m = CSR::from_triplet(&vec![(3, 0, 1)], 5, 1);
    assert_eq!(m.row_ptr, vec![0, 0, 0, 0, 1, 1]);
    assert_eq!(row(&m, 0), vec![]);
    assert_eq!(row(&m, 3), vec![(0, 1)]);
    assert_eq!(row(&m, 4), vec![]);
}

#[test]
fn value_outside_the_matrix_is_none() {
    let m = CSR::from_triplet(&vec![(0, 0, 1)], 2, 3);
    assert_eq!(m.value(2, 0), None);
    assert_eq!(m.value(0, 3), None);
    assert_eq!(m.value(7, 9), None);
    assert_eq!(m.value(1, 2), Some(0));
    assert_eq!(m.value(0, 0), Some(1));
}

#[test]
fn from_fxhash_does_not_depend_on_walk_order() {
    let mut h: FxHashMap<(usize, usize), i64> = FxHashMap::default();
    let listed = vec![(2, 1, 7), (0, 2, -3), (2, 0, 4), (1, 1, 1), (0, 0, 9), (2, 2, 5)];
    for &(r, c, v) in &listed {
        h.insert((r, c), v);
    }
    let m = CSR::from_fxhash(&h, 3, 3);
    assert_eq!(
        cells(&m),
        vec![(0, 0, 9), (0, 2, -3), (1, 1, 1), (2, 0, 4), (2, 1, 7), (2, 2, 5)]
    );
    assert!(same(&m, &CSR::from_triplet(&listed, 3, 3)));
}

#[test]
fn try_from_fxhash_refuses_cells_outside() {
    let mut h: FxHashMap<(usize, usize), i64> = FxHashMap::default();
    h.insert((0, 0), 1);
    h.insert((1, 5), 2);
    assert!(CSR::try_from_fxhash(&h, 2, 5).is_none());
    assert!(CSR::try_from_fxhash(&h, 1, 6).is_none());
    let m = CSR::try_from_fxhash(&h, 2, 6).unwrap();
    assert_eq!(cells(&m), vec![(0, 0, 1), (1, 5, 2)]);
}

#[test]
fn full_walk_is_row_major() {
    let m = CSR::from_triplet(&vec![(2, 0, 1), (0, 2, 2), (0, 0, 3), (2, 1, 4)], 3, 3);
    let mut it = m.iter();
    assert_eq!(it.next(), Some((0, 0, 3)));
    assert_eq!(it.next(), Some((0, 2, 2)));
    assert_eq!(it.next(), Some((2, 0, 1)));
    assert_eq!(it.next(), Some((2, 1, 4)));
    assert_eq!(it.next(), None);
    assert_eq!(it.next(), None);
    assert_eq!(cells(&m), cells(&m));
}

#[test]
fn row_walk_covers_exactly_the_row() {
    let m = CSR::from_triplet(&vec![(1, 3, 8), (1, 1, 6), (0, 0, 1), (2, 2, 2)], 3, 4);
    let mut it = m.inter_row(1);
    assert_eq!(it.next(), Some((1, 6)));
    assert_eq!(it.next(), Some((3, 8)));
    assert_eq!(it.next(), None);
    assert_eq!(row(&m, 0), vec![(0, 1)]);
    assert_eq!(row(&m, 2), vec![(2, 2)]);
}

#[test]
fn add_merges_rows_and_drops_zero_sums() {
    let a = CSR::from_triplet(&vec![(0, 0, 1), (0, 2, 5), (1, 1, -4)], 2, 3);
    let b = CSR::from_triplet(&vec![(0, 1, 7), (0, 2, -5), (1, 1, 6), (1, 2, 8)], 2, 3);
    let s = (&a).add(&b).unwrap();
    assert_eq!(cells(&s), vec![(0, 0, 1), (0, 1, 7), (1, 1, 2), (1, 2, 8)]);
    assert_eq!(s.row_ptr, vec![0, 2, 4]);
    assert_eq!(s.n_nz, 4);
    assert_eq!(s.value(0, 2), Some(0));
    let t = (&a + &b).unwrap();
    assert!(same(&s, &t));
}

#[test]
fn add_of_disjoint_matrices_is_their_union() {
    let a = CSR::from_triplet(&vec![(0, 0, 1), (2, 1, 3)], 3, 3);
    let b = CSR::from_triplet(&vec![(0, 1, 2), (1, 1, 4), (2, 2, 5)], 3, 3);
    let s = (&a + &b).unwrap();
    assert_eq!(
        cells(&s),
        vec![(0, 0, 1), (0, 1, 2), (1, 1, 4), (2, 1, 3), (2, 2, 5)]
    );
}

#[test]
fn add_with_an_empty_matrix_changes_nothing() {
    let a = CSR::from_triplet(&vec![(0, 0, 1), (1, 2, -3)], 2, 3);
    let e = CSR::new(2, 3);
    assert!(same(&(&a + &e).unwrap(), &a));
    assert!(same(&(&e + &a).unwrap(), &a));
}

#[test]
fn add_refuses_other_shape() {
    let a = CSR::new(2, 3);
    assert_eq!((&a + &CSR::new(3, 2)).err(), Some(CsrError::DimensionMismatch));
    assert_eq!((&a + &CSR::new(2, 4)).err(), Some(CsrError::DimensionMismatch));
    assert_eq!((&a + &CSR::new(1, 3)).err(), Some(CsrError::DimensionMismatch));
}

#[test]
fn add_reports_a_sum_that_does_not_fit() {
    let a = CSR::from_triplet(&vec![(0, 0, i64::MAX)], 1, 1);
    let b = CSR::from_triplet(&vec![(0, 0, 1)], 1, 1);
    assert_eq!((&a + &b).err(), Some(CsrError::Overflow));
    let c = CSR::from_triplet(&vec![(0, 0, i64::MIN)], 1, 1);
    let d = CSR::from_triplet(&vec![(0, 0, -1)], 1, 1);
    assert_eq!((&c + &d).err(), Some(CsrError::Overflow));
    let s = (&a + &c).unwrap();
    assert_eq!(cells(&s), vec![(0, 0, -1)]);
}

#[test]
fn add_in_place_replaces_the_matrix_by_the_sum() {
    let mut a = CSR::from_triplet(&vec![(0, 0, 1), (1, 1, 2)], 2, 2);
    let b = CSR::from_triplet(&vec![(0, 1, 5), (1, 1, -2)], 2, 2);
    assert_eq!(a.add_in_place(&b), Ok(()));
    assert_eq!(cells(&a), vec![(0, 0, 1), (0, 1, 5)]);
    assert_eq!(a.n_nz, 2);
    assert_eq!(a.row_ptr, vec![0, 2, 2]);
}

#[test]
fn add_in_place_leaves_the_matrix_on_failure() {
    let mut a = CSR::from_triplet(&vec![(0, 0, i64::MAX), (1, 0, 3)], 2, 1);
    let before = a.clone();
    let b = CSR::from_triplet(&vec![(0, 0, 1)], 2, 1);
    assert_eq!(a.add_in_place(&b), Err(CsrError::Overflow));
    assert!(same(&a, &before));
    assert_eq!(a.add_in_place(&CSR::new(1, 2)), Err(CsrError::DimensionMismatch));
    assert!(same(&a, &before));
}

#[test]
fn addition_is_commutative_and_associative() {
    let a = CSR::from_triplet(&vec![(0, 0, 1), (0, 3, 2), (2, 1, -7)], 3, 4);
    let b = CSR::from_triplet(&vec![(0, 3, -2), (1, 1, 4), (2, 1, 3)], 3, 4);
    let c = CSR::from_triplet(&vec![(0, 3, 9), (1, 1, -4), (2, 1, 4), (2, 3, 1)], 3, 4);
    let ab = (&a + &b).unwrap();
    let ba = (&b + &a).unwrap();
    assert!(same(&ab, &ba));
    let bc = (&b + &c).unwrap();
    let left = (&ab + &c).unwrap();
    let right = (&a + &bc).unwrap();
    assert!(same(&left, &right));
    let ca = (&c + &a).unwrap();
    let other = (&ca + &b).unwrap();
    assert!(same(&left, &other));
    assert_eq!(cells(&left), vec![(0, 0, 1), (0, 3, 9), (2, 3, 1)]);
}

#[test]
fn rows_stay_in_ascending_column_order() {
    let a = CSR::from_triplet(&vec![(0, 4, 1), (0, 0, 2), (0, 2, 3), (1, 3, 4), (1, 1, 5)], 2, 5);
    let b = CSR::from_triplet(&vec![(0, 3, 1), (0, 1, 2), (1, 4, 3), (1, 0, 4), (1, 3, -4)], 2, 5);
    assert!(rows_ascend(&a));
    assert!(rows_ascend(&b));
    let s = (&a + &b).unwrap();
    assert!(rows_ascend(&s));
    assert_eq!(s.col_idx, vec![0, 1, 2, 3, 4, 0, 1, 4]);
    assert!(s.is_valid());
}

#[test]
fn rebuilding_from_the_own_cells_gives_the_same_storage() {
    let m = CSR::from_triplet(&vec![(3, 1, 5), (0, 2, -1), (3, 0, 8), (1, 1, 0)], 4, 3);
    let again = CSR::from_triplet(&cells(&m), m.n_rows, m.n_cols);
    assert!(same(&m, &again));
    let mut reversed = cells(&m);
    reversed.reverse();
    assert!(same(&m, &CSR::from_triplet(&reversed, m.n_rows, m.n_cols)));
}

#[test]
fn is_valid_finds_broken_storage() {
    let good = CSR::from_triplet(&vec![(0, 0, 1), (0, 2, 2), (1, 1, 3)], 2, 3);
    assert!(good.is_valid());
    let mut m = good.clone();
    m.col_idx = vec![2, 0, 1];
    assert!(!m.is_valid());
    let mut m = good.clone();
    m.col_idx = vec![0, 0, 1];
    assert!(!m.is_valid());
    let mut m = good.clone();
    m.col_idx = vec![0, 3, 1];
    assert!(!m.is_valid());
    let mut m = good.clone();
    m.row_ptr = vec![0, 3, 2];
    assert!(!m.is_valid());
    let mut m = good.clone();
    m.row_ptr = vec![1, 2, 3];
    assert!(!m.is_valid());
    let mut m = good.clone();
    m.row_ptr = vec![0, 2];
    assert!(!m.is_valid());
    let mut m = good.clone();
    m.n_nz = 2;
    assert!(!m.is_valid());
    let mut m = good.clone();
    m.val = vec![1, 2];
    assert!(!m.is_valid());
    let mut m = good.clone();
    m.n_rows = usize::MAX;
    assert!(!m.is_valid());
}

#[test]
fn size_counts_arrays_and_fixed_part() {
    let m = CSR::from_triplet(&vec![(0, 0, 1), (0, 2, 2), (1, 1, 3)], 2, 3);
    let word = std::mem::size_of::<usize>();
    let expected = 3 * word
        + 3 * word
        + 3 * std::mem::size_of::<i64>()
        + std::mem::size_of::<Vec<i64>>()
        + 2 * std::mem::size_of::<Vec<usize>>()
        + 3 * word;
    assert_eq!(m.size(), expected);
    if word == 8 {
        assert_eq!(m.size(), 168);
        assert_eq!(CSR::new(0, 0).size(), 104);
    }
}

#[test]
fn size_saturates() {
    let mut m = CSR::new(1, 1);
    m.n_rows = usize::MAX;
    assert_eq!(m.size(), usize::MAX);
    let mut m = CSR::new(1, 1);
    m.n_nz = usize::MAX / 2;
    assert_eq!(m.size(), usize::MAX);
}

#[test]
fn a_column_beyond_the_shape_is_stored_but_not_valid() {
    let m = CSR::from_triplet(&vec![(0, 7, 3), (0, 1, 2), (1, 9, 4)], 2, 2);
    assert_eq!(m.row_ptr, vec![0, 2, 3]);
    assert_eq!(m.col_idx, vec![1, 7, 9]);
    assert_eq!(cells(&m), vec![(0, 1, 2), (0, 7, 3), (1, 9, 4)]);
    assert!(rows_ascend(&m));
    assert_eq!(m.value(0, 1), Some(2));
    assert_eq!(m.value(0, 7), None);
    assert!(!m.is_valid());
    let n = CSR::from_triplet(&vec![(0, 7, -3), (1, 0, 1)], 2, 2);
    let s = (&m + &n).unwrap();
    assert_eq!(cells(&s), vec![(0, 1, 2), (1, 0, 1), (1, 9, 4)]);
    assert!(rows_ascend(&s));
}
