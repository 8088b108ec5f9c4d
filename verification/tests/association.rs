use tag_npmi::association::get_npmi_matrix;
use tag_npmi::association::keep_positive;
use tag_npmi::association::NpmiError;
use tag_npmi::cooccurrence::get_co_count_matrix;
use tag_npmi::csr_matrix::CSR;
use tag_npmi::tags::Tags;

fn cells(m: &CSR) -> Vec<(usize, usize, i64)> {
    let mut out = Vec::new();
    let mut it = m.iter();
    while let Some(e) = it.next() {
        out.push(e);
    }
    out
}

fn npmi(count_x: u32, count_y: u32, count_xy: i64, n_posts: usize) -> f64 {
    let n = n_posts as f64;
    let p_x = count_x as f64 / n;
    let p_y = count_y as f64 / n;
    let p_xy = count_xy as f64 / n;
    (p_xy.log2() - p_x.log2() - p_y.log2()) / -p_xy.log2()
}

fn millionths(count_x: u32, count_y: u32, count_xy: i64, n_posts: usize) -> i64 {
    let score = npmi(count_x, count_y, count_xy, n_posts) * 1_000_000.0;
    if score > 0.0 {
        score.ceil() as i64
    } else {
        score.round() as i64
    }
}

fn index(posts: &[&str]) -> (Tags, Vec<Vec<u32>>) {
    let mut tags = Tags::new();
    let mut lists = Vec::new();
    for p in posts {
        lists.push(tags.index_post(p).unwrap());
    }
    (tags, lists)
}

#[test]
fn the_formula_on_known_counts() {
    assert_eq!(millionths(3, 3, 2, 4), -169925);
    assert_eq!(millionths(3, 2, 1, 4), -292481);
    assert_eq!(millionths(2, 2, 2, 8), 1_000_000);
    assert_eq!(millionths(2, 3, 1, 8), 138346);
    assert_eq!(millionths(3, 2, 1, 8), 138346);
    assert_eq!(millionths(2, 1, 1, 8), 666667);
    assert_eq!(millionths(3, 1, 1, 8), 471680);
    assert_eq!(npmi(2, 2, 2, 4), 1.0);
}

#[test]
fn four_posts_over_three_tags_have_no_positive_association() {
    let (tags, posts) = index(&["a b", "a b", "a c", "b c"]);
    assert_eq!(tags.get_count("a"), Some(3));
    assert_eq!(tags.get_count("b"), Some(3));
    assert_eq!(tags.get_count("c"), Some(2));
    let co = get_co_count_matrix(4, &tags, posts).unwrap();
    let mut seen = Vec::new();
    let m = get_npmi_matrix(4, &tags, &co, |x, y, xy, n| {
        millionths(x, y, xy, n)
    })
    .unwrap();
    let mut it = co.iter();
    while let Some((r, c, v)) = it.next() {
        let x = tags.get_count_idx(r).unwrap();
        let y = tags.get_count_idx(c).unwrap();
        seen.push((r, c, millionths(x, y, v, 4)));
    }
    assert_eq!(
        seen,
        vec![
            (0, 1, -169925),
            (0, 2, -292481),
            (1, 0, -169925),
            (1, 2, -292481),
            (2, 0, -292481),
            (2, 1, -292481)
        ]
    );
    assert_eq!(m.n_rows, 3);
    assert_eq!(m.n_cols, 3);
    assert_eq!(m.n_nz, 0);
}

#[test]
fn positive_associations_are_kept_with_their_scores() {
    let (tags, posts) = index(&["x y", "x y", "z w", "z", "w", "w", "v", "v"]);
    let co = get_co_count_matrix(8, &tags, posts).unwrap();
    assert_eq!(cells(&co), vec![(0, 1, 2), (1, 0, 2), (2, 3, 1), (3, 2, 1)]);
    let m = get_npmi_matrix(8, &tags, &co, |x, y, xy, n| millionths(x, y, xy, n)).unwrap();
    assert_eq!(
        cells(&m),
        vec![(0, 1, 1_000_000), (1, 0, 1_000_000), (2, 3, 138346), (3, 2, 138346)]
    );
    assert_eq!(m.n_rows, 5);
    assert_eq!(m.n_cols, 5);
    let mut it = m.iter();
    while let Some((r, c, v)) = it.next() {
        assert!(r != c);
        assert!(v > 0);
    }
}

#[test]
fn the_scorer_gets_the_counts_of_row_and_column() {
    let (tags, posts) = index(&["p q", "p", "p q r"]);
    let co = get_co_count_matrix(3, &tags, posts).unwrap();
    let m = get_npmi_matrix(3, &tags, &co, |x, y, xy, n| {
        (x as i64) * 1000 + (y as i64) * 100 + xy * 10 + n as i64
    })
    .unwrap();
    assert_eq!(
        cells(&m),
        vec![
            (0, 1, 3223),
            (0, 2, 3113),
            (1, 0, 2323),
            (1, 2, 2113),
            (2, 0, 1313),
            (2, 1, 1213)
        ]
    );
}

#[test]
fn scores_that_are_not_positive_are_dropped() {
    let co = CSR::from_triplet(&vec![(0, 1, 4), (1, 0, 4), (1, 2, 9), (2, 1, 9)], 3, 3);
    let m = keep_positive(&co, &vec![5, 0, -1, 7], 3);
    assert_eq!(cells(&m), vec![(0, 1, 5), (2, 1, 7)]);
    assert_eq!(m.row_ptr, vec![0, 1, 1, 2]);
    let none = keep_positive(&co, &vec![0, 0, i64::MIN, -3], 4);
    assert_eq!(none.n_nz, 0);
    assert_eq!(none.n_rows, 4);
    let all = keep_positive(&co, &vec![1, 2, 3, i64::MAX], 3);
    assert_eq!(cells(&all), vec![(0, 1, 1), (1, 0, 2), (1, 2, 3), (2, 1, i64::MAX)]);
}

#[test]
fn a_cell_of_an_unknown_tag_is_an_error() {
    let (tags, _) = index(&["a b"]);
    let co = CSR::from_triplet(&vec![(0, 1, 1), (1, 0, 1), (1, 2, 1)], 3, 3);
    let r = get_npmi_matrix(1, &tags, &co, |_, _, _, _| 1);
    assert_eq!(r.err(), Some(NpmiError::MissingTagStatistic));
    let rows = CSR::from_triplet(&vec![(2, 0, 1)], 3, 2);
    let r = get_npmi_matrix(1, &tags, &rows, |_, _, _, _| 1);
    assert_eq!(r.err(), Some(NpmiError::MissingTagStatistic));
    let wide = CSR::from_triplet(&vec![(0, 1, 1)], 3, 3);
    let m = get_npmi_matrix(1, &tags, &wide, |_, _, _, _| 1).unwrap();
    assert_eq!(cells(&m), vec![(0, 1, 1)]);
    assert_eq!(m.n_rows, 2);
    assert_eq!(m.n_cols, 2);
}
