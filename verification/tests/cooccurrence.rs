use tag_npmi::cooccurrence::count_pairs;
use tag_npmi::cooccurrence::get_co_count_matrix;
use tag_npmi::cooccurrence::N_CHUNK;
use tag_npmi::csr_matrix::CSR;
use tag_npmi::tags::Tags;

fn cells(m: &CSR) -> Vec<(usize, usize, i64)> {
    let mut out = Vec::new();
    let mut it = m.iter();
    while let Some(e) = it.next() {
        out.push(e);
    }
    out
}

fn tags_of(names: &[&str]) -> Tags {
    let mut tags = Tags::new();
    for n in names {
        tags.add_or_increment(n);
    }
    tags
}

#[test]
fn four_posts_over_three_tags() {
    let tags = tags_of(&["a", "b", "c"]);
    let posts = vec![vec![0, 1], vec![0, 1], vec![0, 2], vec![1, 2]];
    let m = get_co_count_matrix(4, &tags, posts).unwrap();
    assert_eq!(m.n_rows, 3);
    assert_eq!(m.n_cols, 3);
    assert_eq!(
        cells(&m),
        vec![(0, 1, 2), (0, 2, 1), (1, 0, 2), (1, 2, 1), (2, 0, 1), (2, 1, 1)]
    );
    assert_eq!(m.value(0, 1), Some(2));
    assert_eq!(m.value(1, 0), Some(2));
    assert_eq!(m.value(0, 2), Some(1));
    assert_eq!(m.value(2, 0), Some(1));
    assert_eq!(m.value(1, 2), Some(1));
    assert_eq!(m.value(2, 1), Some(1));
    for a in 0..3 {
        assert_eq!(m.value(a, a), Some(0));
    }
}

#[test]
fn a_post_with_m_tags_counts_every_ordered_pair() {
    let m = count_pairs(&[vec![3, 0, 2, 1]], 4).unwrap();
    assert_eq!(m.n_nz, 12);
    for a in 0..4 {
        for b in 0..4 {
            assert_eq!(m.value(a, b), Some(if a == b { 0 } else { 1 }));
        }
    }
}

#[test]
fn co_occurrence_is_symmetric_and_off_diagonal() {
    let posts = vec![
        vec![0, 4, 2],
        vec![4, 0],
        vec![1],
        vec![],
        vec![3, 2, 1, 0],
        vec![2, 4],
        vec![4, 2, 0],
    ];
    let m = count_pairs(&posts, 5).unwrap();
    for a in 0..5 {
        assert_eq!(m.value(a, a), Some(0));
        for b in 0..5 {
            assert_eq!(m.value(a, b), m.value(b, a));
        }
    }
    assert_eq!(m.value(0, 4), Some(3));
    assert_eq!(m.value(0, 2), Some(3));
    assert_eq!(m.value(2, 4), Some(3));
    assert_eq!(m.value(1, 3), Some(1));
    assert_eq!(m.value(1, 4), Some(0));
    assert!(m.is_valid());
}

#[test]
fn a_repeated_tag_counts_once_per_pair_of_places() {
    let m = count_pairs(&[vec![0, 1, 1], vec![2, 2]], 3).unwrap();
    assert_eq!(cells(&m), vec![(0, 1, 2), (1, 0, 2)]);
}

#[test]
fn posts_with_fewer_than_two_tags_count_nothing() {
    let m = count_pairs(&[vec![0], vec![], vec![1]], 2).unwrap();
    assert_eq!(m.n_nz, 0);
    assert_eq!(m.row_ptr, vec![0, 0, 0]);
    let none = count_pairs(&[], 2).unwrap();
    assert_eq!(none.n_nz, 0);
}

#[test]
fn the_split_into_runs_does_not_show() {
    let mut posts: Vec<Vec<u32>> = Vec::new();
    for i in 0..40u32 {
        posts.push(vec![i % 5, (i * 3 + 1) % 5, (i / 7) % 5]);
    }
    let whole = count_pairs(&posts, 5).unwrap();
    let tags = tags_of(&["a", "b", "c", "d", "e"]);
    for n_posts in [0usize, 1, 11, 12, 13, 40, 1000] {
        let m = get_co_count_matrix(n_posts, &tags, posts.clone()).unwrap();
        assert_eq!(cells(&m), cells(&whole));
        assert_eq!(m.row_ptr, whole.row_ptr);
    }
    let mut folded = CSR::new(5, 5);
    for run in posts.chunks(7).rev() {
        folded.add_in_place(&count_pairs(run, 5).unwrap()).unwrap();
    }
    assert_eq!(cells(&folded), cells(&whole));
    assert_eq!(N_CHUNK, 12);
}

#[test]
fn no_posts_give_the_empty_matrix() {
    let tags = tags_of(&["a", "b"]);
    let m = get_co_count_matrix(0, &tags, vec![]).unwrap();
    assert_eq!(m.n_rows, 2);
    assert_eq!(m.n_cols, 2);
    assert_eq!(m.n_nz, 0);
}
