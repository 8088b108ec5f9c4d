use tag_npmi::csr_matrix::CSR;
use tag_npmi::related::get_most_related_tags;

fn scores() -> CSR {
    CSR::from_triplet(
        &vec![
            (0, 0, 900),
            (0, 1, 300),
            (0, 2, 700),
            (0, 3, 300),
            (0, 5, 100),
            (1, 0, 300),
            (1, 2, 200),
            (1, 4, 800),
            (2, 0, 700),
            (2, 1, 200),
            (2, 5, 500),
            (3, 0, 300),
            (5, 0, 100),
            (5, 2, 500),
        ],
        6,
        6,
    )
}

#[test]
fn a_single_seed_gives_its_own_row_ranked() {
    let m = scores();
    assert_eq!(
        get_most_related_tags(10, &m, vec![0]),
        vec![(2, 700), (3, 300), (1, 300), (5, 100)]
    );
    assert_eq!(get_most_related_tags(2, &m, vec![0]), vec![(2, 700), (3, 300)]);
    assert_eq!(get_most_related_tags(1, &m, vec![0]), vec![(2, 700)]);
    assert_eq!(get_most_related_tags(0, &m, vec![0]), vec![]);
    assert_eq!(get_most_related_tags(4, &m, vec![3]), vec![(0, 300)]);
    assert_eq!(get_most_related_tags(4, &m, vec![4]), vec![]);
}

#[test]
fn several_seeds_rank_by_the_mean() {
    let m = scores();
    assert_eq!(
        get_most_related_tags(10, &m, vec![0, 1]),
        vec![(4, 800), (2, 450), (3, 300), (5, 100)]
    );
    assert_eq!(
        get_most_related_tags(10, &m, vec![1, 0]),
        vec![(4, 800), (2, 450), (3, 300), (5, 100)]
    );
    assert_eq!(
        get_most_related_tags(10, &m, vec![0, 2, 5]),
        vec![(3, 300), (1, 250)]
    );
    assert_eq!(get_most_related_tags(1, &m, vec![0, 2, 5]), vec![(3, 300)]);
}

#[test]
fn a_seed_listed_twice_counts_twice() {
    let m = scores();
    assert_eq!(
        get_most_related_tags(10, &m, vec![0, 0, 1]),
        vec![(4, 800), (2, 533), (3, 300), (5, 100)]
    );
}

#[test]
fn the_mean_is_rounded_down_and_must_be_positive() {
    let m = CSR::from_triplet(
        &vec![(0, 2, 1), (1, 2, 0), (0, 3, 7), (1, 3, -7), (0, 4, 5), (1, 4, 2), (0, 5, -3)],
        2,
        6,
    );
    assert_eq!(get_most_related_tags(10, &m, vec![0, 1]), vec![(4, 3)]);
    assert_eq!(
        get_most_related_tags(10, &m, vec![0]),
        vec![(3, 7), (4, 5), (2, 1)]
    );
}

#[test]
fn equal_scores_come_with_the_higher_tag_first() {
    let m = CSR::from_triplet(
        &vec![(0, 1, 5), (0, 2, 9), (0, 3, 5), (0, 4, 5), (0, 5, 1)],
        1,
        6,
    );
    assert_eq!(
        get_most_related_tags(10, &m, vec![0]),
        vec![(2, 9), (4, 5), (3, 5), (1, 5), (5, 1)]
    );
    assert_eq!(
        get_most_related_tags(3, &m, vec![0]),
        vec![(2, 9), (4, 5), (3, 5)]
    );
}

#[test]
fn no_seed_gives_nothing() {
    assert_eq!(get_most_related_tags(5, &scores(), vec![]), vec![]);
    assert_eq!(get_most_related_tags(5, &CSR::new(0, 0), vec![]), vec![]);
}

#[test]
fn large_values_do_not_overflow_the_sum() {
    let m = CSR::from_triplet(
        &vec![(0, 3, i64::MAX), (1, 3, i64::MAX), (2, 3, i64::MAX - 1), (0, 4, i64::MIN)],
        3,
        5,
    );
    assert_eq!(
        get_most_related_tags(5, &m, vec![0, 1, 2, 2]),
        vec![(3, i64::MAX - 1)]
    );
}
