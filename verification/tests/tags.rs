use tag_npmi::tags::Tags;

#[test]
fn identifiers_follow_first_sight() {
    let mut tags = Tags::new();
    assert_eq!(tags.len(), 0);
    assert_eq!(tags.add_or_increment("cat"), 0);
    assert_eq!(tags.add_or_increment("dog"), 1);
    assert_eq!(tags.add_or_increment("cat"), 0);
    assert_eq!(tags.add_or_increment("bird"), 2);
    assert_eq!(tags.add_or_increment("cat"), 0);
    assert_eq!(tags.len(), 3);
    assert_eq!(tags.get_idx("cat"), Some(0));
    assert_eq!(tags.get_idx("dog"), Some(1));
    assert_eq!(tags.get_idx("bird"), Some(2));
    assert_eq!(tags.get_idx("fish"), None);
    assert_eq!(tags.get_name(0), Some("cat"));
    assert_eq!(tags.get_name(2), Some("bird"));
    assert_eq!(tags.get_name(3), None);
    assert_eq!(tags.get_count("cat"), Some(3));
    assert_eq!(tags.get_count("dog"), Some(1));
    assert_eq!(tags.get_count("fish"), None);
    assert_eq!(tags.get_count_idx(0), Some(3));
    assert_eq!(tags.get_count_idx(1), Some(1));
    assert_eq!(tags.get_count_idx(3), None);
}

#[test]
fn a_post_is_split_at_white_space() {
    let mut tags = Tags::new();
    assert_eq!(tags.index_post("red  green\tblue"), Some(vec![0, 1, 2]));
    assert_eq!(tags.index_post(" blue red\n"), Some(vec![2, 0]));
    assert_eq!(tags.index_post(""), Some(vec![]));
    assert_eq!(tags.index_post("   "), Some(vec![]));
    assert_eq!(tags.len(), 3);
    assert_eq!(tags.get_count("red"), Some(2));
    assert_eq!(tags.get_count("green"), Some(1));
    assert_eq!(tags.get_count("blue"), Some(2));
}

#[test]
fn a_word_that_a_post_repeats_counts_once() {
    let mut tags = Tags::new();
    assert_eq!(tags.index_post("red red"), Some(vec![0]));
    assert_eq!(tags.get_count("red"), Some(1));
    assert_eq!(tags.index_post("blue red blue green red blue"), Some(vec![1, 0, 2]));
    assert_eq!(tags.get_count("red"), Some(2));
    assert_eq!(tags.get_count("blue"), Some(1));
    assert_eq!(tags.get_count("green"), Some(1));
    assert_eq!(tags.len(), 3);
}

#[test]
fn words_are_indexed_in_order() {
    let mut tags = Tags::new();
    let words = vec!["b".to_string(), "a".to_string(), "b".to_string()];
    assert_eq!(tags.index_words(&words), Some(vec![0, 1]));
    assert_eq!(tags.get_name(0), Some("b"));
    assert_eq!(tags.get_count_idx(0), Some(1));
    assert_eq!(tags.get_count_idx(1), Some(1));
    let words = vec!["c".to_string(), "b".to_string(), "b".to_string(), "c".to_string()];
    assert_eq!(tags.index_words(&words), Some(vec![2, 0]));
    assert_eq!(tags.get_count_idx(0), Some(2));
    assert_eq!(tags.get_count_idx(2), Some(1));
}

#[test]
fn a_full_count_does_not_grow() {
    let mut tags = Tags::from_counts(&vec![("a".to_string(), u32::MAX), ("b".to_string(), 7)])
        .unwrap();
    assert_eq!(tags.try_add_or_increment("a"), None);
    assert_eq!(tags.get_count("a"), Some(u32::MAX));
    assert_eq!(tags.try_add_or_increment("b"), Some(1));
    assert_eq!(tags.get_count("b"), Some(8));
    assert_eq!(tags.try_add_or_increment("c"), Some(2));
    assert_eq!(tags.index_post("b a c"), None);
    assert_eq!(tags.get_count("b"), Some(9));
    assert_eq!(tags.get_count("c"), Some(1));
    assert_eq!(tags.index_words(&vec!["c".to_string()]), Some(vec![2]));
}

#[test]
fn a_dictionary_from_its_counts() {
    let listed = vec![("x".to_string(), 4), ("y".to_string(), 0), ("z".to_string(), 9)];
    let tags = Tags::from_counts(&listed).unwrap();
    assert_eq!(tags.len(), 3);
    assert_eq!(tags.get_idx("y"), Some(1));
    assert_eq!(tags.get_count("z"), Some(9));
    assert_eq!(tags.get_name(0), Some("x"));
    let twice = vec![("x".to_string(), 4), ("y".to_string(), 0), ("x".to_string(), 9)];
    assert!(Tags::from_counts(&twice).is_none());
    assert_eq!(Tags::from_counts(&vec![]).unwrap().len(), 0);
}

#[test]
fn posts_are_indexed_one_after_the_other() {
    let mut tags = Tags::new();
    let rows = vec!["a b".to_string(), "".to_string(), "c a  a".to_string(), "b".to_string()];
    assert_eq!(
        tags.index_posts(&rows),
        Some(vec![vec![0, 1], vec![], vec![2, 0], vec![1]])
    );
    assert_eq!(tags.len(), 3);
    assert_eq!(tags.get_count_idx(0), Some(2));
    assert_eq!(tags.get_count_idx(1), Some(2));
    assert_eq!(tags.get_count_idx(2), Some(1));
    assert_eq!(tags.index_posts(&vec![]), Some(vec![]));
    let mut full = Tags::from_counts(&vec![("a".to_string(), u32::MAX - 1)]).unwrap();
    assert_eq!(full.index_posts(&vec!["a a".to_string(), "b a".to_string()]), None);
    assert_eq!(full.get_count("a"), Some(u32::MAX));
    assert_eq!(full.get_count("b"), Some(1));
}
