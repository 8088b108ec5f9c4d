//! The tag dictionary: identifiers in first-seen order, with how often
//! each tag was seen.

use crate::cooccurrence::carries;
use crate::cooccurrence::carrying;
use crate::cooccurrence::co_count;
use crate::cooccurrence::lemma_plain_sightings;
use crate::cooccurrence::plain;
use crate::cooccurrence::ids_below;
use crate::cooccurrence::lemma_pair_needs_both;
use crate::cooccurrence::occurrences;
use crate::cooccurrence::sightings;
use crate::hashed::ids_held;
use crate::hashed::new_tag_index;
use crate::hashed::tag_index_get;
use crate::hashed::tag_index_insert;
use crate::hashed::TagIndex;
use vstd::prelude::*;

verus! {

#[derive(Clone, Debug)]
struct TagData {
    name: String,
    count: u32,
}

/// The tags seen so far. A tag's identifier is its place in the order in
/// which the tags were first seen.
#[derive(Debug, Clone)]
pub struct Tags {
    tag_set: TagIndex,
    vec: Vec<TagData>,
}

/// The identifier under which `name` stands in the list, if it does.
pub open spec fn position_of(tags: Seq<(Seq<char>, u32)>, name: Seq<char>) -> Option<int> {
    if exists|i: int| 0 <= i < tags.len() && (#[trigger] tags[i]).0 == name {
        Some(choose|i: int| 0 <= i < tags.len() && (#[trigger] tags[i]).0 == name)
    } else {
        None
    }
}

/// No text stands in the list twice.
pub open spec fn distinct_names(tags: Seq<(Seq<char>, u32)>) -> bool {
    forall|i: int, j: int|
        0 <= i < j < tags.len() ==> (#[trigger] tags[i]).0 != (#[trigger] tags[j]).0
}

/// What one more sighting of `word` makes of the list, and the identifier
/// of the word; `None` where its count cannot grow.
pub open spec fn seen(tags: Seq<(Seq<char>, u32)>, word: Seq<char>) -> Option<
    (Seq<(Seq<char>, u32)>, int),
> {
    match position_of(tags, word) {
        Some(i) => if tags[i].1 < u32::MAX {
            Some((tags.update(i, (word, (tags[i].1 + 1) as u32)), i))
        } else {
            None
        },
        None => Some((tags.push((word, 1u32)), tags.len() as int)),
    }
}

/// What the sightings of `words`, one after the other, make of the list,
/// and the identifiers of the words; `None` where a count cannot grow or
/// an identifier does not fit `u32`.
pub open spec fn indexed(tags: Seq<(Seq<char>, u32)>, words: Seq<Seq<char>>) -> Option<
    (Seq<(Seq<char>, u32)>, Seq<u32>),
>
    decreases words.len(),
{
    if words.len() == 0 {
        Some((tags, Seq::<u32>::empty()))
    } else {
        match indexed(tags, words.drop_last()) {
            Some((before, ids)) => match seen(before, words.last()) {
                Some((after, id)) => if id <= u32::MAX {
                    Some((after, ids.push(id as u32)))
                } else {
                    None
                },
                None => None,
            },
            None => None,
        }
    }
}

/// The words without their repetitions: of equal words the first stays.
pub open spec fn first_occurrences(words: Seq<Seq<char>>) -> Seq<Seq<char>>
    decreases words.len(),
{
    if words.len() == 0 {
        Seq::<Seq<char>>::empty()
    } else if words.drop_last().contains(words.last()) {
        first_occurrences(words.drop_last())
    } else {
        first_occurrences(words.drop_last()).push(words.last())
    }
}

/// What indexing the posts, one after the other, makes of the list, and
/// the identifier lists of the posts; `None` where a post cannot be
/// indexed. A word that a post repeats is indexed once for that post.
pub open spec fn indexed_posts(tags: Seq<(Seq<char>, u32)>, posts: Seq<Seq<Seq<char>>>) -> Option<
    (Seq<(Seq<char>, u32)>, Seq<Seq<u32>>),
>
    decreases posts.len(),
{
    if posts.len() == 0 {
        Some((tags, Seq::<Seq<u32>>::empty()))
    } else {
        match indexed_posts(tags, posts.drop_last()) {
            Some((before, lists)) => match indexed(before, first_occurrences(posts.last())) {
                Some((after, ids)) => Some((after, lists.push(ids))),
                None => None,
            },
            None => None,
        }
    }
}

/// The count of the tag with identifier `i`, zero where there is none.
pub open spec fn count_at(tags: Seq<(Seq<char>, u32)>, i: int) -> int {
    if 0 <= i < tags.len() {
        tags[i].1 as int
    } else {
        0
    }
}

/// One sighting gives an identifier inside the list and counts one more
/// for that identifier alone.
pub proof fn lemma_seen(tags: Seq<(Seq<char>, u32)>, word: Seq<char>)
    ensures
        match seen(tags, word) {
            Some((after, id)) => {
                &&& 0 <= id < after.len()
                &&& tags.len() <= after.len()
                &&& forall|i: int|
                    count_at(after, i) == #[trigger] count_at(tags, i) + if i == id {
                        1int
                    } else {
                        0int
                    }
            },
            None => true,
        },
{
}

/// Indexing a post gives identifiers inside the list, one per word, and
/// counts for every identifier as often as it stands among them.
pub proof fn lemma_indexed(tags: Seq<(Seq<char>, u32)>, words: Seq<Seq<char>>)
    ensures
        match indexed(tags, words) {
            Some((after, ids)) => {
                &&& ids.len() == words.len()
                &&& tags.len() <= after.len()
                &&& forall|k: int| 0 <= k < ids.len() ==> #[trigger] ids[k] < after.len()
                &&& forall|i: int|
                    count_at(after, i) == #[trigger] count_at(tags, i) + occurrences(ids, i)
            },
            None => true,
        },
    decreases words.len(),
{
    if words.len() > 0 {
        lemma_indexed(tags, words.drop_last());
        match indexed(tags, words.drop_last()) {
            Some((before, ids)) => {
                lemma_seen(before, words.last());
                match seen(before, words.last()) {
                    Some((after, id)) => {
                        if id <= u32::MAX {
                            let all = ids.push(id as u32);
                            assert(all.drop_last() =~= ids);
                            assert forall|i: int|
                                count_at(after, i) == #[trigger] count_at(tags, i) + occurrences(
                                    all,
                                    i,
                                ) by {
                                assert(count_at(after, i) == count_at(before, i) + if i == id {
                                    1int
                                } else {
                                    0int
                                });
                            }
                        }
                    },
                    None => {},
                }
            },
            None => {},
        }
    }
}

/// Indexing posts gives lists of identifiers inside the dictionary, and
/// counts for every tag as often as it was sighted in them.
pub proof fn lemma_indexed_posts(tags: Seq<(Seq<char>, u32)>, posts: Seq<Seq<Seq<char>>>)
    ensures
        match indexed_posts(tags, posts) {
            Some((after, lists)) => {
                &&& lists.len() == posts.len()
                &&& tags.len() <= after.len()
                &&& ids_below(lists, after.len() as int)
                &&& forall|i: int|
                    count_at(after, i) == #[trigger] count_at(tags, i) + sightings(lists, i)
            },
            None => true,
        },
    decreases posts.len(),
{
    if posts.len() > 0 {
        lemma_indexed_posts(tags, posts.drop_last());
        match indexed_posts(tags, posts.drop_last()) {
            Some((before, lists)) => {
                lemma_indexed(before, first_occurrences(posts.last()));
                match indexed(before, first_occurrences(posts.last())) {
                    Some((after, ids)) => {
                        let all = lists.push(ids);
                        assert(all.drop_last() =~= lists);
                        assert forall|p: int, i: int|
                            0 <= p < all.len() && 0 <= i < all[p].len() implies #[trigger] all[p][i]
                            < after.len() by {
                            if p < lists.len() {
                                assert(all[p] == lists[p]);
                                assert(lists[p][i] < before.len());
                            }
                        }
                        assert forall|i: int|
                            count_at(after, i) == #[trigger] count_at(tags, i) + sightings(
                                all,
                                i,
                            ) by {
                            assert(count_at(after, i) == count_at(before, i) + occurrences(ids, i));
                        }
                    },
                    None => {},
                }
            },
            None => {},
        }
    }
}

/// In a dictionary that was built by indexing the posts, every tag of a
/// counted pair has an identifier and a count of at least one.
pub proof fn lemma_counted_tags_are_known(posts: Seq<Seq<Seq<char>>>, a: int, b: int)
    requires
        indexed_posts(Seq::<(Seq<char>, u32)>::empty(), posts) is Some,
        co_count(indexed_posts(Seq::<(Seq<char>, u32)>::empty(), posts).unwrap().1, a, b) > 0,
    ensures
        ({
            let tags = indexed_posts(Seq::<(Seq<char>, u32)>::empty(), posts).unwrap().0;
            &&& 0 <= a < tags.len()
            &&& 0 <= b < tags.len()
            &&& tags[a].1 >= 1
            &&& tags[b].1 >= 1
        }),
{
    let none = Seq::<(Seq<char>, u32)>::empty();
    let (tags, lists) = indexed_posts(none, posts).unwrap();
    lemma_indexed_posts(none, posts);
    lemma_pair_needs_both(lists, a, b);
    assert(count_at(tags, a) == count_at(none, a) + sightings(lists, a));
    assert(count_at(tags, b) == count_at(none, b) + sightings(lists, b));
}

/// The words without their repetitions hold every word once.
pub proof fn lemma_first_occurrences(words: Seq<Seq<char>>)
    ensures
        forall|j: int, k: int|
            0 <= j < k < first_occurrences(words).len() ==> #[trigger] first_occurrences(words)[j]
                != #[trigger] first_occurrences(words)[k],
        forall|w: Seq<char>| #[trigger]
            first_occurrences(words).contains(w) <==> words.contains(w),
    decreases words.len(),
{
    let firsts = first_occurrences(words);
    if words.len() > 0 {
        let rest = words.drop_last();
        let last = words.last();
        let before = first_occurrences(rest);
        lemma_first_occurrences(rest);
        assert forall|w: Seq<char>| #[trigger] firsts.contains(w) <==> words.contains(w) by {
            if firsts.contains(w) {
                let i = choose|i: int| 0 <= i < firsts.len() && firsts[i] == w;
                if i < before.len() {
                    assert(before[i] == w);
                    assert(before.contains(w));
                    let j = choose|j: int| 0 <= j < rest.len() && rest[j] == w;
                    assert(words[j] == w);
                } else {
                    assert(words[words.len() - 1] == w);
                }
            }
            if words.contains(w) {
                let j = choose|j: int| 0 <= j < words.len() && words[j] == w;
                if j < rest.len() {
                    assert(rest[j] == w);
                    assert(before.contains(w));
                    let i = choose|i: int| 0 <= i < before.len() && before[i] == w;
                    assert(firsts[i] == w);
                } else if rest.contains(w) {
                    assert(before.contains(w));
                } else {
                    assert(firsts[before.len() as int] == w);
                }
            }
        }
        assert forall|j: int, k: int| 0 <= j < k < firsts.len() implies #[trigger] firsts[j]
            != #[trigger] firsts[k] by {
            if k == before.len() {
                assert(before[j] == firsts[j]);
                assert(before.contains(firsts[j]));
            }
        }
    } else {
        assert forall|w: Seq<char>| #[trigger] firsts.contains(w) <==> words.contains(w) by {}
    }
}

/// The first occurrences among the first `n` words begin the first
/// occurrences among all the words.
proof fn lemma_first_prefix(words: Seq<Seq<char>>, n: int)
    requires
        0 <= n <= words.len(),
    ensures
        first_occurrences(words.take(n)).len() <= first_occurrences(words).len(),
        first_occurrences(words).take(first_occurrences(words.take(n)).len() as int)
            == first_occurrences(words.take(n)),
    decreases words.len() - n,
{
    if n < words.len() {
        lemma_first_prefix(words, n + 1);
        assert(words.take(n + 1).drop_last() =~= words.take(n));
        let short = first_occurrences(words.take(n));
        let long = first_occurrences(words.take(n + 1));
        assert(long.take(short.len() as int) =~= short);
        assert(first_occurrences(words).take(short.len() as int) =~= long.take(
            short.len() as int,
        ));
    } else {
        assert(words.take(n) =~= words);
        assert(first_occurrences(words).take(first_occurrences(words).len() as int)
            =~= first_occurrences(words));
    }
}

/// Indexing keeps the texts of the tags in place and apart, and gives
/// every word the identifier under which its own text stands.
pub proof fn lemma_indexed_names(tags: Seq<(Seq<char>, u32)>, words: Seq<Seq<char>>)
    requires
        distinct_names(tags),
    ensures
        match indexed(tags, words) {
            Some((after, ids)) => {
                &&& distinct_names(after)
                &&& forall|i: int| 0 <= i < tags.len() ==> (#[trigger] after[i]).0 == tags[i].0
                &&& forall|k: int|
                    0 <= k < ids.len() ==> after[(#[trigger] ids[k]) as int].0 == words[k]
            },
            None => true,
        },
    decreases words.len(),
{
    if words.len() > 0 {
        lemma_indexed_names(tags, words.drop_last());
        lemma_indexed(tags, words.drop_last());
        match indexed(tags, words.drop_last()) {
            Some((before, ids)) => {
                let word = words.last();
                match seen(before, word) {
                    Some((after, id)) => {
                        if id <= u32::MAX {
                            let all = ids.push(id as u32);
                            assert forall|i: int, j: int|
                                0 <= i < j < after.len() implies (#[trigger] after[i]).0 != (
                            #[trigger] after[j]).0 by {
                                if j < before.len() {
                                    assert(before[i].0 != before[j].0);
                                } else {
                                    assert(before[i].0 != word);
                                }
                            }
                            assert forall|k: int| 0 <= k < all.len() implies after[(
                            #[trigger] all[k]) as int].0 == words[k] by {
                                if k < ids.len() {
                                    assert(all[k] == ids[k]);
                                    assert(ids[k] < before.len());
                                    assert(before[ids[k] as int].0 == words.drop_last()[k]);
                                }
                            }
                        }
                    },
                    None => {},
                }
            },
            None => {},
        }
    }
}

/// Indexing words that are all different gives identifiers that are all
/// different.
pub proof fn lemma_indexed_plain(tags: Seq<(Seq<char>, u32)>, words: Seq<Seq<char>>)
    requires
        distinct_names(tags),
        forall|j: int, k: int| 0 <= j < k < words.len() ==> #[trigger] words[j] != #[trigger] words[k],
    ensures
        match indexed(tags, words) {
            Some((after, ids)) => plain(ids) && distinct_names(after),
            None => true,
        },
{
    lemma_indexed_names(tags, words);
    lemma_indexed(tags, words);
    match indexed(tags, words) {
        Some((after, ids)) => {
            assert forall|j: int, k: int| 0 <= j < k < ids.len() implies #[trigger] ids[j]
                != #[trigger] ids[k] by {
                assert(after[ids[j] as int].0 == words[j]);
                assert(after[ids[k] as int].0 == words[k]);
            }
        },
        None => {},
    }
}

/// Indexing posts from a dictionary without repeated texts gives lists
/// that name no tag twice, and counts for every tag the posts that carry it.
pub proof fn lemma_indexed_posts_plain(tags: Seq<(Seq<char>, u32)>, posts: Seq<Seq<Seq<char>>>)
    requires
        distinct_names(tags),
    ensures
        match indexed_posts(tags, posts) {
            Some((after, lists)) => {
                &&& distinct_names(after)
                &&& forall|p: int| 0 <= p < lists.len() ==> plain(#[trigger] lists[p])
                &&& forall|i: int|
                    count_at(after, i) == #[trigger] count_at(tags, i) + carrying(lists, i)
            },
            None => true,
        },
    decreases posts.len(),
{
    if posts.len() > 0 {
        lemma_indexed_posts_plain(tags, posts.drop_last());
        match indexed_posts(tags, posts.drop_last()) {
            Some((before, lists)) => {
                let words = first_occurrences(posts.last());
                lemma_first_occurrences(posts.last());
                lemma_indexed_plain(before, words);
                match indexed(before, words) {
                    Some((after, ids)) => {
                        let all = lists.push(ids);
                        assert forall|p: int| 0 <= p < all.len() implies plain(
                            #[trigger] all[p],
                        ) by {
                            if p < lists.len() {
                                assert(all[p] == lists[p]);
                            }
                        }
                    },
                    None => {},
                }
            },
            None => {},
        }
    }
    match indexed_posts(tags, posts) {
        Some((after, lists)) => {
            lemma_indexed_posts(tags, posts);
            assert forall|i: int|
                count_at(after, i) == #[trigger] count_at(tags, i) + carrying(lists, i) by {
                lemma_plain_sightings(lists, i);
            }
        },
        None => {},
    }
}

/// The text stands in the list.
pub open spec fn named(tags: Seq<(Seq<char>, u32)>, word: Seq<char>) -> bool {
    exists|i: int| 0 <= i < tags.len() && (#[trigger] tags[i]).0 == word
}

/// How many of the posts hold the word.
pub open spec fn rows_with(posts: Seq<Seq<Seq<char>>>, word: Seq<char>) -> nat
    decreases posts.len(),
{
    if posts.len() == 0 {
        0
    } else {
        rows_with(posts.drop_last(), word) + if posts.last().contains(word) {
            1nat
        } else {
            0nat
        }
    }
}

/// After indexing, the identifier list carries a tag exactly where the
/// words hold its text, and every word has its tag.
pub proof fn lemma_indexed_carries(tags: Seq<(Seq<char>, u32)>, words: Seq<Seq<char>>)
    requires
        distinct_names(tags),
    ensures
        match indexed(tags, words) {
            Some((after, ids)) => {
                &&& forall|i: int|
                    0 <= i < after.len() ==> (#[trigger] carries(ids, i) <==> words.contains(
                        after[i].0,
                    ))
                &&& forall|k: int| 0 <= k < words.len() ==> named(after, #[trigger] words[k])
            },
            None => true,
        },
{
    lemma_indexed_names(tags, words);
    lemma_indexed(tags, words);
    match indexed(tags, words) {
        Some((after, ids)) => {
            assert forall|i: int| 0 <= i < after.len() implies (#[trigger] carries(ids, i)
                <==> words.contains(after[i].0)) by {
                if carries(ids, i) {
                    let k = choose|k: int| 0 <= k < ids.len() && #[trigger] ids[k] == i;
                    assert(after[ids[k] as int].0 == words[k]);
                }
                if words.contains(after[i].0) {
                    let k = choose|k: int| 0 <= k < words.len() && words[k] == after[i].0;
                    assert(after[ids[k] as int].0 == words[k]);
                    assert(ids[k] < after.len());
                    if ids[k] < i {
                        assert(after[ids[k] as int].0 != after[i].0);
                    }
                    if i < ids[k] {
                        assert(after[i].0 != after[ids[k] as int].0);
                    }
                }
            }
            assert forall|k: int| 0 <= k < words.len() implies named(after, #[trigger] words[k]) by {
                assert(ids[k] < after.len());
                assert(after[ids[k] as int].0 == words[k]);
            }
        },
        None => {},
    }
}

/// After indexing posts, the list of a post carries a tag exactly where
/// the post holds its text; every word of every post has its tag; and the
/// tags that were there before keep their texts.
pub proof fn lemma_indexed_posts_rows(tags: Seq<(Seq<char>, u32)>, posts: Seq<Seq<Seq<char>>>)
    requires
        distinct_names(tags),
    ensures
        match indexed_posts(tags, posts) {
            Some((after, lists)) => {
                &&& distinct_names(after)
                &&& lists.len() == posts.len()
                &&& tags.len() <= after.len()
                &&& forall|i: int| 0 <= i < tags.len() ==> (#[trigger] after[i]).0 == tags[i].0
                &&& forall|p: int, i: int|
                    0 <= p < lists.len() && 0 <= i < after.len() ==> (#[trigger] carries(
                        lists[p],
                        i,
                    ) <==> posts[p].contains(after[i].0))
                &&& forall|p: int, w: Seq<char>|
                    0 <= p < posts.len() && #[trigger] posts[p].contains(w) ==> named(after, w)
            },
            None => true,
        },
    decreases posts.len(),
{
    if posts.len() > 0 {
        let rest = posts.drop_last();
        lemma_indexed_posts_rows(tags, rest);
        lemma_indexed_posts(tags, rest);
        match indexed_posts(tags, rest) {
            Some((before, lists)) => {
                let words = first_occurrences(posts.last());
                lemma_first_occurrences(posts.last());
                lemma_indexed_names(before, words);
                lemma_indexed(before, words);
                lemma_indexed_carries(before, words);
                match indexed(before, words) {
                    Some((after, ids)) => {
                        let all = lists.push(ids);
                        assert forall|p: int, w: Seq<char>|
                            0 <= p < posts.len() && #[trigger] posts[p].contains(
                                w,
                            ) implies named(after, w) by {
                            if p < rest.len() {
                                assert(rest[p] == posts[p]);
                                assert(rest[p].contains(w));
                                assert(named(before, w));
                                let j = choose|j: int|
                                    0 <= j < before.len() && (#[trigger] before[j]).0 == w;
                                assert(after[j].0 == w);
                            } else {
                                assert(words.contains(w));
                                let k = choose|k: int| 0 <= k < words.len() && words[k] == w;
                                assert(named(after, words[k]));
                            }
                        }
                        assert forall|p: int, i: int|
                            0 <= p < all.len() && 0 <= i < after.len() implies (#[trigger] carries(
                            all[p],
                            i,
                        ) <==> posts[p].contains(after[i].0)) by {
                            if p < lists.len() {
                                assert(all[p] == lists[p]);
                                assert(rest[p] == posts[p]);
                                if i < before.len() {
                                    assert(after[i].0 == before[i].0);
                                    assert(carries(lists[p], i) <==> rest[p].contains(before[i].0));
                                } else {
                                    if carries(lists[p], i) {
                                        let x = choose|x: int|
                                            0 <= x < lists[p].len() && #[trigger] lists[p][x] == i;
                                        assert(lists[p][x] < before.len());
                                    }
                                    if rest[p].contains(after[i].0) {
                                        assert(named(before, after[i].0));
                                        let j = choose|j: int|
                                            0 <= j < before.len() && (#[trigger] before[j]).0
                                                == after[i].0;
                                        assert(after[j].0 == before[j].0);
                                        assert(after[j].0 != after[i].0);
                                    }
                                }
                            } else {
                                assert(all[p] == ids);
                                assert(words.contains(after[i].0) <==> posts.last().contains(
                                    after[i].0,
                                ));
                            }
                        }
                    },
                    None => {},
                }
            },
            None => {},
        }
    }
}

/// Lists that carry a tag exactly where the posts hold a word carry it as
/// often as the posts hold the word.
proof fn lemma_carrying_rows(
    lists: Seq<Seq<u32>>,
    posts: Seq<Seq<Seq<char>>>,
    i: int,
    word: Seq<char>,
)
    requires
        lists.len() == posts.len(),
        forall|p: int|
            0 <= p < lists.len() ==> (#[trigger] carries(lists[p], i) <==> posts[p].contains(word)),
    ensures
        carrying(lists, i) == rows_with(posts, word),
    decreases lists.len(),
{
    if lists.len() > 0 {
        let n = lists.len() - 1;
        assert forall|p: int| 0 <= p < n implies (#[trigger] carries(lists.drop_last()[p], i)
            <==> posts.drop_last()[p].contains(word)) by {
            assert(carries(lists[p], i) <==> posts[p].contains(word));
        }
        lemma_carrying_rows(lists.drop_last(), posts.drop_last(), i, word);
        assert(carries(lists[n], i) <==> posts[n].contains(word));
    }
}

/// In a dictionary that was built by indexing the posts, the count of a
/// tag is the number of posts that hold its text, and the list of every
/// post names each of its tags once.
pub proof fn lemma_counts_are_rows(posts: Seq<Seq<Seq<char>>>, i: int)
    requires
        indexed_posts(Seq::<(Seq<char>, u32)>::empty(), posts) is Some,
        0 <= i < indexed_posts(Seq::<(Seq<char>, u32)>::empty(), posts).unwrap().0.len(),
    ensures
        ({
            let (tags, lists) = indexed_posts(Seq::<(Seq<char>, u32)>::empty(), posts).unwrap();
            &&& tags[i].1 == rows_with(posts, tags[i].0)
            &&& lists.len() == posts.len()
            &&& forall|p: int| 0 <= p < lists.len() ==> plain(#[trigger] lists[p])
        }),
{
    let none = Seq::<(Seq<char>, u32)>::empty();
    let (tags, lists) = indexed_posts(none, posts).unwrap();
    lemma_indexed_posts_plain(none, posts);
    lemma_indexed_posts_rows(none, posts);
    assert(count_at(tags, i) == count_at(none, i) + carrying(lists, i));
    assert forall|p: int| 0 <= p < lists.len() implies (#[trigger] carries(lists[p], i)
        <==> posts[p].contains(tags[i].0)) by {}
    lemma_carrying_rows(lists, posts, i, tags[i].0);
}

/// The words as plain sequences.
pub open spec fn texts(words: Seq<String>) -> Seq<Seq<char>> {
    words.map_values(|w: String| w@)
}

/// The words of a text, as `str::split_whitespace` gives them.
pub uninterp spec fn words_of(text: Seq<char>) -> Seq<Seq<char>>;

/// The words of a text, from `str::split_whitespace`.
///
/// Not proved here: that the words depend on the text alone. The result
/// is only given its name; what the standard library takes for white
/// space is not stated.
#[verifier::external_body]
fn split_words(text: &str) -> (words: Vec<String>)
    ensures
        texts(words@) == words_of(text@),
{
    text.split_whitespace().map(|w| w.to_owned()).collect()
}

impl View for Tags {
    type V = Seq<(Seq<char>, u32)>;

    /// Text and count of each tag, in identifier order.
    closed spec fn view(&self) -> Seq<(Seq<char>, u32)> {
        Seq::new(self.vec@.len(), |i: int| (self.vec@[i].name@, self.vec@[i].count))
    }
}

/// The words of each post.
pub open spec fn post_words(tag_strings: Seq<String>) -> Seq<Seq<Seq<char>>> {
    tag_strings.map_values(|s: String| words_of(s@))
}

/// The identifier lists as plain sequences.
pub open spec fn id_lists(lists: Seq<Vec<u32>>) -> Seq<Seq<u32>> {
    lists.map_values(|l: Vec<u32>| l@)
}

/// Where a run of posts cannot be indexed, no longer run can.
proof fn lemma_indexed_posts_grows(
    tags: Seq<(Seq<char>, u32)>,
    posts: Seq<Seq<Seq<char>>>,
    n: int,
)
    requires
        0 <= n <= posts.len(),
        indexed_posts(tags, posts.take(n)) is None,
    ensures
        indexed_posts(tags, posts) is None,
    decreases posts.len() - n,
{
    if n < posts.len() {
        assert(posts.take(n + 1).drop_last() =~= posts.take(n));
        lemma_indexed_posts_grows(tags, posts, n + 1);
    } else {
        assert(posts.take(n) =~= posts);
    }
}

/// Text and count of each entry.
pub open spec fn counts_view(entries: Seq<(String, u32)>) -> Seq<(Seq<char>, u32)> {
    entries.map_values(|e: (String, u32)| (e.0@, e.1))
}

/// Where a run of words cannot be indexed, no longer run can.
proof fn lemma_indexed_grows(tags: Seq<(Seq<char>, u32)>, words: Seq<Seq<char>>, n: int)
    requires
        0 <= n <= words.len(),
        indexed(tags, words.take(n)) is None,
    ensures
        indexed(tags, words) is None,
    decreases words.len() - n,
{
    if n < words.len() {
        assert(words.take(n + 1).drop_last() =~= words.take(n));
        lemma_indexed_grows(tags, words, n + 1);
    } else {
        assert(words.take(n) =~= words);
    }
}

impl Tags {
    /// The index finds every tag of the list under its text, and nothing else.
    pub closed spec fn wf(&self) -> bool {
        &&& forall|i: int|
            0 <= i < self.vec@.len() ==> ids_held(self.tag_set).contains_key(
                (#[trigger] self.vec@[i]).name@,
            ) && ids_held(self.tag_set)[self.vec@[i].name@] == i
        &&& forall|s: Seq<char>| #[trigger]
            ids_held(self.tag_set).contains_key(s) ==> ids_held(self.tag_set)[s] < self.vec@.len()
                && self.vec@[ids_held(self.tag_set)[s] as int].name@ == s
    }

    /// In a well-formed dictionary no text stands twice.
    pub proof fn lemma_distinct(&self)
        requires
            self.wf(),
        ensures
            distinct_names(self@),
    {
        assert forall|i: int, j: int| 0 <= i < j < self@.len() implies (#[trigger] self@[i]).0 != (
        #[trigger] self@[j]).0 by {
            assert(ids_held(self.tag_set)[self.vec@[i].name@] == i);
            assert(ids_held(self.tag_set)[self.vec@[j].name@] == j);
        }
    }

    /// What the index says of a text is what the list says.
    proof fn lemma_lookup(&self, name: Seq<char>)
        requires
            self.wf(),
        ensures
            match position_of(self@, name) {
                Some(i) => 0 <= i < self.vec@.len() && ids_held(self.tag_set).contains_key(name)
                    && ids_held(self.tag_set)[name] == i && self@[i].0 == name,
                None => !ids_held(self.tag_set).contains_key(name),
            },
    {
        if ids_held(self.tag_set).contains_key(name) {
            let i = ids_held(self.tag_set)[name] as int;
            assert(self@[i].0 == name);
            let j = choose|j: int| 0 <= j < self@.len() && (#[trigger] self@[j]).0 == name;
            assert(ids_held(self.tag_set)[self.vec@[j].name@] == j);
        } else {
            if exists|i: int| 0 <= i < self@.len() && (#[trigger] self@[i]).0 == name {
                let j = choose|j: int| 0 <= j < self@.len() && (#[trigger] self@[j]).0 == name;
                assert(ids_held(self.tag_set).contains_key(self.vec@[j].name@));
            }
        }
    }

    /// The dictionary with no tag.
    pub fn new() -> (tags: Tags)
        ensures
            tags.wf(),
            tags@.len() == 0,
    {
        Tags { tag_set: new_tag_index(), vec: Vec::new() }
    }

    /// Counts one more sighting of `tag`, which gets the next free
    /// identifier if it is new, and returns its identifier.
    pub fn add_or_increment(&mut self, tag: &str) -> (idx: usize)
        requires
            old(self).wf(),
            match position_of(old(self)@, tag@) {
                Some(i) => old(self)@[i].1 < u32::MAX,
                None => true,
            },
        ensures
            final(self).wf(),
            match position_of(old(self)@, tag@) {
                Some(i) => idx == i && final(self)@ == old(self)@.update(
                    i,
                    (tag@, (old(self)@[i].1 + 1) as u32),
                ),
                None => idx == old(self)@.len() && final(self)@ == old(self)@.push((tag@, 1u32)),
            },
    {
        proof {
            self.lemma_lookup(tag@);
        }
        let ghost before = self@;
        match tag_index_get(&self.tag_set, tag) {
            Some(idx) => {
                self.vec[idx].count += 1;
                assert(self@ =~= before.update(idx as int, (tag@, (before[idx as int].1 + 1) as u32)));
                idx
            },
            None => {
                let tag_data = TagData { name: tag.to_owned(), count: 1 };
                self.vec.push(tag_data);
                let idx = self.vec.len() - 1;
                tag_index_insert(&mut self.tag_set, tag, idx);
                assert(self@ =~= before.push((tag@, 1u32)));
                idx
            },
        }
    }

    /// Counts one more sighting of `tag` where its count can still grow,
    /// and returns its identifier; else leaves the dictionary as it is.
    pub fn try_add_or_increment(&mut self, tag: &str) -> (idx: Option<usize>)
        requires
            old(self).wf(),
        ensures
            final(self).wf(),
            match idx {
                Some(i) => seen(old(self)@, tag@) == Some((final(self)@, i as int)),
                None => seen(old(self)@, tag@) is None && final(self)@ == old(self)@,
            },
    {
        let full = match self.get_count(tag) {
            Some(count) => count == u32::MAX,
            None => false,
        };
        if full {
            None
        } else {
            Some(self.add_or_increment(tag))
        }
    }

    /// Whether word `i` stands among the words before it.
    fn occurs_before(words: &Vec<String>, i: usize) -> (found: bool)
        requires
            i < words@.len(),
        ensures
            found == texts(words@).take(i as int).contains(words@[i as int]@),
    {
        let ghost earlier = texts(words@).take(i as int);
        let mut j: usize = 0;
        while j < i
            invariant
                i < words@.len(),
                earlier == texts(words@).take(i as int),
                0 <= j <= i,
                forall|k: int| 0 <= k < j ==> earlier[k] != words@[i as int]@,
            decreases i - j,
        {
            if words[j] == words[i] {
                assert(earlier[j as int] == words@[i as int]@);
                return true;
            }
            j += 1;
        }
        false
    }

    /// Counts one sighting of each word, in order, and returns their
    /// identifiers. A word that stands among the words more than once is
    /// counted and listed once, at its first place. Stops with `None` at a
    /// word whose count cannot grow or whose identifier does not fit `u32`;
    /// the words before it stay counted.
    pub fn index_words(&mut self, words: &Vec<String>) -> (ids: Option<Vec<u32>>)
        requires
            old(self).wf(),
        ensures
            final(self).wf(),
            match ids {
                Some(v) => indexed(old(self)@, first_occurrences(texts(words@))) == Some(
                    (final(self)@, v@),
                ),
                None => indexed(old(self)@, first_occurrences(texts(words@))) is None,
            },
    {
        let ghost start = self@;
        let ghost all = texts(words@);
        let mut ids: Vec<u32> = Vec::new();
        let mut i: usize = 0;
        assert(all.take(0) =~= Seq::<Seq<char>>::empty());
        while i < words.len()
            invariant
                self.wf(),
                start == old(self)@,
                all == texts(words@),
                0 <= i <= words@.len(),
                indexed(start, first_occurrences(all.take(i as int))) == Some((self@, ids@)),
            decreases words@.len() - i,
        {
            proof {
                assert(all.take(i + 1).drop_last() =~= all.take(i as int));
                assert(all.take(i + 1).last() == words@[i as int]@);
            }
            if !Self::occurs_before(words, i) {
                let ghost firsts = first_occurrences(all.take(i + 1));
                proof {
                    assert(firsts.drop_last() =~= first_occurrences(all.take(i as int)));
                    assert(firsts.last() == words@[i as int]@);
                }
                let fits = match self.try_add_or_increment(words[i].as_str()) {
                    Some(id) => {
                        if id <= u32::MAX as usize {
                            ids.push(id as u32);
                            true
                        } else {
                            false
                        }
                    },
                    None => false,
                };
                if !fits {
                    proof {
                        lemma_first_prefix(all, i + 1);
                        lemma_indexed_grows(start, first_occurrences(all), firsts.len() as int);
                    }
                    return None;
                }
            }
            i += 1;
        }
        assert(all.take(all.len() as int) =~= all);
        Some(ids)
    }

    /// Counts one sighting of each different word of `tag_string`, the
    /// words being what white space separates, and returns their
    /// identifiers, each once.
    pub fn index_post(&mut self, tag_string: &str) -> (ids: Option<Vec<u32>>)
        requires
            old(self).wf(),
        ensures
            final(self).wf(),
            match ids {
                Some(v) => indexed(old(self)@, first_occurrences(words_of(tag_string@))) == Some(
                    (final(self)@, v@),
                ),
                None => indexed(old(self)@, first_occurrences(words_of(tag_string@))) is None,
            },
    {
        let words = split_words(tag_string);
        self.index_words(&words)
    }

    /// Indexes the posts, one after the other, and returns their lists of
    /// identifiers. Stops with `None` at a post that cannot be indexed;
    /// what was counted before stays counted.
    pub fn index_posts(&mut self, tag_strings: &Vec<String>) -> (lists: Option<Vec<Vec<u32>>>)
        requires
            old(self).wf(),
        ensures
            final(self).wf(),
            match lists {
                Some(v) => indexed_posts(old(self)@, post_words(tag_strings@)) == Some(
                    (final(self)@, id_lists(v@)),
                ),
                None => indexed_posts(old(self)@, post_words(tag_strings@)) is None,
            },
    {
        let ghost start = self@;
        let ghost all = post_words(tag_strings@);
        let mut lists: Vec<Vec<u32>> = Vec::new();
        let mut i: usize = 0;
        assert(all.take(0) =~= Seq::<Seq<Seq<char>>>::empty());
        assert(id_lists(lists@) =~= Seq::<Seq<u32>>::empty());
        while i < tag_strings.len()
            invariant
                self.wf(),
                start == old(self)@,
                all == post_words(tag_strings@),
                0 <= i <= tag_strings@.len(),
                indexed_posts(start, all.take(i as int)) == Some((self@, id_lists(lists@))),
            decreases tag_strings@.len() - i,
        {
            proof {
                assert(all.take(i + 1).drop_last() =~= all.take(i as int));
                assert(all.take(i + 1).last() == words_of(tag_strings@[i as int]@));
            }
            let ghost before = lists@;
            match self.index_post(tag_strings[i].as_str()) {
                Some(ids) => {
                    lists.push(ids);
                    assert(id_lists(lists@) =~= id_lists(before).push(ids@));
                },
                None => {
                    proof {
                        lemma_indexed_posts_grows(start, all, i + 1);
                    }
                    return None;
                },
            }
            i += 1;
        }
        assert(all.take(all.len() as int) =~= all);
        Some(lists)
    }

    /// The dictionary that lists the given tags with the given counts, in
    /// this order; `None` where a text is listed twice.
    pub fn from_counts(entries: &Vec<(String, u32)>) -> (tags: Option<Tags>)
        ensures
            match tags {
                Some(t) => t.wf() && t@ == counts_view(entries@),
                None => !distinct_names(counts_view(entries@)),
            },
    {
        let ghost all = counts_view(entries@);
        let mut tags = Tags::new();
        let mut i: usize = 0;
        while i < entries.len()
            invariant
                tags.wf(),
                all == counts_view(entries@),
                0 <= i <= entries@.len(),
                tags@ == all.take(i as int),
            decreases entries@.len() - i,
        {
            let name = entries[i].0.as_str();
            proof {
                tags.lemma_lookup(name@);
            }
            match tag_index_get(&tags.tag_set, name) {
                Some(j) => {
                    assert(all[j as int].0 == all[i as int].0);
                    return None;
                },
                None => {},
            }
            let ghost before = tags@;
            tags.vec.push(TagData { name: name.to_owned(), count: entries[i].1 });
            tag_index_insert(&mut tags.tag_set, name, i);
            assert(tags@ =~= before.push(all[i as int]));
            assert(all.take(i + 1) =~= all.take(i as int).push(all[i as int]));
            i += 1;
        }
        assert(all.take(all.len() as int) =~= all);
        Some(tags)
    }

    /// The identifier of `tag`, if the dictionary has it.
    pub fn get_idx(&self, tag: &str) -> (idx: Option<usize>)
        requires
            self.wf(),
        ensures
            match idx {
                Some(i) => position_of(self@, tag@) == Some(i as int),
                None => position_of(self@, tag@) is None,
            },
    {
        proof {
            self.lemma_lookup(tag@);
        }
        tag_index_get(&self.tag_set, tag)
    }

    /// The text of the tag with identifier `idx`, if there is one.
    pub fn get_name(&self, idx: usize) -> (name: Option<&str>)
        ensures
            match name {
                Some(s) => idx < self@.len() && s@ == self@[idx as int].0,
                None => idx >= self@.len(),
            },
    {
        if idx < self.vec.len() {
            Some(self.vec[idx].name.as_str())
        } else {
            None
        }
    }

    /// How often the tag `name` was seen, if the dictionary has it.
    pub fn get_count(&self, name: &str) -> (count: Option<u32>)
        requires
            self.wf(),
        ensures
            match position_of(self@, name@) {
                Some(i) => count == Some(self@[i].1),
                None => count is None,
            },
    {
        proof {
            self.lemma_lookup(name@);
        }
        match tag_index_get(&self.tag_set, name) {
            Some(idx) => Some(self.vec[idx].count),
            None => None,
        }
    }

    /// How often the tag with identifier `idx` was seen, if there is one.
    pub fn get_count_idx(&self, idx: usize) -> (count: Option<u32>)
        ensures
            match count {
                Some(n) => idx < self@.len() && n == self@[idx as int].1,
                None => idx >= self@.len(),
            },
    {
        if idx < self.vec.len() {
            Some(self.vec[idx].count)
        } else {
            None
        }
    }

    /// The number of tags.
    pub fn len(&self) -> (n: usize)
        ensures
            n == self@.len(),
    {
        self.vec.len()
    }
}

} // verus!
