//! Counting, for every pair of distinct tags, the posts that carry both.

use crate::csr_matrix::ops::cell_fits;
use crate::csr_matrix::ops::nonzero;
use crate::csr_matrix::ops::sum;
use crate::csr_matrix::ops::sum_cell;
use crate::csr_matrix::ops::CsrError;
use crate::csr_matrix::read;
use crate::csr_matrix::Cell;
use crate::csr_matrix::CSR;
use crate::hashed::cell_map_get;
use crate::hashed::cell_map_insert;
use crate::hashed::cells_held;
use crate::hashed::new_cell_map;
use crate::hashed::CellMap;
use crate::tags::Tags;
use vstd::prelude::*;

verus! {

/// Into how many runs of posts the counting is split.
pub const N_CHUNK: usize = 12;

/// The tag lists of the posts, as plain sequences.
pub open spec fn lists(posts: Seq<Vec<u32>>) -> Seq<Seq<u32>> {
    posts.map_values(|post: Vec<u32>| post@)
}

/// Every tag of every post is below `n`.
pub open spec fn ids_below(posts: Seq<Seq<u32>>, n: int) -> bool {
    forall|p: int, i: int|
        0 <= p < posts.len() && 0 <= i < posts[p].len() ==> #[trigger] posts[p][i] < n
}

/// How often `tag` stands in the post.
pub open spec fn occurrences(post: Seq<u32>, tag: int) -> nat
    decreases post.len(),
{
    if post.len() == 0 {
        0
    } else {
        occurrences(post.drop_last(), tag) + if post.last() == tag {
            1nat
        } else {
            0nat
        }
    }
}

/// How often `tag` stands in all the posts together.
pub open spec fn sightings(posts: Seq<Seq<u32>>, tag: int) -> nat
    decreases posts.len(),
{
    if posts.len() == 0 {
        0
    } else {
        sightings(posts.drop_last(), tag) + occurrences(posts.last(), tag)
    }
}

/// How often `a` stands beside `b` in the post: the number of pairs of
/// places of which one holds `a` and the other `b`. A tag does not stand
/// beside itself. In a post that lists no tag twice this is 1 where the
/// post carries both tags, and 0 elsewhere.
pub open spec fn pairs_in_post(post: Seq<u32>, a: int, b: int) -> nat {
    if a == b {
        0
    } else {
        occurrences(post, a) * occurrences(post, b)
    }
}

/// How often `a` stands beside `b`, over all the posts.
pub open spec fn co_count(posts: Seq<Seq<u32>>, a: int, b: int) -> nat
    decreases posts.len(),
{
    if posts.len() == 0 {
        0
    } else {
        co_count(posts.drop_last(), a, b) + pairs_in_post(posts.last(), a, b)
    }
}

/// The co-occurrence counts as a sparse map: a cell is stored where the
/// count is positive.
pub open spec fn co_counts(posts: Seq<Seq<u32>>) -> Map<Cell, int> {
    Map::new(
        |k: Cell| co_count(posts, k.0, k.1) > 0,
        |k: Cell| co_count(posts, k.0, k.1) as int,
    )
}

/// Every count fits the cell type.
pub open spec fn counts_fit(posts: Seq<Seq<u32>>) -> bool {
    forall|a: int, b: int| #[trigger] co_count(posts, a, b) <= i64::MAX
}

/// What counting over `posts` gives: the matrix of the counts, or an
/// error where a count does not fit the cell type.
pub open spec fn counted(posts: Seq<Seq<u32>>, n_tags: int, res: Result<CSR, CsrError>) -> bool {
    if counts_fit(posts) {
        &&& res matches Ok(m)
        &&& m.wf()
        &&& m.in_shape()
        &&& m.n_rows == n_tags
        &&& m.n_cols == n_tags
        &&& m@ == co_counts(posts)
    } else {
        res == Err::<CSR, CsrError>(CsrError::Overflow)
    }
}

/// Places `i` and `j` of the post hold `a` and `b`, in either order.
spec fn hit(post: Seq<u32>, i: int, j: int, a: int, b: int) -> nat {
    if a != b && ((post[i] == a && post[j] == b) || (post[i] == b && post[j] == a)) {
        1
    } else {
        0
    }
}

/// The hits of place `i` with the places after it and below `n`.
spec fn hits_in_row(post: Seq<u32>, i: int, n: int, a: int, b: int) -> nat
    decreases n - i,
{
    if n <= i + 1 {
        0
    } else {
        hits_in_row(post, i, n - 1, a, b) + hit(post, i, n - 1, a, b)
    }
}

/// The hits of the places below `k`, each with the places after it and below `n`.
spec fn hits_in_rows(post: Seq<u32>, k: int, n: int, a: int, b: int) -> nat
    decreases k,
{
    if k <= 0 {
        0
    } else {
        hits_in_rows(post, k - 1, n, a, b) + hits_in_row(post, k - 1, n, a, b)
    }
}

/// The hits of the places below `k` with place `n`.
spec fn hits_with(post: Seq<u32>, k: int, n: int, a: int, b: int) -> nat
    decreases k,
{
    if k <= 0 {
        0
    } else {
        hits_with(post, k - 1, n, a, b) + hit(post, k - 1, n, a, b)
    }
}

/// One more place brings the hits with that place.
proof fn lemma_rows_grow(post: Seq<u32>, k: int, n: int, a: int, b: int)
    requires
        0 <= k <= n,
    ensures
        hits_in_rows(post, k, n + 1, a, b) == hits_in_rows(post, k, n, a, b) + hits_with(
            post,
            k,
            n,
            a,
            b,
        ),
    decreases k,
{
    if k > 0 {
        lemma_rows_grow(post, k - 1, n, a, b);
    }
}

/// A prefix that is one longer counts its last place too.
proof fn lemma_occurrences_step(post: Seq<u32>, k: int, tag: int)
    requires
        0 <= k < post.len(),
    ensures
        occurrences(post.take(k + 1), tag) == occurrences(post.take(k), tag) + if post[k] == tag {
            1nat
        } else {
            0nat
        },
{
    assert(post.take(k + 1).drop_last() =~= post.take(k));
}

/// The places below `k` hit place `n` as often as they hold the other tag.
proof fn lemma_hits_with(post: Seq<u32>, k: int, n: int, a: int, b: int)
    requires
        0 <= k <= n < post.len(),
        a != b,
    ensures
        hits_with(post, k, n, a, b) == (if post[n] == b {
            occurrences(post.take(k), a)
        } else {
            0
        }) + (if post[n] == a {
            occurrences(post.take(k), b)
        } else {
            0
        }),
    decreases k,
{
    if k > 0 {
        lemma_hits_with(post, k - 1, n, a, b);
        lemma_occurrences_step(post, k - 1, a);
        lemma_occurrences_step(post, k - 1, b);
    } else {
        assert(post.take(0).len() == 0);
    }
}

/// Among the first `n` places, the pairs that hold `a` and `b` number the
/// occurrences of `a` times those of `b`.
proof fn lemma_pairs_upto(post: Seq<u32>, n: int, a: int, b: int)
    requires
        0 <= n <= post.len(),
        a != b,
    ensures
        hits_in_rows(post, n, n, a, b) == occurrences(post.take(n), a) * occurrences(
            post.take(n),
            b,
        ),
    decreases n,
{
    if n > 0 {
        let m = n - 1;
        lemma_pairs_upto(post, m, a, b);
        lemma_rows_grow(post, m, m, a, b);
        lemma_hits_with(post, m, m, a, b);
        lemma_occurrences_step(post, m, a);
        lemma_occurrences_step(post, m, b);
        let oa = occurrences(post.take(m), a);
        let ob = occurrences(post.take(m), b);
        assert(hits_in_row(post, m, n, a, b) == 0);
        assert((oa + 1) * ob == oa * ob + ob) by (nonlinear_arith);
        assert(oa * (ob + 1) == oa * ob + oa) by (nonlinear_arith);
    } else {
        assert(post.take(0).len() == 0);
        assert(occurrences(post.take(0), a) == 0);
        assert(0 * occurrences(post.take(0), b) == 0);
    }
}

/// All the pairs of places of a post that hold `a` and `b`.
proof fn lemma_pairs(post: Seq<u32>, a: int, b: int)
    ensures
        hits_in_rows(post, post.len() as int, post.len() as int, a, b) == pairs_in_post(post, a, b),
{
    if a != b {
        lemma_pairs_upto(post, post.len() as int, a, b);
        assert(post.take(post.len() as int) =~= post);
    } else {
        lemma_no_self_hits(post, post.len() as int, post.len() as int, a);
    }
}

/// A tag does not hit itself.
proof fn lemma_no_self_hits(post: Seq<u32>, k: int, n: int, a: int)
    ensures
        hits_in_rows(post, k, n, a, a) == 0,
        hits_in_row(post, k, n, a, a) == 0,
    decreases k + 1, n - k,
{
    if k > 0 {
        lemma_no_self_hits(post, k - 1, n, a);
    }
    if n > k + 1 {
        lemma_no_self_hits_row(post, k, n, a);
    }
}

/// A tag does not hit itself in any row.
proof fn lemma_no_self_hits_row(post: Seq<u32>, i: int, n: int, a: int)
    ensures
        hits_in_row(post, i, n, a, a) == 0,
    decreases n - i,
{
    if n > i + 1 {
        lemma_no_self_hits_row(post, i, n - 1, a);
    }
}

/// The hits of a row grow with the bound.
proof fn lemma_row_grows(post: Seq<u32>, i: int, m: int, n: int, a: int, b: int)
    requires
        m <= n,
    ensures
        hits_in_row(post, i, m, a, b) <= hits_in_row(post, i, n, a, b),
    decreases n - m,
{
    if m < n {
        lemma_row_grows(post, i, m, n - 1, a, b);
    }
}

/// The hits of the rows grow with the number of rows.
proof fn lemma_rows_mount(post: Seq<u32>, k: int, l: int, n: int, a: int, b: int)
    requires
        k <= l,
    ensures
        hits_in_rows(post, k, n, a, b) <= hits_in_rows(post, l, n, a, b),
    decreases l - k,
{
    if k < l {
        lemma_rows_mount(post, k, l - 1, n, a, b);
    }
}

/// One more post brings its own pairs.
pub proof fn lemma_co_count_step(posts: Seq<Seq<u32>>, p: int, a: int, b: int)
    requires
        0 <= p < posts.len(),
    ensures
        co_count(posts.take(p + 1), a, b) == co_count(posts.take(p), a, b) + pairs_in_post(
            posts[p],
            a,
            b,
        ),
{
    assert(posts.take(p + 1).drop_last() =~= posts.take(p));
}

/// The counts of two runs of posts add up to the counts of both together.
pub proof fn lemma_co_count_concat(x: Seq<Seq<u32>>, y: Seq<Seq<u32>>, a: int, b: int)
    ensures
        co_count(x + y, a, b) == co_count(x, a, b) + co_count(y, a, b),
    decreases y.len(),
{
    if y.len() == 0 {
        assert(x + y =~= x);
    } else {
        lemma_co_count_concat(x, y.drop_last(), a, b);
        assert((x + y).drop_last() =~= x + y.drop_last());
    }
}

/// A tag stands beside another as often as the other beside it.
pub proof fn lemma_co_count_symmetric(posts: Seq<Seq<u32>>, a: int, b: int)
    ensures
        co_count(posts, a, b) == co_count(posts, b, a),
    decreases posts.len(),
{
    if posts.len() > 0 {
        lemma_co_count_symmetric(posts.drop_last(), a, b);
        let post = posts.last();
        assert(occurrences(post, a) * occurrences(post, b) == occurrences(post, b) * occurrences(
            post,
            a,
        )) by (nonlinear_arith);
    }
}

/// No tag stands beside itself.
pub proof fn lemma_co_count_diagonal(posts: Seq<Seq<u32>>, a: int)
    ensures
        co_count(posts, a, a) == 0,
    decreases posts.len(),
{
    if posts.len() > 0 {
        lemma_co_count_diagonal(posts.drop_last(), a);
    }
}

/// The counts of two runs of posts, added up cell by cell, are the counts
/// of the two runs together; and counts store no zero.
pub proof fn lemma_counts_add_up(x: Seq<Seq<u32>>, y: Seq<Seq<u32>>)
    ensures
        sum(co_counts(x), co_counts(y)) == co_counts(x + y),
        nonzero(co_counts(x)),
{
    assert forall|k: Cell| #[trigger] sum_cell(co_counts(x), co_counts(y), k) == (if co_count(
        x + y,
        k.0,
        k.1,
    ) > 0 {
        Some(co_count(x + y, k.0, k.1) as int)
    } else {
        None
    }) by {
        lemma_co_count_concat(x, y, k.0, k.1);
    }
    assert(sum(co_counts(x), co_counts(y)) =~= co_counts(x + y));
}

/// Two tags that were counted together were each sighted.
pub proof fn lemma_pair_needs_both(posts: Seq<Seq<u32>>, a: int, b: int)
    requires
        co_count(posts, a, b) > 0,
    ensures
        sightings(posts, a) > 0,
        sightings(posts, b) > 0,
    decreases posts.len(),
{
    if posts.len() > 0 {
        let post = posts.last();
        if pairs_in_post(post, a, b) > 0 {
            let x = occurrences(post, a);
            let y = occurrences(post, b);
            assert(x > 0 && y > 0) by (nonlinear_arith)
                requires
                    x * y > 0,
                    x >= 0,
                    y >= 0,
            ;
        } else {
            lemma_pair_needs_both(posts.drop_last(), a, b);
        }
    }
}

/// The co-occurrence counts are symmetric: cell `(a, b)` is stored where
/// `(b, a)` is, and both read the same.
pub proof fn lemma_counts_symmetric(posts: Seq<Seq<u32>>, a: int, b: int)
    ensures
        co_counts(posts).contains_key((a, b)) == co_counts(posts).contains_key((b, a)),
        read(co_counts(posts), (a, b)) == read(co_counts(posts), (b, a)),
{
    lemma_co_count_symmetric(posts, a, b);
}

/// The co-occurrence counts store no cell of the diagonal.
pub proof fn lemma_counts_off_diagonal(posts: Seq<Seq<u32>>, a: int)
    ensures
        !co_counts(posts).contains_key((a, a)),
{
    lemma_co_count_diagonal(posts, a);
}

/// A co-occurrence matrix is symmetric and stores no cell of the
/// diagonal: cell `(a, b)` is stored where `(b, a)` is, and both read the same.
pub proof fn lemma_counted_symmetric(
    posts: Seq<Seq<u32>>,
    n_tags: int,
    co_count_matrix: &CSR,
    a: int,
    b: int,
)
    requires
        counted(posts, n_tags, Ok(*co_count_matrix)),
    ensures
        co_count_matrix@.contains_key((a, b)) == co_count_matrix@.contains_key((b, a)),
        read(co_count_matrix@, (a, b)) == read(co_count_matrix@, (b, a)),
        !co_count_matrix@.contains_key((a, a)),
        read(co_count_matrix@, (a, b)) == co_count(posts, a, b),
{
    lemma_counts_symmetric(posts, a, b);
    lemma_counts_off_diagonal(posts, a);
}

/// No tag stands twice in the post.
pub open spec fn plain(post: Seq<u32>) -> bool {
    forall|i: int, j: int| 0 <= i < j < post.len() ==> #[trigger] post[i] != #[trigger] post[j]
}

/// The post carries the tag.
pub open spec fn carries(post: Seq<u32>, tag: int) -> bool {
    exists|i: int| 0 <= i < post.len() && #[trigger] post[i] == tag
}

/// How many of the posts carry the tag.
pub open spec fn carrying(posts: Seq<Seq<u32>>, tag: int) -> nat
    decreases posts.len(),
{
    if posts.len() == 0 {
        0
    } else {
        carrying(posts.drop_last(), tag) + if carries(posts.last(), tag) {
            1nat
        } else {
            0nat
        }
    }
}

/// Among posts without repeated tags a tag is sighted once in every post
/// that carries it.
pub proof fn lemma_plain_sightings(posts: Seq<Seq<u32>>, tag: int)
    requires
        forall|p: int| 0 <= p < posts.len() ==> plain(#[trigger] posts[p]),
    ensures
        sightings(posts, tag) == carrying(posts, tag),
    decreases posts.len(),
{
    if posts.len() > 0 {
        let rest = posts.drop_last();
        assert forall|p: int| 0 <= p < rest.len() implies plain(#[trigger] rest[p]) by {
            assert(rest[p] == posts[p]);
        }
        lemma_plain_sightings(rest, tag);
        assert(plain(posts[posts.len() - 1]));
        lemma_plain_occurrences(posts.last(), tag);
    }
}

/// In a post without repeated tags a tag stands once or not at all.
pub proof fn lemma_plain_occurrences(post: Seq<u32>, tag: int)
    requires
        plain(post),
    ensures
        occurrences(post, tag) == if carries(post, tag) {
            1nat
        } else {
            0nat
        },
    decreases post.len(),
{
    if post.len() > 0 {
        let rest = post.drop_last();
        lemma_plain_occurrences(rest, tag);
        let n = post.len() - 1;
        if carries(rest, tag) {
            let i = choose|i: int| 0 <= i < rest.len() && #[trigger] rest[i] == tag;
            assert(post[i] == tag);
            assert(post[i] != post[n]);
        }
        if post.last() == tag {
            assert(post[n] == tag);
        }
        if carries(post, tag) && post.last() != tag {
            let i = choose|i: int| 0 <= i < post.len() && #[trigger] post[i] == tag;
            assert(rest[i] == tag);
        }
    }
}

/// A post without repeated tags counts once for every pair of distinct
/// tags that it carries, and for no other pair.
pub proof fn lemma_plain_pairs(post: Seq<u32>, a: int, b: int)
    requires
        plain(post),
    ensures
        pairs_in_post(post, a, b) == if a != b && carries(post, a) && carries(post, b) {
            1nat
        } else {
            0nat
        },
{
    lemma_plain_occurrences(post, a);
    lemma_plain_occurrences(post, b);
}

/// How many of the posts carry both tags.
pub open spec fn carrying_both(posts: Seq<Seq<u32>>, a: int, b: int) -> nat
    decreases posts.len(),
{
    if posts.len() == 0 {
        0
    } else {
        carrying_both(posts.drop_last(), a, b) + if carries(posts.last(), a) && carries(
            posts.last(),
            b,
        ) {
            1nat
        } else {
            0nat
        }
    }
}

/// Among posts without repeated tags, the count of two different tags is
/// the number of posts that carry both.
pub proof fn lemma_plain_co_count(posts: Seq<Seq<u32>>, a: int, b: int)
    requires
        forall|p: int| 0 <= p < posts.len() ==> plain(#[trigger] posts[p]),
        a != b,
    ensures
        co_count(posts, a, b) == carrying_both(posts, a, b),
    decreases posts.len(),
{
    if posts.len() > 0 {
        let rest = posts.drop_last();
        assert forall|p: int| 0 <= p < rest.len() implies plain(#[trigger] rest[p]) by {
            assert(rest[p] == posts[p]);
        }
        lemma_plain_co_count(rest, a, b);
        assert(plain(posts[posts.len() - 1]));
        lemma_plain_pairs(posts.last(), a, b);
    }
}

/// The count that the walk has reached when it stands before places
/// `i` and `j` of post `p`.
spec fn progress(posts: Seq<Seq<u32>>, p: int, i: int, j: int, a: int, b: int) -> nat {
    co_count(posts.take(p), a, b) + if p < posts.len() {
        hits_in_rows(posts[p], i, posts[p].len() as int, a, b) + hits_in_row(posts[p], i, j, a, b)
    } else {
        0
    }
}

/// The map holds, for every cell, the count that the walk has reached,
/// and holds no cell whose count is still zero.
spec fn tallied(held: Map<Cell, int>, posts: Seq<Seq<u32>>, p: int, i: int, j: int) -> bool {
    forall|k: Cell|
        (#[trigger] held.contains_key(k) <==> progress(posts, p, i, j, k.0, k.1) > 0) && (
        held.contains_key(k) ==> held[k] == progress(posts, p, i, j, k.0, k.1))
}

/// Every cell of the map lies in the square of side `n`.
spec fn in_square(held: Map<Cell, int>, n: int) -> bool {
    forall|k: Cell| #[trigger] held.contains_key(k) ==> 0 <= k.0 < n && 0 <= k.1 < n
}

/// The walk never counts more than the posts hold.
proof fn lemma_progress_bound(posts: Seq<Seq<u32>>, p: int, i: int, j: int, a: int, b: int)
    requires
        0 <= p < posts.len(),
        0 <= i < j <= posts[p].len(),
    ensures
        progress(posts, p, i, j, a, b) <= co_count(posts, a, b),
{
    let post = posts[p];
    let n = post.len() as int;
    lemma_row_grows(post, i, j, n, a, b);
    lemma_rows_mount(post, i + 1, n, n, a, b);
    lemma_pairs(post, a, b);
    lemma_co_count_step(posts, p, a, b);
    assert(posts =~= posts.take(p + 1) + posts.skip(p + 1));
    lemma_co_count_concat(posts.take(p + 1), posts.skip(p + 1), a, b);
}

/// Counts one more sighting of a cell.
fn bump(counts: &mut CellMap, row: usize, col: usize) -> (res: Result<(), CsrError>)
    ensures
        match res {
            Ok(_) => {
                let k = (row as int, col as int);
                let before = cells_held(*old(counts));
                cells_held(*final(counts)) == before.insert(
                    k,
                    if before.contains_key(k) {
                        before[k] + 1
                    } else {
                        1
                    },
                )
            },
            Err(e) => e == CsrError::Overflow && cells_held(*final(counts)) == cells_held(
                *old(counts),
            ) && cells_held(*old(counts)).contains_key((row as int, col as int)) && cells_held(
                *old(counts),
            )[(row as int, col as int)] == i64::MAX,
        },
{
    let seen = match cell_map_get(counts, row, col) {
        Some(n) => n,
        None => 0,
    };
    match seen.checked_add(1) {
        Some(n) => {
            cell_map_insert(counts, row, col, n);
            Ok(())
        },
        None => Err(CsrError::Overflow),
    }
}

/// Counts the pairs of distinct tags over a run of posts: for every two
/// places of a post that hold different tags `a` and `b`, the cells
/// `(a, b)` and `(b, a)` each count one more.
pub fn count_pairs(posts: &[Vec<u32>], n_tags: usize) -> (res: Result<CSR, CsrError>)
    requires
        ids_below(lists(posts@), n_tags as int),
    ensures
        counted(lists(posts@), n_tags as int, res),
{
    let ghost all = lists(posts@);
    let mut tally = new_cell_map();
    let mut p: usize = 0;
    while p < posts.len()
        invariant
            all == lists(posts@),
            ids_below(all, n_tags as int),
            0 <= p <= posts@.len(),
            tallied(cells_held(tally), all, p as int, 0, 0),
            in_square(cells_held(tally), n_tags as int),
        decreases posts@.len() - p,
    {
        let post = &posts[p];
        assert(all[p as int] == post@);
        let mut i: usize = 0;
        while i < post.len()
            invariant
                all == lists(posts@),
                ids_below(all, n_tags as int),
                0 <= p < posts@.len(),
                all[p as int] == post@,
                0 <= i <= post@.len(),
                tallied(cells_held(tally), all, p as int, i as int, 0),
                in_square(cells_held(tally), n_tags as int),
            decreases post@.len() - i,
        {
            let mut j: usize = i + 1;
            proof {
                assert forall|k: Cell|
                    progress(all, p as int, i as int, 0, k.0, k.1) == progress(
                        all,
                        p as int,
                        i as int,
                        i + 1,
                        k.0,
                        k.1,
                    ) by {}
            }
            while j < post.len()
                invariant
                    all == lists(posts@),
                    ids_below(all, n_tags as int),
                    0 <= p < posts@.len(),
                    all[p as int] == post@,
                    0 <= i < j <= post@.len(),
                    tallied(cells_held(tally), all, p as int, i as int, j as int),
                    in_square(cells_held(tally), n_tags as int),
                decreases post@.len() - j,
            {
                let a = post[i] as usize;
                let b = post[j] as usize;
                let ghost before = cells_held(tally);
                assert(all[p as int][i as int] < n_tags);
                assert(all[p as int][j as int] < n_tags);
                if a != b {
                    match bump(&mut tally, a, b) {
                        Ok(_) => {},
                        Err(e) => {
                            proof {
                                lemma_progress_bound(
                                    all,
                                    p as int,
                                    i as int,
                                    j + 1,
                                    a as int,
                                    b as int,
                                );
                                assert(before.contains_key((a as int, b as int)));
                                assert(hit(post@, i as int, j as int, a as int, b as int) == 1);
                                assert(co_count(all, a as int, b as int) > i64::MAX);
                            }
                            return Err(e);
                        },
                    }
                    match bump(&mut tally, b, a) {
                        Ok(_) => {},
                        Err(e) => {
                            proof {
                                lemma_progress_bound(
                                    all,
                                    p as int,
                                    i as int,
                                    j + 1,
                                    b as int,
                                    a as int,
                                );
                                assert(before.contains_key((b as int, a as int)));
                                assert(hit(post@, i as int, j as int, b as int, a as int) == 1);
                                assert(co_count(all, b as int, a as int) > i64::MAX);
                            }
                            return Err(e);
                        },
                    }
                }
                proof {
                    let after = cells_held(tally);
                    assert forall|k: Cell|
                        (#[trigger] after.contains_key(k) <==> progress(
                            all,
                            p as int,
                            i as int,
                            j + 1,
                            k.0,
                            k.1,
                        ) > 0) && (after.contains_key(k) ==> after[k] == progress(
                            all,
                            p as int,
                            i as int,
                            j + 1,
                            k.0,
                            k.1,
                        )) by {
                        assert(before.contains_key(k) <==> progress(
                            all,
                            p as int,
                            i as int,
                            j as int,
                            k.0,
                            k.1,
                        ) > 0);
                        let h = hit(post@, i as int, j as int, k.0, k.1);
                        assert(h == 1 <==> a != b && (k == (a as int, b as int) || k == (
                            b as int,
                            a as int,
                        )));
                    }
                }
                j += 1;
            }
            proof {
                assert forall|k: Cell|
                    progress(all, p as int, i as int, j as int, k.0, k.1) == progress(
                        all,
                        p as int,
                        i + 1,
                        0,
                        k.0,
                        k.1,
                    ) by {
                    if i + 1 == post@.len() {
                        assert(hits_in_row(post@, i as int, j as int, k.0, k.1) == 0);
                        assert(hits_in_row(post@, i as int, post@.len() as int, k.0, k.1) == 0);
                    }
                }
            }
            i += 1;
        }
        proof {
            assert forall|k: Cell|
                progress(all, p as int, i as int, 0, k.0, k.1) == progress(
                    all,
                    p + 1,
                    0,
                    0,
                    k.0,
                    k.1,
                ) by {
                lemma_pairs(post@, k.0, k.1);
                lemma_co_count_step(all, p as int, k.0, k.1);
            }
        }
        p += 1;
    }
    let m = CSR::from_fxhash(&tally, n_tags, n_tags);
    proof {
        assert(all.take(all.len() as int) =~= all);
        assert(m@ =~= co_counts(all));
        assert forall|a: int, b: int| #[trigger] co_count(all, a, b) <= i64::MAX by {
            if co_count(all, a, b) > 0 {
                assert(co_counts(all).contains_key((a, b)));
                assert(m.stores(a, b));
                let j = m.slot(a, b);
                assert(m.holds_at(a, b, j));
                m.lemma_slot(a, b, j);
            }
        }
    }
    Ok(m)
}

/// The counts of a run of posts never exceed those of all the posts.
proof fn lemma_run_bound(posts: Seq<Seq<u32>>, lo: int, hi: int, a: int, b: int)
    requires
        0 <= lo <= hi <= posts.len(),
    ensures
        co_count(posts.take(hi), a, b) == co_count(posts.take(lo), a, b) + co_count(
            posts.subrange(lo, hi),
            a,
            b,
        ),
        co_count(posts.take(hi), a, b) <= co_count(posts, a, b),
{
    assert(posts.take(hi) =~= posts.take(lo) + posts.subrange(lo, hi));
    lemma_co_count_concat(posts.take(lo), posts.subrange(lo, hi), a, b);
    assert(posts =~= posts.take(hi) + posts.skip(hi));
    lemma_co_count_concat(posts.take(hi), posts.skip(hi), a, b);
}

/// The co-occurrence matrix of the posts, of shape tags by tags.
///
/// The posts are counted in `N_CHUNK` runs of `n_posts / N_CHUNK + 1`
/// posts each, and the matrices of the runs are added up. How the posts
/// are split does not show in the result.
pub fn get_co_count_matrix(n_posts: usize, tags: &Tags, posts_tag_idxs: Vec<Vec<u32>>) -> (res:
    Result<CSR, CsrError>)
    requires
        ids_below(lists(posts_tag_idxs@), tags@.len() as int),
    ensures
        counted(lists(posts_tag_idxs@), tags@.len() as int, res),
{
    let n_tags = tags.len();
    let chunk_len = n_posts / N_CHUNK + 1;
    let ghost all = lists(posts_tag_idxs@);
    let mut co_count_matrix = CSR::new(n_tags, n_tags);
    let mut lo: usize = 0;
    assert(co_count_matrix@ =~= co_counts(all.take(0)));
    while lo < posts_tag_idxs.len()
        invariant
            all == lists(posts_tag_idxs@),
            ids_below(all, n_tags as int),
            chunk_len > 0,
            0 <= lo <= posts_tag_idxs@.len(),
            co_count_matrix.wf(),
            co_count_matrix.in_shape(),
            co_count_matrix.n_rows == n_tags,
            co_count_matrix.n_cols == n_tags,
            co_count_matrix@ == co_counts(all.take(lo as int)),
        decreases posts_tag_idxs@.len() - lo,
    {
        let hi = if posts_tag_idxs.len() - lo > chunk_len {
            lo + chunk_len
        } else {
            posts_tag_idxs.len()
        };
        let chunk = &posts_tag_idxs[lo..hi];
        let ghost run = all.subrange(lo as int, hi as int);
        assert(lists(chunk@) =~= run);
        let slice = match count_pairs(chunk, n_tags) {
            Ok(m) => m,
            Err(e) => {
                proof {
                    let (a, b) = choose|a: int, b: int| #[trigger] co_count(run, a, b) > i64::MAX;
                    lemma_run_bound(all, lo as int, hi as int, a, b);
                }
                return Err(e);
            },
        };
        let ghost before = co_count_matrix@;
        proof {
            assert(all.take(hi as int) =~= all.take(lo as int) + run);
            lemma_counts_add_up(all.take(lo as int), run);
        }
        match co_count_matrix.add_in_place(&slice) {
            Ok(_) => {},
            Err(e) => {
                proof {
                    let k = choose|k: Cell| !cell_fits(before, slice@, k);
                    lemma_run_bound(all, lo as int, hi as int, k.0, k.1);
                    assert(sum_cell(before, slice@, k) is Some);
                    assert(co_count(all, k.0, k.1) > i64::MAX);
                }
                return Err(e);
            },
        }
        lo = hi;
    }
    proof {
        assert(all.take(all.len() as int) =~= all);
        assert forall|a: int, b: int| #[trigger] co_count(all, a, b) <= i64::MAX by {
            if co_count(all, a, b) > 0 {
                assert(co_counts(all).contains_key((a, b)));
                assert(co_count_matrix.stores(a, b));
                let j = co_count_matrix.slot(a, b);
                assert(co_count_matrix.holds_at(a, b, j));
                co_count_matrix.lemma_slot(a, b, j);
            }
        }
    }
    Ok(co_count_matrix)
}

} // verus!
