//! From co-occurrence counts to the matrix of positive association scores.

use crate::cooccurrence::co_counts;
use crate::cooccurrence::lemma_co_count_diagonal;
use crate::csr_matrix::construct::cells_of;
use crate::csr_matrix::construct::distinct_cells;
use crate::csr_matrix::construct::fits_shape;
use crate::csr_matrix::construct::lemma_cell_named;
use crate::csr_matrix::construct::names;
use crate::csr_matrix::Cell;
use crate::csr_matrix::CSR;
use crate::tags::indexed_posts;
use crate::tags::lemma_counted_tags_are_known;
use crate::tags::Tags;
use vstd::prelude::*;

verus! {

/// Why the association matrix could not be formed.
#[derive(Debug, Clone, Copy, PartialEq, Eq, Structural)]
pub enum NpmiError {
    /// The co-occurrence matrix stores a cell of a tag that the dictionary lacks.
    MissingTagStatistic,
}

/// Entry `j` is the cell `k`, and its score is positive.
pub open spec fn scored(
    entries: Seq<(usize, usize, i64)>,
    scores: Seq<i64>,
    j: int,
    k: Cell,
) -> bool {
    names(entries, j, k) && j < scores.len() && scores[j] > 0
}

/// The cells whose score is positive, each with its score.
pub open spec fn kept(entries: Seq<(usize, usize, i64)>, scores: Seq<i64>) -> Map<Cell, int> {
    Map::new(
        |k: Cell| exists|j: int| scored(entries, scores, j, k),
        |k: Cell| scores[choose|j: int| scored(entries, scores, j, k)] as int,
    )
}

/// The dictionary has the tags of every stored cell.
pub open spec fn covered(cells: Map<Cell, int>, n_tags: int) -> bool {
    forall|k: Cell| #[trigger] cells.contains_key(k) ==> 0 <= k.0 < n_tags && 0 <= k.1 < n_tags
}

/// The first `n` scores are what `score` gave for the counts of their entries.
pub open spec fn rated<F: Fn(u32, u32, i64, usize) -> i64>(
    score: F,
    n_posts: usize,
    tags: Seq<(Seq<char>, u32)>,
    entries: Seq<(usize, usize, i64)>,
    scores: Seq<i64>,
    n: int,
) -> bool {
    forall|j: int|
        0 <= j < n ==> call_ensures(
            score,
            (tags[entries[j].0 as int].1, tags[entries[j].1 as int].1, entries[j].2, n_posts),
            #[trigger] scores[j],
        )
}

/// `score` accepts the counts of every entry.
pub open spec fn rateable<F: Fn(u32, u32, i64, usize) -> i64>(
    score: F,
    n_posts: usize,
    tags: Seq<(Seq<char>, u32)>,
    entries: Seq<(usize, usize, i64)>,
) -> bool {
    forall|j: int|
        0 <= j < entries.len() && (#[trigger] entries[j]).0 < tags.len() && entries[j].1
            < tags.len() ==> call_requires(
            score,
            (tags[entries[j].0 as int].1, tags[entries[j].1 as int].1, entries[j].2, n_posts),
        )
}

/// The triple `e` is one of the first `n` entries with its positive score in
/// place of its count.
spec fn drawn(
    entries: Seq<(usize, usize, i64)>,
    scores: Seq<i64>,
    n: int,
    e: (usize, usize, i64),
) -> bool {
    exists|i: int|
        0 <= i < n && (#[trigger] entries[i]).0 == e.0 && entries[i].1 == e.1 && scores[i] == e.2
            && scores[i] > 0
}

/// The triple `e` stands in the list.
spec fn among(triples: Seq<(usize, usize, i64)>, e: (usize, usize, i64)) -> bool {
    exists|t: int| 0 <= t < triples.len() && #[trigger] triples[t] == e
}

/// The list holds the first `n` entries whose score is positive, each
/// with its score, and nothing else.
spec fn sifted(
    entries: Seq<(usize, usize, i64)>,
    scores: Seq<i64>,
    n: int,
    triples: Seq<(usize, usize, i64)>,
) -> bool {
    &&& forall|t: int| 0 <= t < triples.len() ==> drawn(entries, scores, n, #[trigger] triples[t])
    &&& forall|i: int|
        0 <= i < n && scores[i] > 0 ==> #[trigger] among(
            triples,
            (entries[i].0, entries[i].1, scores[i]),
        )
}

/// A list that has sifted `n` entries has sifted one more, whose score is
/// not positive.
proof fn lemma_sifted_skip(
    entries: Seq<(usize, usize, i64)>,
    scores: Seq<i64>,
    n: int,
    triples: Seq<(usize, usize, i64)>,
)
    requires
        sifted(entries, scores, n, triples),
        scores[n] <= 0,
    ensures
        sifted(entries, scores, n + 1, triples),
{
    assert forall|t: int| 0 <= t < triples.len() implies drawn(
        entries,
        scores,
        n + 1,
        #[trigger] triples[t],
    ) by {
        assert(drawn(entries, scores, n, triples[t]));
    }
}

/// A list that has sifted `n` entries and takes the next, with its
/// positive score, has sifted one more; and it still names no cell twice.
proof fn lemma_sifted_push(
    entries: Seq<(usize, usize, i64)>,
    scores: Seq<i64>,
    n: int,
    triples: Seq<(usize, usize, i64)>,
)
    requires
        sifted(entries, scores, n, triples),
        distinct_cells(entries),
        distinct_cells(triples),
        0 <= n < entries.len(),
        scores[n] > 0,
    ensures
        sifted(entries, scores, n + 1, triples.push((entries[n].0, entries[n].1, scores[n]))),
        distinct_cells(triples.push((entries[n].0, entries[n].1, scores[n]))),
{
    let e = (entries[n].0, entries[n].1, scores[n]);
    let after = triples.push(e);
    assert forall|t: int| 0 <= t < after.len() implies drawn(
        entries,
        scores,
        n + 1,
        #[trigger] after[t],
    ) by {
        if t < triples.len() {
            assert(after[t] == triples[t]);
            assert(drawn(entries, scores, n, triples[t]));
        }
    }
    assert forall|i: int| 0 <= i < n + 1 && scores[i] > 0 implies #[trigger] among(
        after,
        (entries[i].0, entries[i].1, scores[i]),
    ) by {
        if i < n {
            let x = (entries[i].0, entries[i].1, scores[i]);
            assert(among(triples, x));
            let t = choose|t: int| 0 <= t < triples.len() && #[trigger] triples[t] == x;
            assert(after[t] == x);
        } else {
            assert(after[triples.len() as int] == e);
        }
    }
    assert forall|s: int, t: int| 0 <= s < t < after.len() implies !((#[trigger] after[s]).0 == (
    #[trigger] after[t]).0 && after[s].1 == after[t].1) by {
        assert(after[s] == triples[s]);
        if t < triples.len() {
            assert(after[t] == triples[t]);
        } else {
            assert(drawn(entries, scores, n, triples[s]));
            let i = choose|i: int|
                0 <= i < n && (#[trigger] entries[i]).0 == triples[s].0 && entries[i].1
                    == triples[s].1 && scores[i] == triples[s].2 && scores[i] > 0;
            assert(!(entries[i].0 == entries[n].0 && entries[i].1 == entries[n].1));
        }
    }
}

/// The matrix of shape `n_tags` by `n_tags` that stores, of the cells of
/// `co_count_matrix`, those whose score is positive, with the score as
/// value. `scores` gives one score per stored cell, in row-major order.
pub fn keep_positive(co_count_matrix: &CSR, scores: &Vec<i64>, n_tags: usize) -> (m: CSR)
    requires
        co_count_matrix.wf(),
        scores@.len() == co_count_matrix.n_nz,
        covered(co_count_matrix@, n_tags as int),
    ensures
        m.wf(),
        m.in_shape(),
        m.n_rows == n_tags,
        m.n_cols == n_tags,
        m@ == kept(co_count_matrix.entries(), scores@),
        forall|k: Cell| #[trigger]
            m@.contains_key(k) ==> m@[k] > 0 && co_count_matrix@.contains_key(k),
{
    let ghost entries = co_count_matrix.entries();
    proof {
        co_count_matrix.lemma_entries();
        assert forall|j: int| 0 <= j < entries.len() implies (#[trigger] entries[j]).0 < n_tags
            && entries[j].1 < n_tags by {
            lemma_cell_named(entries, j);
        }
    }
    let mut npmi_triples: Vec<(usize, usize, i64)> = Vec::new();
    let mut it = co_count_matrix.iter();
    let mut j: usize = 0;
    loop
        invariant
            co_count_matrix.wf(),
            entries == co_count_matrix.entries(),
            entries.len() == co_count_matrix.n_nz,
            scores@.len() == co_count_matrix.n_nz,
            distinct_cells(entries),
            fits_shape(entries, n_tags as int, n_tags as int),
            it.wf(),
            it.matrix() == co_count_matrix,
            it.position() == j,
            0 <= j <= entries.len(),
            fits_shape(npmi_triples@, n_tags as int, n_tags as int),
            sifted(entries, scores@, j as int, npmi_triples@),
            distinct_cells(npmi_triples@),
        ensures
            j == entries.len(),
        decreases entries.len() - j,
    {
        match it.next() {
            Some((row, col, _count)) => {
                let npmi_xy = scores[j];
                if npmi_xy > 0 {
                    proof {
                        lemma_sifted_push(entries, scores@, j as int, npmi_triples@);
                    }
                    npmi_triples.push((row, col, npmi_xy));
                } else {
                    proof {
                        lemma_sifted_skip(entries, scores@, j as int, npmi_triples@);
                    }
                }
                j += 1;
            },
            None => {
                break ;
            },
        }
    }
    let m = CSR::from_triplet(&npmi_triples, n_tags, n_tags);
    proof {
        let triples = npmi_triples@;
        let want = kept(entries, scores@);
        assert forall|k: Cell| #[trigger] m@.contains_key(k) implies want.contains_key(k) && want[k]
            == m@[k] by {
            let t = choose|t: int| names(triples, t, k);
            lemma_cell_named(triples, t);
            assert(drawn(entries, scores@, j as int, triples[t]));
            let i = choose|i: int|
                0 <= i < j && (#[trigger] entries[i]).0 == triples[t].0 && entries[i].1
                    == triples[t].1 && scores@[i] == triples[t].2 && scores@[i] > 0;
            assert(scored(entries, scores@, i, k));
            let c = choose|c: int| scored(entries, scores@, c, k);
            if c < i {
                assert(!(entries[c].0 == entries[i].0 && entries[c].1 == entries[i].1));
            }
            if i < c {
                assert(!(entries[i].0 == entries[c].0 && entries[i].1 == entries[c].1));
            }
        }
        assert forall|k: Cell| #[trigger] want.contains_key(k) implies m@.contains_key(k) by {
            let i = choose|i: int| scored(entries, scores@, i, k);
            let x = (entries[i].0, entries[i].1, scores@[i]);
            assert(among(triples, x));
            let t = choose|t: int| 0 <= t < triples.len() && #[trigger] triples[t] == x;
            assert(names(triples, t, k));
        }
        assert(m@ =~= want);
        assert forall|k: Cell| #[trigger] m@.contains_key(k) implies m@[k] > 0
            && co_count_matrix@.contains_key(k) by {
            let i = choose|i: int| scored(entries, scores@, i, k);
            assert(names(entries, i, k));
            assert(cells_of(entries).contains_key(k));
        }
    }
    m
}

/// A dictionary that was built by indexing the posts has the tags of
/// every cell of their co-occurrence counts, so that the transform of
/// those counts with that dictionary does not fail.
pub proof fn lemma_own_counts_covered(posts: Seq<Seq<Seq<char>>>)
    requires
        indexed_posts(Seq::<(Seq<char>, u32)>::empty(), posts) is Some,
    ensures
        ({
            let (tags, lists) = indexed_posts(Seq::<(Seq<char>, u32)>::empty(), posts).unwrap();
            covered(co_counts(lists), tags.len() as int)
        }),
{
    let (tags, lists) = indexed_posts(Seq::<(Seq<char>, u32)>::empty(), posts).unwrap();
    assert forall|k: Cell| #[trigger] co_counts(lists).contains_key(k) implies 0 <= k.0
        < tags.len() && 0 <= k.1 < tags.len() by {
        lemma_counted_tags_are_known(posts, k.0, k.1);
    }
}

/// Whatever the scores, the association matrix of a co-occurrence matrix
/// stores only positive values and no cell of the diagonal.
pub proof fn lemma_kept_positive_off_diagonal(
    posts: Seq<Seq<u32>>,
    co_count_matrix: &CSR,
    scores: Seq<i64>,
    k: Cell,
)
    requires
        co_count_matrix.wf(),
        co_count_matrix@ == co_counts(posts),
        kept(co_count_matrix.entries(), scores).contains_key(k),
    ensures
        kept(co_count_matrix.entries(), scores)[k] > 0,
        k.0 != k.1,
{
    let entries = co_count_matrix.entries();
    co_count_matrix.lemma_entries();
    let j = choose|j: int| scored(entries, scores, j, k);
    assert(names(entries, j, k));
    assert(cells_of(entries).contains_key(k));
    lemma_co_count_diagonal(posts, k.0);
}

/// What the association transform gives: an error where the dictionary
/// lacks a tag of a stored cell, else the matrix of the positive scores
/// that `score` gave.
pub open spec fn transformed<F: Fn(u32, u32, i64, usize) -> i64>(
    score: F,
    n_posts: usize,
    tags: Seq<(Seq<char>, u32)>,
    co_count_matrix: &CSR,
    res: Result<CSR, NpmiError>,
) -> bool {
    if covered(co_count_matrix@, tags.len() as int) {
        &&& res matches Ok(m)
        &&& m.wf()
        &&& m.in_shape()
        &&& m.n_rows == tags.len()
        &&& m.n_cols == tags.len()
        &&& exists|scores: Seq<i64>|
            scores.len() == co_count_matrix.n_nz && #[trigger] rated(
                score,
                n_posts,
                tags,
                co_count_matrix.entries(),
                scores,
                scores.len() as int,
            ) && m@ == kept(co_count_matrix.entries(), scores)
        &&& forall|k: Cell| #[trigger]
            m@.contains_key(k) ==> m@[k] > 0 && co_count_matrix@.contains_key(k)
    } else {
        res == Err::<CSR, NpmiError>(NpmiError::MissingTagStatistic)
    }
}

/// The association matrix of a co-occurrence matrix.
///
/// For every stored cell `(x, y)`, `score` is given the number of posts
/// with tag `x`, the number with tag `y`, the number with both, and the
/// number of all posts. The cells whose score is positive are kept, with
/// the score as value.
pub fn get_npmi_matrix<F: Fn(u32, u32, i64, usize) -> i64>(
    n_posts: usize,
    tags: &Tags,
    co_count_matrix: &CSR,
    score: F,
) -> (res: Result<CSR, NpmiError>)
    requires
        co_count_matrix.wf(),
        rateable(score, n_posts, tags@, co_count_matrix.entries()),
    ensures
        transformed(score, n_posts, tags@, co_count_matrix, res),
{
    let n_tags = tags.len();
    let ghost entries = co_count_matrix.entries();
    proof {
        co_count_matrix.lemma_entries();
    }
    let mut scores: Vec<i64> = Vec::new();
    let mut it = co_count_matrix.iter();
    loop
        invariant
            co_count_matrix.wf(),
            n_tags == tags@.len(),
            entries == co_count_matrix.entries(),
            entries.len() == co_count_matrix.n_nz,
            distinct_cells(entries),
            cells_of(entries) == co_count_matrix@,
            rateable(score, n_posts, tags@, entries),
            it.wf(),
            it.matrix() == co_count_matrix,
            it.position() == scores@.len(),
            0 <= scores@.len() <= entries.len(),
            rated(score, n_posts, tags@, entries, scores@, scores@.len() as int),
            forall|j: int|
                0 <= j < scores@.len() ==> (#[trigger] entries[j]).0 < n_tags && entries[j].1
                    < n_tags,
        ensures
            scores@.len() == entries.len(),
        decreases entries.len() - scores@.len(),
    {
        match it.next() {
            Some((row, col, count_xy)) => {
                let ghost j = scores@.len() as int;
                proof {
                    lemma_cell_named(entries, j);
                }
                let count_x = match tags.get_count_idx(row) {
                    Some(n) => n,
                    None => {
                        return Err(NpmiError::MissingTagStatistic);
                    },
                };
                let count_y = match tags.get_count_idx(col) {
                    Some(n) => n,
                    None => {
                        return Err(NpmiError::MissingTagStatistic);
                    },
                };
                let ghost before = scores@;
                let npmi_xy = score(count_x, count_y, count_xy, n_posts);
                scores.push(npmi_xy);
                proof {
                    assert forall|i: int| 0 <= i < j + 1 implies call_ensures(
                        score,
                        (
                            tags@[entries[i].0 as int].1,
                            tags@[entries[i].1 as int].1,
                            entries[i].2,
                            n_posts,
                        ),
                        #[trigger] scores@[i],
                    ) by {
                        if i < j {
                            assert(scores@[i] == before[i]);
                        }
                    }
                }
            },
            None => {
                break ;
            },
        }
    }
    proof {
        assert forall|k: Cell| #[trigger] co_count_matrix@.contains_key(k) implies 0 <= k.0
            < n_tags && 0 <= k.1 < n_tags by {
            let j = choose|j: int| names(entries, j, k);
            assert(entries[j].0 < n_tags);
        }
    }
    Ok(keep_positive(co_count_matrix, &scores, n_tags))
}

} // verus!
