//! The tags most related to a set of seed tags.

use crate::csr_matrix::read;
use crate::csr_matrix::row_ascending;
use crate::csr_matrix::Cell;
use crate::csr_matrix::CSR;
use crate::sorting::arranges;
use crate::sorting::ordered_stably;
use crate::sorting::second_key;
use crate::sorting::sorted_by_second;
use crate::sorting::stable_sort_of;
use vstd::prelude::*;

verus! {

/// The tag `c` is one of the seeds.
pub open spec fn is_seed(seeds: Seq<u32>, c: int) -> bool {
    exists|i: int| 0 <= i < seeds.len() && #[trigger] seeds[i] == c
}

/// The sum of column `c` over the seed rows. A seed that is listed twice
/// counts twice.
pub open spec fn seed_sum(cells: Map<Cell, int>, seeds: Seq<u32>, c: int) -> int
    decreases seeds.len(),
{
    if seeds.len() == 0 {
        0
    } else {
        seed_sum(cells, seeds.drop_last(), c) + read(cells, (seeds.last() as int, c))
    }
}

/// In how many seed rows column `c` is stored.
pub open spec fn seed_hits(cells: Map<Cell, int>, seeds: Seq<u32>, c: int) -> nat
    decreases seeds.len(),
{
    if seeds.len() == 0 {
        0
    } else {
        seed_hits(cells, seeds.drop_last(), c) + if cells.contains_key((seeds.last() as int, c)) {
            1nat
        } else {
            0nat
        }
    }
}

/// The score of tag `c`: the mean of its stored values in the seed rows,
/// rounded down; zero where the sum of those values is not positive.
pub open spec fn mean_score(cells: Map<Cell, int>, seeds: Seq<u32>, c: int) -> int {
    if seed_hits(cells, seeds, c) > 0 && seed_sum(cells, seeds, c) > 0 {
        seed_sum(cells, seeds, c) / (seed_hits(cells, seeds, c) as int)
    } else {
        0
    }
}

/// The tag `c` is no seed and its score is positive.
pub open spec fn is_candidate(cells: Map<Cell, int>, seeds: Seq<u32>, c: int) -> bool {
    !is_seed(seeds, c) && mean_score(cells, seeds, c) > 0
}

/// `x` stands before `y` in a ranking of `(tag, score)` pairs: it has the
/// higher score or, at equal score, the higher tag.
pub open spec fn outranks(x: (int, int), y: (int, int)) -> bool {
    x.1 > y.1 || (x.1 == y.1 && x.0 > y.0)
}

/// `ranked` lists the `n` candidates of highest rank, or all of them if
/// there are fewer, each with its score, from the highest rank down.
pub open spec fn ranking(
    cells: Map<Cell, int>,
    seeds: Seq<u32>,
    n: int,
    ranked: Seq<(u32, i64)>,
) -> bool {
    &&& ranked.len() <= n
    &&& forall|i: int|
        0 <= i < ranked.len() ==> is_candidate(cells, seeds, (#[trigger] ranked[i]).0 as int)
            && ranked[i].1 == mean_score(cells, seeds, ranked[i].0 as int)
    &&& forall|i: int, j: int|
        0 <= i < j < ranked.len() ==> outranks(
            ((#[trigger] ranked[i]).0 as int, ranked[i].1 as int),
            ((#[trigger] ranked[j]).0 as int, ranked[j].1 as int),
        )
    &&& forall|c: int| #[trigger]
        is_candidate(cells, seeds, c) ==> listed_or_below(cells, seeds, n, ranked, c)
}

/// The candidate `c` is listed, or the list is full and all of it outranks `c`.
pub open spec fn listed_or_below(
    cells: Map<Cell, int>,
    seeds: Seq<u32>,
    n: int,
    ranked: Seq<(u32, i64)>,
    c: int,
) -> bool {
    ||| exists|i: int| 0 <= i < ranked.len() && (#[trigger] ranked[i]).0 == c
    ||| ranked.len() == n && forall|i: int|
        0 <= i < ranked.len() ==> outranks(
            ((#[trigger] ranked[i]).0 as int, ranked[i].1 as int),
            (c, mean_score(cells, seeds, c)),
        )
}

/// With a single seed, a tag's score is its stored value in the seed's
/// row where that is positive, and zero elsewhere.
pub proof fn lemma_single_seed(cells: Map<Cell, int>, seed: u32, c: int)
    ensures
        mean_score(cells, seq![seed], c) == if read(cells, (seed as int, c)) > 0 {
            read(cells, (seed as int, c))
        } else {
            0
        },
{
    let seeds = seq![seed];
    assert(seeds.drop_last() =~= Seq::<u32>::empty());
    assert(seeds.last() == seed);
    assert(seed_sum(cells, seeds.drop_last(), c) == 0);
    assert(seed_hits(cells, seeds.drop_last(), c) == 0);
    assert(seed_sum(cells, seeds, c) == read(cells, (seed as int, c)));
    assert(seed_hits(cells, seeds, c) == if cells.contains_key((seed as int, c)) {
        1nat
    } else {
        0nat
    });
    assert(seed_sum(cells, seeds, c) / 1 == seed_sum(cells, seeds, c));
}

/// Two rankings of the same candidates agree in their first `k` places.
proof fn lemma_rankings_agree(
    cells: Map<Cell, int>,
    seeds: Seq<u32>,
    n: int,
    x: Seq<(u32, i64)>,
    y: Seq<(u32, i64)>,
    k: int,
)
    requires
        ranking(cells, seeds, n, x),
        ranking(cells, seeds, n, y),
        0 <= k <= x.len(),
        k <= y.len(),
    ensures
        forall|i: int| 0 <= i < k ==> x[i] == y[i],
    decreases k,
{
    if k > 0 {
        lemma_rankings_agree(cells, seeds, n, x, y, k - 1);
        let i = k - 1;
        if x[i] != y[i] {
            let xi = (x[i].0 as int, x[i].1 as int);
            let yi = (y[i].0 as int, y[i].1 as int);
            assert(x[i].0 != y[i].0);
            if outranks(xi, yi) {
                lemma_not_below(cells, seeds, n, x, y, i);
            } else {
                assert(outranks(yi, xi));
                lemma_not_below(cells, seeds, n, y, x, i);
            }
        }
    }
}

/// If two rankings agree before place `i`, the item of `x` at place `i`
/// does not outrank that of `y`.
proof fn lemma_not_below(
    cells: Map<Cell, int>,
    seeds: Seq<u32>,
    n: int,
    x: Seq<(u32, i64)>,
    y: Seq<(u32, i64)>,
    i: int,
)
    requires
        ranking(cells, seeds, n, x),
        ranking(cells, seeds, n, y),
        0 <= i < x.len(),
        i < y.len(),
        forall|j: int| 0 <= j < i ==> x[j] == y[j],
        x[i].0 != y[i].0,
    ensures
        !outranks((x[i].0 as int, x[i].1 as int), (y[i].0 as int, y[i].1 as int)),
{
    let c = x[i].0 as int;
    assert(is_candidate(cells, seeds, c));
    assert(listed_or_below(cells, seeds, n, y, c));
    if exists|j: int| 0 <= j < y.len() && (#[trigger] y[j]).0 == c {
        let j = choose|j: int| 0 <= j < y.len() && (#[trigger] y[j]).0 == c;
        assert(y[j].1 == x[i].1);
        if j < i {
            assert(x[j] == y[j]);
            assert(outranks((x[j].0 as int, x[j].1 as int), (x[i].0 as int, x[i].1 as int)));
        } else {
            assert(outranks((y[i].0 as int, y[i].1 as int), (y[j].0 as int, y[j].1 as int)));
        }
    } else {
        assert(outranks(
            (y[i].0 as int, y[i].1 as int),
            (c, mean_score(cells, seeds, c)),
        ));
    }
}

/// There is one ranking only: two lists that both rank the candidates of
/// the same seeds, up to the same length, are the same list.
pub proof fn lemma_ranking_unique(
    cells: Map<Cell, int>,
    seeds: Seq<u32>,
    n: int,
    x: Seq<(u32, i64)>,
    y: Seq<(u32, i64)>,
)
    requires
        ranking(cells, seeds, n, x),
        ranking(cells, seeds, n, y),
    ensures
        x == y,
{
    if x.len() <= y.len() {
        lemma_rankings_agree(cells, seeds, n, x, y, x.len() as int);
        lemma_not_longer(cells, seeds, n, x, y);
    } else {
        lemma_rankings_agree(cells, seeds, n, x, y, y.len() as int);
        lemma_not_longer(cells, seeds, n, y, x);
    }
    assert(x =~= y);
}

/// A ranking that begins like another one is no longer than it.
proof fn lemma_not_longer(
    cells: Map<Cell, int>,
    seeds: Seq<u32>,
    n: int,
    x: Seq<(u32, i64)>,
    y: Seq<(u32, i64)>,
)
    requires
        ranking(cells, seeds, n, x),
        ranking(cells, seeds, n, y),
        x.len() <= y.len(),
        forall|j: int| 0 <= j < x.len() ==> x[j] == y[j],
    ensures
        x.len() == y.len(),
{
    if x.len() < y.len() {
        let k = x.len() as int;
        let c = y[k].0 as int;
        assert(is_candidate(cells, seeds, c));
        assert(listed_or_below(cells, seeds, n, x, c));
        if exists|j: int| 0 <= j < x.len() && (#[trigger] x[j]).0 == c {
            let j = choose|j: int| 0 <= j < x.len() && (#[trigger] x[j]).0 == c;
            assert(x[j] == y[j]);
            assert(outranks((y[j].0 as int, y[j].1 as int), (y[k].0 as int, y[k].1 as int)));
        }
    }
}

/// The candidates of a query.
pub open spec fn candidates(cells: Map<Cell, int>, seeds: Seq<u32>) -> Set<int> {
    Set::new(|c: int| is_candidate(cells, seeds, c))
}

/// The tags of a ranking, in its order.
pub open spec fn ranked_tags(ranked: Seq<(u32, i64)>) -> Seq<int> {
    ranked.map_values(|e: (u32, i64)| e.0 as int)
}

/// What a ranking is, said without the order of rank. The scores never
/// ascend down the list. The list holds as many pairs as there are
/// candidates, or `n` if there are more. Where `n` reaches the number of
/// candidates, every candidate is listed.
pub proof fn lemma_ranking_length(m: &CSR, seeds: Seq<u32>, n: int, ranked: Seq<(u32, i64)>)
    requires
        m.wf(),
        m.in_shape(),
        ranking(m@, seeds, n, ranked),
    ensures
        forall|i: int, j: int|
            0 <= i < j < ranked.len() ==> (#[trigger] ranked[i]).1 >= (#[trigger] ranked[j]).1,
        forall|i: int, j: int|
            0 <= i < j < ranked.len() ==> (#[trigger] ranked[i]).0 != (#[trigger] ranked[j]).0,
        candidates(m@, seeds).finite(),
        candidates(m@, seeds).len() <= m.n_cols,
        ranked.len() == if n <= candidates(m@, seeds).len() {
            n
        } else {
            candidates(m@, seeds).len() as int
        },
        n >= candidates(m@, seeds).len() ==> forall|c: int| #[trigger]
            is_candidate(m@, seeds, c) ==> exists|i: int|
                0 <= i < ranked.len() && (#[trigger] ranked[i]).0 == c,
{
    let cells = m@;
    let cand = candidates(cells, seeds);
    let tags = ranked_tags(ranked);
    let range = vstd::set_lib::set_int_range(0, m.n_cols as int);
    assert forall|i: int, j: int| 0 <= i < j < ranked.len() implies (#[trigger] ranked[i]).1 >= (
    #[trigger] ranked[j]).1 && ranked[i].0 != ranked[j].0 by {
        assert(outranks(
            (ranked[i].0 as int, ranked[i].1 as int),
            (ranked[j].0 as int, ranked[j].1 as int),
        ));
    }
    assert forall|c: int| cand.contains(c) implies range.contains(c) by {
        lemma_hit_in_range(m, seeds, c);
    }
    vstd::set_lib::lemma_int_range(0, m.n_cols as int);
    vstd::set_lib::lemma_len_subset(cand, range);
    assert forall|i: int, j: int| 0 <= i < tags.len() && 0 <= j < tags.len() && i != j implies tags[i]
        != tags[j] by {
        if i < j {
            assert(ranked[i].0 != ranked[j].0);
        } else {
            assert(ranked[j].0 != ranked[i].0);
        }
    }
    assert(tags.no_duplicates());
    tags.unique_seq_to_set();
    assert forall|c: int| tags.to_set().contains(c) implies cand.contains(c) by {
        let i = choose|i: int| 0 <= i < tags.len() && tags[i] == c;
        assert(is_candidate(cells, seeds, ranked[i].0 as int));
    }
    vstd::set_lib::lemma_len_subset(tags.to_set(), cand);
    if ranked.len() < n || n >= cand.len() {
        if ranked.len() < n {
            assert forall|c: int| cand.contains(c) implies tags.to_set().contains(c) by {
                assert(listed_or_below(cells, seeds, n, ranked, c));
                let i = choose|i: int| 0 <= i < ranked.len() && (#[trigger] ranked[i]).0 == c;
                assert(tags[i] == c);
            }
            assert(tags.to_set() =~= cand);
        } else {
            vstd::set_lib::lemma_subset_equality(tags.to_set(), cand);
        }
        assert forall|c: int| #[trigger] is_candidate(cells, seeds, c) implies exists|i: int|
            0 <= i < ranked.len() && (#[trigger] ranked[i]).0 == c by {
            assert(cand.contains(c));
            assert(tags.to_set().contains(c));
            let i = choose|i: int| 0 <= i < tags.len() && tags[i] == c;
            assert(ranked[i].0 == c);
        }
    }
}

/// With a single seed and room for every column, the ranking is the
/// seed's own row: it lists exactly the columns, other than the seed, that
/// the row stores with a positive value, each with that value.
pub proof fn lemma_single_seed_row(m: &CSR, seed: u32, n: int, ranked: Seq<(u32, i64)>)
    requires
        m.wf(),
        m.in_shape(),
        ranking(m@, seq![seed], n, ranked),
        n >= m.n_cols,
    ensures
        forall|i: int|
            0 <= i < ranked.len() ==> (#[trigger] ranked[i]).0 != seed && m@.contains_key(
                (seed as int, ranked[i].0 as int),
            ) && ranked[i].1 == m@[(seed as int, ranked[i].0 as int)] && ranked[i].1 > 0,
        forall|c: int|
            c != seed && #[trigger] m@.contains_key((seed as int, c)) && m@[(seed as int, c)] > 0
                ==> exists|i: int| 0 <= i < ranked.len() && (#[trigger] ranked[i]).0 == c,
{
    let seeds = seq![seed];
    lemma_ranking_length(m, seeds, n, ranked);
    assert(seeds[0] == seed);
    assert forall|i: int| 0 <= i < ranked.len() implies (#[trigger] ranked[i]).0 != seed
        && m@.contains_key((seed as int, ranked[i].0 as int)) && ranked[i].1 == m@[(
        seed as int,
        ranked[i].0 as int,
    )] && ranked[i].1 > 0 by {
        let c = ranked[i].0 as int;
        assert(is_candidate(m@, seeds, c));
        lemma_single_seed(m@, seed, c);
        if c == seed {
            assert(is_seed(seeds, c));
        }
    }
    assert forall|c: int|
        c != seed && #[trigger] m@.contains_key((seed as int, c)) && m@[(seed as int, c)]
            > 0 implies exists|i: int| 0 <= i < ranked.len() && (#[trigger] ranked[i]).0 == c by {
        lemma_single_seed(m@, seed, c);
        assert(!is_seed(seeds, c));
        assert(is_candidate(m@, seeds, c));
    }
}

/// The sum of a column over the seed rows lies within what that many
/// cells can hold.
pub proof fn lemma_tally_bounds(m: &CSR, seeds: Seq<u32>, c: int)
    requires
        m.wf(),
    ensures
        seed_hits(m@, seeds, c) <= seeds.len(),
        seed_hits(m@, seeds, c) * i64::MIN <= seed_sum(m@, seeds, c) <= seed_hits(m@, seeds, c)
            * i64::MAX,
    decreases seeds.len(),
{
    if seeds.len() > 0 {
        lemma_tally_bounds(m, seeds.drop_last(), c);
        m.lemma_read_fits((seeds.last() as int, c));
    }
}

/// Whether `tag` is one of the seeds.
fn contains_tag(tag_idxs: &Vec<u32>, tag: u32) -> (found: bool)
    ensures
        found == is_seed(tag_idxs@, tag as int),
{
    let mut i: usize = 0;
    while i < tag_idxs.len()
        invariant
            0 <= i <= tag_idxs@.len(),
            forall|j: int| 0 <= j < i ==> tag_idxs@[j] != tag,
        decreases tag_idxs@.len() - i,
    {
        if tag_idxs[i] == tag {
            return true;
        }
        i += 1;
    }
    false
}

/// Row `r` stores column `c` in a slot below `upto`.
spec fn seen_before(m: &CSR, r: int, upto: int, c: int) -> bool {
    exists|j: int| m.row_ptr@[r] <= j < upto && #[trigger] m.col_idx@[j] == c
}

/// `sum` and `hits` are what column `c` has gathered from the first `s`
/// seed rows and from the slots below `upto` of the next one. The column
/// of a seed gathers nothing.
spec fn tally_ok(
    m: &CSR,
    seeds: Seq<u32>,
    s: int,
    upto: int,
    c: int,
    sum: int,
    hits: int,
) -> bool {
    if is_seed(seeds, c) {
        sum == 0 && hits == 0
    } else if s < seeds.len() && seen_before(m, seeds[s] as int, upto, c) {
        sum == seed_sum(m@, seeds.take(s), c) + m@[(seeds[s] as int, c)] && hits == seed_hits(
            m@,
            seeds.take(s),
            c,
        ) + 1
    } else {
        sum == seed_sum(m@, seeds.take(s), c) && hits == seed_hits(m@, seeds.take(s), c)
    }
}

/// Every column has gathered what `tally_ok` says.
spec fn tallies_ok(
    m: &CSR,
    seeds: Seq<u32>,
    s: int,
    upto: int,
    scores: Seq<i128>,
    counts: Seq<usize>,
) -> bool {
    &&& scores.len() == m.n_cols
    &&& counts.len() == m.n_cols
    &&& forall|c: int|
        0 <= c < m.n_cols ==> #[trigger] tally_ok(
            m,
            seeds,
            s,
            upto,
            c,
            scores[c] as int,
            counts[c] as int,
        )
}

/// A row that was walked to its end has been gathered whole.
proof fn lemma_row_done(m: &CSR, seeds: Seq<u32>, s: int, c: int, sum: int, hits: int)
    requires
        m.wf(),
        0 <= s < seeds.len(),
        seeds[s] < m.n_rows,
        tally_ok(m, seeds, s, m.row_ptr@[seeds[s] as int + 1] as int, c, sum, hits),
    ensures
        tally_ok(m, seeds, s + 1, 0, c, sum, hits),
{
    let r = seeds[s] as int;
    assert(seeds.take(s + 1).drop_last() =~= seeds.take(s));
    assert(seeds.take(s + 1).last() == seeds[s]);
    if m@.contains_key((r, c)) {
        let j = m.slot(r, c);
        assert(m.holds_at(r, c, j));
        assert(seen_before(m, r, m.row_ptr@[r + 1] as int, c));
    }
    if seen_before(m, r, m.row_ptr@[r + 1] as int, c) {
        let j = choose|j: int|
            m.row_ptr@[r] <= j < m.row_ptr@[r + 1] && #[trigger] m.col_idx@[j] == c;
        assert(m.holds_at(r, c, j));
    }
    if s + 1 < seeds.len() {
        assert(!seen_before(m, seeds[s + 1] as int, 0, c));
    }
}

/// Gathers, for every column that is no seed, the sum of its stored values
/// in the seed rows and the number of seed rows that store it.
fn tally_seed_rows(npmi_matrix: &CSR, tag_idxs: &Vec<u32>) -> (acc: (Vec<i128>, Vec<usize>))
    requires
        npmi_matrix.wf(),
        npmi_matrix.in_shape(),
        npmi_matrix.n_cols <= 0x1_0000_0000,
        forall|i: int| 0 <= i < tag_idxs@.len() ==> #[trigger] tag_idxs@[i] < npmi_matrix.n_rows,
    ensures
        tallies_ok(npmi_matrix, tag_idxs@, tag_idxs@.len() as int, 0, acc.0@, acc.1@),
{
    let mut scores: Vec<i128> = vec![0; npmi_matrix.n_cols];
    let mut counts: Vec<usize> = vec![0; npmi_matrix.n_cols];
    let ghost seeds = tag_idxs@;
    let n_seeds = tag_idxs.len();
    let mut s: usize = 0;
    proof {
        assert(seeds.take(0).len() == 0);
        assert forall|c: int| 0 <= c < npmi_matrix.n_cols implies #[trigger] tally_ok(
            npmi_matrix,
            seeds,
            0,
            0,
            c,
            scores@[c] as int,
            counts@[c] as int,
        ) by {
            if 0 < seeds.len() {
                assert(!seen_before(npmi_matrix, seeds[0] as int, 0, c));
            }
        }
    }
    while s < n_seeds
        invariant
            npmi_matrix.wf(),
            npmi_matrix.in_shape(),
            npmi_matrix.n_cols <= 0x1_0000_0000,
            seeds == tag_idxs@,
            n_seeds == seeds.len(),
            forall|i: int| 0 <= i < seeds.len() ==> #[trigger] seeds[i] < npmi_matrix.n_rows,
            0 <= s <= seeds.len(),
            tallies_ok(npmi_matrix, seeds, s as int, 0, scores@, counts@),
        decreases seeds.len() - s,
    {
        let tag_idx = tag_idxs[s];
        let ghost r = tag_idx as int;
        let mut it = npmi_matrix.inter_row(tag_idx as usize);
        proof {
            assert forall|c: int| 0 <= c < npmi_matrix.n_cols implies #[trigger] tally_ok(
                npmi_matrix,
                seeds,
                s as int,
                it.slot(),
                c,
                scores@[c] as int,
                counts@[c] as int,
            ) by {
                assert(tally_ok(npmi_matrix, seeds, s as int, 0, c, scores@[c] as int, counts@[c] as int));
                assert(!seen_before(npmi_matrix, r, 0, c));
                assert(!seen_before(npmi_matrix, r, it.slot(), c));
            }
        }
        loop
            invariant
                npmi_matrix.wf(),
                npmi_matrix.in_shape(),
                npmi_matrix.n_cols <= 0x1_0000_0000,
                seeds == tag_idxs@,
                forall|i: int| 0 <= i < seeds.len() ==> #[trigger] seeds[i] < npmi_matrix.n_rows,
                0 <= s < seeds.len(),
                n_seeds == seeds.len(),
                r == seeds[s as int],
                it.wf(),
                it.matrix() == npmi_matrix,
                it.end() == npmi_matrix.row_ptr@[r + 1],
                npmi_matrix.row_ptr@[r] <= it.slot() <= it.end(),
                tallies_ok(npmi_matrix, seeds, s as int, it.slot(), scores@, counts@),
            ensures
                it.slot() == it.end(),
            decreases it.end() - it.slot(),
        {
            let ghost slot = it.slot();
            match it.next() {
                Some((rel_tag_idx, rel_score)) => {
                    let is_a_seed = contains_tag(tag_idxs, rel_tag_idx as u32);
                    let ghost old_scores = scores@;
                    let ghost old_counts = counts@;
                    proof {
                        let c = rel_tag_idx as int;
                        npmi_matrix.lemma_slot(r, c, slot);
                        assert(row_ascending(npmi_matrix.row_ptr@, npmi_matrix.col_idx@, r));
                        assert(!seen_before(npmi_matrix, r, slot, c));
                        assert(tally_ok(
                            npmi_matrix,
                            seeds,
                            s as int,
                            slot,
                            c,
                            scores@[c] as int,
                            counts@[c] as int,
                        ));
                        lemma_tally_bounds(npmi_matrix, seeds.take(s as int), c);
                        assert(npmi_matrix.col_idx@[slot] < npmi_matrix.n_cols);
                        assert(rel_tag_idx as u32 == rel_tag_idx);
                        assert(seeds.take(s as int).len() == s);
                    }
                    if !is_a_seed {
                        counts[rel_tag_idx] += 1;
                        scores[rel_tag_idx] += rel_score as i128;
                    }
                    proof {
                        assert forall|c: int| 0 <= c < npmi_matrix.n_cols implies #[trigger] tally_ok(
                            npmi_matrix,
                            seeds,
                            s as int,
                            slot + 1,
                            c,
                            scores@[c] as int,
                            counts@[c] as int,
                        ) by {
                            assert(tally_ok(
                                npmi_matrix,
                                seeds,
                                s as int,
                                slot,
                                c,
                                old_scores[c] as int,
                                old_counts[c] as int,
                            ));
                            if c == rel_tag_idx {
                                assert(npmi_matrix.col_idx@[slot] == c);
                                assert(seen_before(npmi_matrix, r, slot + 1, c));
                            } else {
                                if seen_before(npmi_matrix, r, slot + 1, c) {
                                    let j = choose|j: int|
                                        npmi_matrix.row_ptr@[r] <= j < slot + 1
                                            && #[trigger] npmi_matrix.col_idx@[j] == c;
                                    assert(j < slot);
                                    assert(seen_before(npmi_matrix, r, slot, c));
                                }
                                if seen_before(npmi_matrix, r, slot, c) {
                                    let j = choose|j: int|
                                        npmi_matrix.row_ptr@[r] <= j < slot
                                            && #[trigger] npmi_matrix.col_idx@[j] == c;
                                    assert(seen_before(npmi_matrix, r, slot + 1, c));
                                }
                            }
                        }
                    }
                },
                None => {
                    break ;
                },
            }
        }
        proof {
            assert forall|c: int| 0 <= c < npmi_matrix.n_cols implies #[trigger] tally_ok(
                npmi_matrix,
                seeds,
                s + 1,
                0,
                c,
                scores@[c] as int,
                counts@[c] as int,
            ) by {
                assert(tally_ok(
                    npmi_matrix,
                    seeds,
                    s as int,
                    it.slot(),
                    c,
                    scores@[c] as int,
                    counts@[c] as int,
                ));
                lemma_row_done(npmi_matrix, seeds, s as int, c, scores@[c] as int, counts@[c] as int);
            }
        }
        s += 1;
    }
    (scores, counts)
}

/// The list holds the tag `c`.
spec fn holds_tag(items: Seq<(usize, i64)>, c: int) -> bool {
    exists|t: int| 0 <= t < items.len() && (#[trigger] items[t]).0 == c
}

/// Every item is a candidate with its score.
spec fn all_candidates(
    cells: Map<Cell, int>,
    seeds: Seq<u32>,
    n_cols: int,
    items: Seq<(usize, i64)>,
) -> bool {
    forall|t: int|
        0 <= t < items.len() ==> (#[trigger] items[t]).0 < n_cols && is_candidate(
            cells,
            seeds,
            items[t].0 as int,
        ) && items[t].1 == mean_score(cells, seeds, items[t].0 as int)
}

/// The list holds the candidates below `upto`, each with its score, in
/// ascending order of the tags.
spec fn means_listed(
    cells: Map<Cell, int>,
    seeds: Seq<u32>,
    upto: int,
    items: Seq<(usize, i64)>,
) -> bool {
    &&& all_candidates(cells, seeds, upto, items)
    &&& forall|t: int, u: int|
        0 <= t < u < items.len() ==> (#[trigger] items[t]).0 < (#[trigger] items[u]).0
    &&& forall|c: int|
        0 <= c < upto && #[trigger] is_candidate(cells, seeds, c) ==> holds_tag(items, c)
}

/// A column that some seed row stores lies inside the matrix.
pub proof fn lemma_hit_in_range(m: &CSR, seeds: Seq<u32>, c: int)
    requires
        m.wf(),
        m.in_shape(),
        seed_hits(m@, seeds, c) > 0,
    ensures
        0 <= c < m.n_cols,
    decreases seeds.len(),
{
    if seeds.len() > 0 {
        if m@.contains_key((seeds.last() as int, c)) {
            m.lemma_read_fits((seeds.last() as int, c));
        } else {
            lemma_hit_in_range(m, seeds.drop_last(), c);
        }
    }
}

/// The candidates with their scores, in ascending order of the tags.
fn positive_means(
    npmi_matrix: &CSR,
    Ghost(seeds): Ghost<Seq<u32>>,
    scores: &Vec<i128>,
    counts: &Vec<usize>,
) -> (items: Vec<(usize, i64)>)
    requires
        npmi_matrix.wf(),
        tallies_ok(npmi_matrix, seeds, seeds.len() as int, 0, scores@, counts@),
    ensures
        means_listed(npmi_matrix@, seeds, npmi_matrix.n_cols as int, items@),
{
    let ghost cells = npmi_matrix@;
    let mut items: Vec<(usize, i64)> = Vec::new();
    let mut i: usize = 0;
    assert(seeds.take(seeds.len() as int) =~= seeds);
    while i < npmi_matrix.n_cols
        invariant
            npmi_matrix.wf(),
            cells == npmi_matrix@,
            seeds.take(seeds.len() as int) == seeds,
            tallies_ok(npmi_matrix, seeds, seeds.len() as int, 0, scores@, counts@),
            0 <= i <= npmi_matrix.n_cols,
            means_listed(cells, seeds, i as int, items@),
        decreases npmi_matrix.n_cols - i,
    {
        let ghost before = items@;
        let ghost c = i as int;
        proof {
            assert(tally_ok(
                npmi_matrix,
                seeds,
                seeds.len() as int,
                0,
                c,
                scores@[c] as int,
                counts@[c] as int,
            ));
            lemma_tally_bounds(npmi_matrix, seeds, c);
        }
        let mut taken = false;
        if counts[i] != 0 && scores[i] > 0 {
            let hits = counts[i] as i128;
            let total = scores[i];
            assert(total / hits <= i64::MAX) by (nonlinear_arith)
                requires
                    0 < hits,
                    0 < total <= hits * i64::MAX,
            ;
            assert(0 <= total / hits) by (nonlinear_arith)
                requires
                    0 < hits,
                    0 < total,
            ;
            let mean = total / hits;
            if mean > 0 {
                items.push((i, mean as i64));
                taken = true;
            }
        }
        proof {
            let after = items@;
            assert(taken == is_candidate(cells, seeds, c));
            assert forall|t: int| 0 <= t < after.len() implies (#[trigger] after[t]).0 < i + 1
                && is_candidate(cells, seeds, after[t].0 as int) && after[t].1 == mean_score(
                cells,
                seeds,
                after[t].0 as int,
            ) by {
                if t < before.len() {
                    assert(after[t] == before[t]);
                }
            }
            assert forall|t: int, u: int| 0 <= t < u < after.len() implies (#[trigger] after[t]).0
                < (#[trigger] after[u]).0 by {
                assert(after[t] == before[t]);
                if u < before.len() {
                    assert(after[u] == before[u]);
                }
            }
            assert forall|x: int| 0 <= x < i + 1 && #[trigger] is_candidate(
                cells,
                seeds,
                x,
            ) implies holds_tag(after, x) by {
                if x < i {
                    assert(holds_tag(before, x));
                    let t = choose|t: int| 0 <= t < before.len() && (#[trigger] before[t]).0 == x;
                    assert(after[t] == before[t]);
                } else {
                    assert(after[before.len() as int].0 == x);
                }
            }
        }
        i += 1;
    }
    items
}

/// The candidates in ascending rank: every item is outranked by the
/// items after it.
spec fn ranks_ascend(items: Seq<(usize, i64)>) -> bool {
    forall|i: int, j: int|
        0 <= i < j < items.len() ==> outranks(
            ((#[trigger] items[j]).0 as int, items[j].1 as int),
            ((#[trigger] items[i]).0 as int, items[i].1 as int),
        )
}

/// Sorting the candidates by score, stably, from their ascending tag
/// order brings them into ascending rank and loses none.
proof fn lemma_sorted_ranks(
    cells: Map<Cell, int>,
    seeds: Seq<u32>,
    n_cols: int,
    means: Seq<(usize, i64)>,
    sorted: Seq<(usize, i64)>,
)
    requires
        means_listed(cells, seeds, n_cols, means),
        stable_sort_of(means, sorted, |e: (usize, i64)| second_key(e)),
    ensures
        all_candidates(cells, seeds, n_cols, sorted),
        ranks_ascend(sorted),
        forall|c: int|
            0 <= c < n_cols && #[trigger] is_candidate(cells, seeds, c) ==> holds_tag(sorted, c),
{
    let key = |e: (usize, i64)| second_key(e);
    let p = choose|p: Seq<int>| #[trigger] arranges(means, sorted, p) && ordered_stably(sorted, p, key);
    assert forall|t: int| 0 <= t < sorted.len() implies (#[trigger] sorted[t]).0 < n_cols
        && is_candidate(cells, seeds, sorted[t].0 as int) && sorted[t].1 == mean_score(
        cells,
        seeds,
        sorted[t].0 as int,
    ) by {
        assert(sorted[t] == means[p[t]]);
    }
    assert forall|i: int, j: int| 0 <= i < j < sorted.len() implies outranks(
        ((#[trigger] sorted[j]).0 as int, sorted[j].1 as int),
        ((#[trigger] sorted[i]).0 as int, sorted[i].1 as int),
    ) by {
        assert(sorted[i] == means[p[i]]);
        assert(sorted[j] == means[p[j]]);
        assert(key(sorted[i]) <= key(sorted[j]));
        if sorted[i].1 == sorted[j].1 {
            assert(key(sorted[i]) == key(sorted[j]));
            assert(p[i] < p[j]);
            assert(means[p[i]].0 < means[p[j]].0);
        }
    }
    assert forall|c: int| 0 <= c < n_cols && #[trigger] is_candidate(
        cells,
        seeds,
        c,
    ) implies holds_tag(sorted, c) by {
        assert(holds_tag(means, c));
        let t = choose|t: int| 0 <= t < means.len() && (#[trigger] means[t]).0 == c;
        let e = means[t];
        assert(means.contains(e));
        means.to_multiset_ensures();
        sorted.to_multiset_ensures();
        assert(sorted.to_multiset().count(e) > 0);
        assert(sorted.contains(e));
        let q = choose|q: int| 0 <= q < sorted.len() && sorted[q] == e;
        assert(sorted[q].0 == c);
    }
}

/// The `n_tags` tags most related to the seed tags `tag_idxs`, each with
/// its score, from the highest score down.
///
/// A tag's score is the mean, rounded down, of its stored values in the
/// rows of the seeds. Seeds are left out, and so are tags whose score is
/// not positive. Of two tags with the same score the one with the higher
/// identifier comes first.
pub fn get_most_related_tags(n_tags: usize, npmi_matrix: &CSR, tag_idxs: Vec<u32>) -> (related: Vec<
    (u32, i64),
>)
    requires
        npmi_matrix.wf(),
        npmi_matrix.in_shape(),
        npmi_matrix.n_cols <= 0x1_0000_0000,
        forall|i: int| 0 <= i < tag_idxs@.len() ==> #[trigger] tag_idxs@[i] < npmi_matrix.n_rows,
    ensures
        ranking(npmi_matrix@, tag_idxs@, n_tags as int, related@),
{
    let ghost cells = npmi_matrix@;
    let ghost seeds = tag_idxs@;
    let ghost n_cols = npmi_matrix.n_cols as int;
    let (scores, counts) = tally_seed_rows(npmi_matrix, &tag_idxs);
    let means = positive_means(npmi_matrix, Ghost(seeds), &scores, &counts);
    let ghost unsorted = means@;
    let sorted = sorted_by_second(means);
    proof {
        lemma_sorted_ranks(cells, seeds, n_cols, unsorted, sorted@);
    }
    let len = sorted.len();
    let mut related: Vec<(u32, i64)> = Vec::new();
    let mut k: usize = 0;
    while k < n_tags && k < len
        invariant
            n_cols <= 0x1_0000_0000,
            len == sorted@.len(),
            all_candidates(cells, seeds, n_cols, sorted@),
            0 <= k <= len,
            k <= n_tags,
            related@.len() == k,
            forall|i: int|
                0 <= i < k ==> (#[trigger] related@[i]).0 == sorted@[len - 1 - i].0
                    && related@[i].1 == sorted@[len - 1 - i].1,
        decreases len - k,
    {
        let (i, s) = sorted[len - 1 - k];
        related.push((i as u32, s));
        k += 1;
    }
    proof {
        let ranked = related@;
        assert forall|i: int| 0 <= i < ranked.len() implies is_candidate(
            cells,
            seeds,
            (#[trigger] ranked[i]).0 as int,
        ) && ranked[i].1 == mean_score(cells, seeds, ranked[i].0 as int) by {
            assert(sorted@[len - 1 - i].0 < n_cols);
        }
        assert forall|i: int, j: int| 0 <= i < j < ranked.len() implies outranks(
            ((#[trigger] ranked[i]).0 as int, ranked[i].1 as int),
            ((#[trigger] ranked[j]).0 as int, ranked[j].1 as int),
        ) by {
            assert(sorted@[len - 1 - i].0 < n_cols);
            assert(sorted@[len - 1 - j].0 < n_cols);
        }
        assert forall|c: int| #[trigger] is_candidate(cells, seeds, c) implies listed_or_below(
            cells,
            seeds,
            n_tags as int,
            ranked,
            c,
        ) by {
            lemma_hit_in_range(npmi_matrix, seeds, c);
            assert(holds_tag(sorted@, c));
            let q = choose|q: int| 0 <= q < sorted@.len() && (#[trigger] sorted@[q]).0 == c;
            if q >= len - k {
                assert(ranked[len - 1 - q].0 == c);
            } else {
                assert forall|i: int| 0 <= i < ranked.len() implies outranks(
                    ((#[trigger] ranked[i]).0 as int, ranked[i].1 as int),
                    (c, mean_score(cells, seeds, c)),
                ) by {
                    assert(sorted@[len - 1 - i].0 < n_cols);
                    assert(outranks(
                        (sorted@[len - 1 - i].0 as int, sorted@[len - 1 - i].1 as int),
                        (sorted@[q].0 as int, sorted@[q].1 as int),
                    ));
                }
            }
        }
    }
    related
}

} // verus!
