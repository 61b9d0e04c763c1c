//! Mathematical model of the rank matrix and of one elimination round.
//!
//! The flat vote sequence is read as a row-major table: `V` rows (voters),
//! `c` columns (candidates); cell `(r, col)` sits at index `r * c + col`.
//! A round tallies first-place (rank `0`) votes per column, picks the
//! leftmost column with the maximum tally, closes the rank gaps that its
//! removal leaves in every row, and removes the column.

use vstd::prelude::*;

verus! {

/// True when `votes` is a valid flat rank matrix for `labels`: the vote
/// count is an exact multiple of the candidate count and every rank value
/// is below the candidate count. An empty candidate set admits only an
/// empty matrix.
pub open spec fn valid_input<T>(labels: Seq<T>, votes: Seq<usize>) -> bool {
    &&& (labels.len() == 0 ==> votes.len() == 0)
    &&& (labels.len() > 0 ==> (votes.len() as int) % (labels.len() as int) == 0)
    &&& forall|i: int| 0 <= i < votes.len() ==> (#[trigger] votes[i]) < labels.len()
}

/// Number of voters: rows of the flat table at width `c`.
pub open spec fn num_rows(votes: Seq<usize>, c: int) -> int {
    (votes.len() as int) / c
}

/// The rank that voter `r` gives candidate `col`.
pub open spec fn cell(votes: Seq<usize>, c: int, r: int, col: int) -> usize {
    votes[r * c + col]
}

/// First-place votes for `col` among the first `rows` voters.
pub open spec fn tally_upto(votes: Seq<usize>, c: int, col: int, rows: int) -> int
    decreases rows,
{
    if rows <= 0 {
        0
    } else {
        tally_upto(votes, c, col, rows - 1) + if cell(votes, c, rows - 1, col) == 0 {
            1int
        } else {
            0int
        }
    }
}

/// First-place votes for `col` among all voters.
pub open spec fn tally(votes: Seq<usize>, c: int, col: int) -> int {
    tally_upto(votes, c, col, num_rows(votes, c))
}

/// The whole round's tally vector, one entry per remaining candidate.
pub open spec fn tallies(votes: Seq<usize>, c: int) -> Seq<int> {
    Seq::new(c as nat, |col: int| tally(votes, c, col))
}

/// The largest tally in `t`.
pub open spec fn max_tally(t: Seq<int>) -> int
    decreases t.len(),
{
    if t.len() <= 1 {
        t[0]
    } else if t[0] >= max_tally(t.drop_first()) {
        t[0]
    } else {
        max_tally(t.drop_first())
    }
}

/// The round's leader: the lowest index whose tally is the maximum
/// (leftmost-wins tie break).
pub open spec fn leader(t: Seq<int>) -> int
    decreases t.len(),
{
    if t.len() <= 1 {
        0
    } else if t[0] >= max_tally(t.drop_first()) {
        0
    } else {
        1 + leader(t.drop_first())
    }
}

/// Re-ranking: in every row, every rank strictly above that row's rank for
/// the leader `w` moves down by one, closing the gap the leader leaves.
pub open spec fn rerank_spec(votes: Seq<usize>, c: int, w: int) -> Seq<usize> {
    Seq::new(
        votes.len(),
        |i: int|
            {
                let wr = cell(votes, c, i / c, w);
                if votes[i] > wr {
                    (votes[i] - 1) as usize
                } else {
                    votes[i]
                }
            },
    )
}

/// Removal of column `w`: one cell per row leaves the flat table and the
/// width shrinks to `c - 1`.
pub open spec fn remove_col_spec(votes: Seq<usize>, c: int, w: int) -> Seq<usize> {
    Seq::new(
        (num_rows(votes, c) * (c - 1)) as nat,
        |j: int|
            {
                let r = j / (c - 1);
                let col = j % (c - 1);
                if col < w {
                    cell(votes, c, r, col)
                } else {
                    cell(votes, c, r, col + 1)
                }
            },
    )
}

/// The candidate list after one round: the leader's label leaves.
pub open spec fn step_labels<T>(labels: Seq<T>, votes: Seq<usize>) -> Seq<T> {
    labels.remove(leader(tallies(votes, labels.len() as int)))
}

/// The vote table after one round: ranks re-ranked, leader's column removed.
pub open spec fn step_votes<T>(labels: Seq<T>, votes: Seq<usize>) -> Seq<usize> {
    let c = labels.len() as int;
    let w = leader(tallies(votes, c));
    remove_col_spec(rerank_spec(votes, c, w), c, w)
}

/// The engine's state (labels, votes) after `k` rounds.
pub open spec fn state_at<T>(labels: Seq<T>, votes: Seq<usize>, k: int) -> (Seq<T>, Seq<usize>)
    decreases k,
{
    if k <= 0 {
        (labels, votes)
    } else {
        let prev = state_at(labels, votes, k - 1);
        (step_labels(prev.0, prev.1), step_votes(prev.0, prev.1))
    }
}

/// A sequence of machine counts, read as mathematical integers.
pub open spec fn usize_ints(s: Seq<usize>) -> Seq<int> {
    s.map_values(|v: usize| v as int)
}

/// What one emitted round must hold, given the state (`ls`, `vs`) at its
/// start: the leader's label, the leader's tally, and every other
/// remaining candidate's label paired with its tally, in label order.
pub open spec fn round_reported<T>(
    ls: Seq<T>,
    vs: Seq<usize>,
    round: (T, usize, Vec<(T, usize)>),
) -> bool {
    let c = ls.len() as int;
    let t = tallies(vs, c);
    let w = leader(t);
    &&& round.0 == ls[w]
    &&& round.1 as int == t[w]
    &&& round.2@.len() == c - 1
    &&& forall|j: int| 0 <= j < c - 1 ==> (#[trigger] round.2@[j]).0 == ls.remove(w)[j]
    &&& forall|j: int| 0 <= j < c - 1 ==> (#[trigger] round.2@[j]).1 as int == t.remove(w)[j]
}

/// The full trace: one reported round per initial candidate, the `k`th
/// reported from the state after `k` rounds.
pub open spec fn runoff_reported<T>(
    labels: Seq<T>,
    votes: Seq<usize>,
    r: Seq<(T, usize, Vec<(T, usize)>)>,
) -> bool {
    &&& r.len() == labels.len()
    &&& forall|k: int|
        0 <= k < r.len() ==> round_reported(
            state_at(labels, votes, k).0,
            state_at(labels, votes, k).1,
            #[trigger] r[k],
        )
}

/// Row `r` of the flat table, as its own sequence of `c` ranks.
pub open spec fn row_of(votes: Seq<usize>, c: int, r: int) -> Seq<usize> {
    votes.subrange(r * c, r * c + c)
}

/// How many cells of `s` hold the value `v`.
pub open spec fn count_val(s: Seq<usize>, v: int) -> int
    decreases s.len(),
{
    if s.len() == 0 {
        0
    } else {
        count_val(s.drop_last(), v) + if s.last() == v {
            1int
        } else {
            0int
        }
    }
}

/// A complete ballot row over `c` candidates: each rank `0..c` appears
/// exactly once.
pub open spec fn is_ranking(s: Seq<usize>, c: int) -> bool {
    &&& s.len() == c
    &&& forall|i: int| 0 <= i < s.len() ==> (#[trigger] s[i]) < c
    &&& forall|v: int| 0 <= v < c ==> count_val(s, v) == 1
}

/// One row's re-ranking at the leader's rank `wr`: every rank strictly
/// above `wr` moves down by one.
pub open spec fn rerank_row(s: Seq<usize>, wr: usize) -> Seq<usize> {
    Seq::new(
        s.len(),
        |i: int|
            if s[i] > wr {
                (s[i] - 1) as usize
            } else {
                s[i]
            },
    )
}

/// Every voter's row is a complete ballot over the current `c` candidates.
pub open spec fn all_rows_ranked(votes: Seq<usize>, c: int) -> bool {
    forall|r: int| 0 <= r < num_rows(votes, c) ==> is_ranking(#[trigger] row_of(votes, c, r), c)
}

/// The leader is a real index, holds the maximum tally, and every index
/// left of it falls strictly below the maximum.
pub proof fn lemma_leader(t: Seq<int>)
    requires
        t.len() > 0,
    ensures
        0 <= leader(t) < t.len(),
        t[leader(t)] == max_tally(t),
        forall|j: int| 0 <= j < t.len() ==> t[j] <= max_tally(t),
        forall|j: int| 0 <= j < leader(t) ==> t[j] < max_tally(t),
    decreases t.len(),
{
    if t.len() > 1 {
        let rest = t.drop_first();
        lemma_leader(rest);
        assert(forall|j: int| 1 <= j < t.len() ==> t[j] == rest[j - 1]);
    }
}

/// Any index that carries the maximum while everything left of it is
/// strictly smaller is the leader: the leftmost-wins choice is unique.
pub proof fn lemma_leader_unique(t: Seq<int>, w: int)
    requires
        t.len() > 0,
        0 <= w < t.len(),
        forall|j: int| 0 <= j < t.len() ==> t[j] <= t[w],
        forall|j: int| 0 <= j < w ==> t[j] < t[w],
    ensures
        w == leader(t),
{
    lemma_leader(t);
    let l = leader(t);
    if w < l {
        assert(t[w] < max_tally(t));
        assert(t[l] <= t[w]);
    } else if l < w {
        assert(t[l] < t[w]);
        assert(t[w] <= max_tally(t));
    }
}

/// Reading counts as integers commutes with removing an entry.
pub proof fn lemma_usize_ints_remove(s: Seq<usize>, i: int)
    requires
        0 <= i < s.len(),
    ensures
        usize_ints(s.remove(i)) == usize_ints(s).remove(i),
{
    assert(usize_ints(s.remove(i)) =~= usize_ints(s).remove(i));
}

/// The tally vector counted over the first `rows` voters only.
pub open spec fn partial_tallies(votes: Seq<usize>, c: int, rows: int) -> Seq<int> {
    Seq::new(c as nat, |col: int| tally_upto(votes, c, col, rows))
}

/// Sum of a tally vector.
pub open spec fn sum(t: Seq<int>) -> int
    decreases t.len(),
{
    if t.len() == 0 {
        0
    } else {
        sum(t.drop_last()) + t.last()
    }
}

/// Sum of the tallies in a reported (label, tally) list.
pub open spec fn sum_snd<T>(s: Seq<(T, usize)>) -> int
    decreases s.len(),
{
    if s.len() == 0 {
        0
    } else {
        sum_snd(s.drop_last()) + s.last().1
    }
}

} // verus!
