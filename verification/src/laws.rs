//! Library-wide laws of the elimination engine, stated and proved over the
//! model in [`crate::model`].

use crate::model::{
    all_rows_ranked, cell, count_val, is_ranking, leader, lemma_leader, lemma_leader_unique,
    num_rows, partial_tallies, remove_col_spec, rerank_row, rerank_spec, round_reported, row_of,
    runoff_reported, state_at, step_votes, sum, sum_snd, tallies, tally_upto, valid_input,
};
use vstd::arithmetic::div_mod::{
    lemma_div_multiples_vanish, lemma_fundamental_div_mod, lemma_fundamental_div_mod_converse,
};
use vstd::prelude::*;

verus! {

/// Counts are never negative.
proof fn lemma_count_val_nonneg(s: Seq<usize>, v: int)
    ensures
        count_val(s, v) >= 0,
    decreases s.len(),
{
    if s.len() > 0 {
        lemma_count_val_nonneg(s.drop_last(), v);
    }
}

/// A cell that holds `v` makes the count of `v` positive.
proof fn lemma_count_val_pos(s: Seq<usize>, v: int, i: int)
    requires
        0 <= i < s.len(),
        s[i] == v,
    ensures
        count_val(s, v) >= 1,
    decreases s.len(),
{
    if i < s.len() - 1 {
        lemma_count_val_pos(s.drop_last(), v, i);
    } else {
        lemma_count_val_nonneg(s.drop_last(), v);
    }
}

/// Removing a cell takes exactly its own contribution out of the count.
proof fn lemma_count_val_remove(s: Seq<usize>, v: int, i: int)
    requires
        0 <= i < s.len(),
    ensures
        count_val(s.remove(i), v) == count_val(s, v) - if s[i] == v {
            1int
        } else {
            0int
        },
    decreases s.len(),
{
    if i == s.len() - 1 {
        assert(s.remove(i) =~= s.drop_last());
    } else {
        assert(s.remove(i).drop_last() =~= s.drop_last().remove(i));
        assert(s.remove(i).last() == s.last());
        lemma_count_val_remove(s.drop_last(), v, i);
    }
}

/// A value counted once sits at one index only.
proof fn lemma_count_val_unique(s: Seq<usize>, v: int, w: int, j: int)
    requires
        0 <= w < s.len(),
        0 <= j < s.len(),
        j != w,
        s[w] == v,
        count_val(s, v) == 1,
    ensures
        s[j] != v,
{
    lemma_count_val_remove(s, v, w);
    if s[j] == v {
        let jj: int = if j < w {
            j
        } else {
            j - 1
        };
        assert(s.remove(w)[jj] == s[j]);
        lemma_count_val_pos(s.remove(w), v, jj);
    }
}

/// What re-ranking at `wr` does to the count of each value: ranks at most
/// `wr` keep their count, and every rank above `wr` inherits the count of
/// its successor.
proof fn lemma_count_val_rerank(s: Seq<usize>, wr: usize, v: int)
    ensures
        count_val(rerank_row(s, wr), v) == (if v <= wr {
            count_val(s, v)
        } else {
            0int
        }) + (if v >= wr {
            count_val(s, v + 1)
        } else {
            0int
        }),
    decreases s.len(),
{
    if s.len() > 0 {
        assert(rerank_row(s, wr).drop_last() =~= rerank_row(s.drop_last(), wr));
        assert(rerank_row(s, wr).last() == if s.last() > wr {
            (s.last() - 1) as usize
        } else {
            s.last()
        });
        lemma_count_val_rerank(s.drop_last(), wr, v);
    }
}

/// One round's effect on one complete ballot row: re-ranking at the
/// leader's rank and dropping the leader's cell leaves a complete ballot
/// row over one candidate fewer. This is the monotonic-density law: ranks
/// stay a dense permutation of `0..(c-1)`, with no gaps and no duplicates.
pub proof fn lemma_ranking_step(s: Seq<usize>, c: int, w: int)
    requires
        is_ranking(s, c),
        0 <= w < c,
    ensures
        is_ranking(rerank_row(s, s[w]).remove(w), c - 1),
{
    let wr = s[w];
    let rr = rerank_row(s, wr);
    let fin = rr.remove(w);
    assert(rr[w] == s[w]);
    assert forall|v: int| 0 <= v < c - 1 implies count_val(fin, v) == 1 by {
        lemma_count_val_rerank(s, wr, v);
        lemma_count_val_remove(rr, v, w);
        if v < wr {
            assert(count_val(rr, v) == count_val(s, v));
        } else if v == wr {
            assert(count_val(rr, v) == count_val(s, v) + count_val(s, v + 1));
        } else {
            assert(count_val(rr, v) == count_val(s, v + 1));
        }
    };
    assert forall|i: int| 0 <= i < fin.len() implies (#[trigger] fin[i]) < c - 1 by {
        let m: int = if i < w {
            i
        } else {
            i + 1
        };
        assert(fin[i] == rr[m]);
        if s[m] == wr {
            lemma_count_val_unique(s, wr as int, w, m);
        }
    };
}

/// Extracting a row commutes with re-ranking the whole table.
proof fn lemma_row_rerank(votes: Seq<usize>, c: int, w: int, r: int)
    requires
        c > 0,
        0 <= w < c,
        0 <= r < num_rows(votes, c),
        votes.len() == num_rows(votes, c) * c,
    ensures
        row_of(rerank_spec(votes, c, w), c, r) == rerank_row(
            row_of(votes, c, r),
            cell(votes, c, r, w),
        ),
{
    let v = num_rows(votes, c);
    assert((r + 1) * c <= v * c) by (nonlinear_arith)
        requires
            r < v,
            c > 0,
    ;
    assert((r + 1) * c == r * c + c) by (nonlinear_arith);
    assert(r * c >= 0) by (nonlinear_arith)
        requires
            r >= 0,
            c > 0,
    ;
    let lhs = row_of(rerank_spec(votes, c, w), c, r);
    let rhs = rerank_row(row_of(votes, c, r), cell(votes, c, r, w));
    assert forall|i: int| 0 <= i < c implies lhs[i] == rhs[i] by {
        lemma_fundamental_div_mod_converse(r * c + i, c, r, i);
    };
    assert(lhs =~= rhs);
}

/// Extracting a row commutes with removing a column.
proof fn lemma_row_remove(votes: Seq<usize>, c: int, w: int, r: int)
    requires
        c > 0,
        0 <= w < c,
        0 <= r < num_rows(votes, c),
        votes.len() == num_rows(votes, c) * c,
    ensures
        row_of(remove_col_spec(votes, c, w), c - 1, r) == row_of(
            votes,
            c,
            r,
        ).remove(w),
{
    let v = num_rows(votes, c);
    assert((r + 1) * (c - 1) <= v * (c - 1)) by (nonlinear_arith)
        requires
            r < v,
            c - 1 >= 0,
    ;
    assert((r + 1) * (c - 1) == r * (c - 1) + (c - 1)) by (nonlinear_arith);
    assert(r * (c - 1) >= 0) by (nonlinear_arith)
        requires
            r >= 0,
            c - 1 >= 0,
    ;
    assert((r + 1) * c <= v * c) by (nonlinear_arith)
        requires
            r < v,
            c > 0,
    ;
    assert((r + 1) * c == r * c + c) by (nonlinear_arith);
    assert(r * c >= 0) by (nonlinear_arith)
        requires
            r >= 0,
            c > 0,
    ;
    let lhs = row_of(remove_col_spec(votes, c, w), c - 1, r);
    let rhs = row_of(votes, c, r).remove(w);
    assert forall|m: int| 0 <= m < c - 1 implies lhs[m] == rhs[m] by {
        lemma_fundamental_div_mod_converse(
            r * (c - 1) + m,
            c - 1,
            r,
            m,
        );
    };
    assert(lhs =~= rhs);
}

/// One whole round keeps every voter's row a complete ballot: the table
/// shrinks by one column, the voter count stays, and every row is again a
/// dense permutation of the smaller rank range.
pub proof fn lemma_step_ranked<T>(labels: Seq<T>, votes: Seq<usize>)
    requires
        labels.len() > 0,
        votes.len() == num_rows(votes, labels.len() as int) * (labels.len() as int),
        all_rows_ranked(votes, labels.len() as int),
    ensures
        step_votes(labels, votes).len() == num_rows(votes, labels.len() as int) * (labels.len()
            - 1),
        labels.len() > 1 ==> num_rows(step_votes(labels, votes), labels.len() - 1) == num_rows(
            votes,
            labels.len() as int,
        ),
        all_rows_ranked(step_votes(labels, votes), labels.len() - 1),
{
    let c = labels.len() as int;
    let v = num_rows(votes, c);
    let t = tallies(votes, c);
    lemma_leader(t);
    let w = leader(t);
    let rr = rerank_spec(votes, c, w);
    let sv = step_votes(labels, votes);
    assert(rr.len() == votes.len());
    assert(num_rows(rr, c) == v);
    assert(sv == remove_col_spec(rr, c, w));
    assert(sv.len() == v * (c - 1));
    if c > 1 {
        lemma_div_multiples_vanish(v, c - 1);
        assert((c - 1) * v == v * (c - 1)) by (nonlinear_arith);
        assert(num_rows(sv, c - 1) == v);
    }
    assert forall|r: int|
        0 <= r < num_rows(sv, c - 1) implies is_ranking(#[trigger] row_of(sv, c - 1, r), c - 1) by {
        if c > 1 {
            let row = row_of(votes, c, r);
            lemma_row_rerank(votes, c, w, r);
            lemma_row_remove(rr, c, w, r);
            assert((r + 1) * c <= v * c) by (nonlinear_arith)
                requires
                    r < v,
                    c > 0,
            ;
            assert((r + 1) * c == r * c + c) by (nonlinear_arith);
            assert(r * c >= 0) by (nonlinear_arith)
                requires
                    r >= 0,
                    c > 0,
            ;
            assert(cell(votes, c, r, w) == row[w]);
            assert(is_ranking(row, c));
            lemma_ranking_step(row, c, w);
            assert(row_of(sv, c - 1, r) == rerank_row(row, row[w]).remove(w));
        } else {
            assert(row_of(sv, 0, r) =~= Seq::<usize>::empty());
        }
    };
}

/// The density invariant across the whole run: starting from complete
/// ballots, after any number of rounds every remaining row is still a
/// dense permutation of the remaining rank range, and the voter count
/// never changes.
pub proof fn lemma_density<T>(labels: Seq<T>, votes: Seq<usize>, k: int)
    requires
        labels.len() > 0,
        valid_input(labels, votes),
        all_rows_ranked(votes, labels.len() as int),
        0 <= k <= labels.len(),
    ensures
        state_at(labels, votes, k).0.len() == labels.len() - k,
        state_at(labels, votes, k).1.len() == num_rows(votes, labels.len() as int) * (labels.len()
            - k),
        k < labels.len() ==> num_rows(state_at(labels, votes, k).1, labels.len() - k) == num_rows(
            votes,
            labels.len() as int,
        ),
        all_rows_ranked(state_at(labels, votes, k).1, labels.len() - k),
    decreases k,
{
    let c0 = labels.len() as int;
    let v = num_rows(votes, c0);
    lemma_state_labels_len(labels, votes, k);
    if k == 0 {
        lemma_fundamental_div_mod(votes.len() as int, c0);
        assert(c0 * v == v * c0) by (nonlinear_arith);
    } else {
        lemma_density(labels, votes, k - 1);
        let prev = state_at(labels, votes, k - 1);
        lemma_state_labels_len(labels, votes, k - 1);
        lemma_step_ranked(prev.0, prev.1);
    }
}

/// A row index inside the table addresses a full row of the flat storage.
proof fn lemma_row_bounds(votes: Seq<usize>, c: int, r: int)
    requires
        c > 0,
        0 <= r < num_rows(votes, c),
        votes.len() == num_rows(votes, c) * c,
    ensures
        0 <= r * c,
        r * c + c <= votes.len(),
        row_of(votes, c, r).len() == c,
        forall|i: int| 0 <= i < c ==> row_of(votes, c, r)[i] == cell(votes, c, r, i),
{
    let v = num_rows(votes, c);
    assert((r + 1) * c <= v * c) by (nonlinear_arith)
        requires
            r < v,
            c > 0,
    ;
    assert((r + 1) * c == r * c + c) by (nonlinear_arith);
    assert(r * c >= 0) by (nonlinear_arith)
        requires
            r >= 0,
            c > 0,
    ;
}

/// A vector of zeros sums to zero.
proof fn lemma_sum_zero_seq(t: Seq<int>)
    requires
        forall|i: int| 0 <= i < t.len() ==> (#[trigger] t[i]) == 0,
    ensures
        sum(t) == 0,
    decreases t.len(),
{
    if t.len() > 0 {
        lemma_sum_zero_seq(t.drop_last());
    }
}

/// Sums add pointwise.
proof fn lemma_sum_pointwise_add(a: Seq<int>, b: Seq<int>, d: Seq<int>)
    requires
        a.len() == d.len(),
        b.len() == d.len(),
        forall|i: int| 0 <= i < d.len() ==> (#[trigger] d[i]) == a[i] + b[i],
    ensures
        sum(d) == sum(a) + sum(b),
    decreases d.len(),
{
    if d.len() > 0 {
        lemma_sum_pointwise_add(a.drop_last(), b.drop_last(), d.drop_last());
    }
}

/// Removing an entry takes exactly that entry out of the sum.
proof fn lemma_sum_remove(t: Seq<int>, i: int)
    requires
        0 <= i < t.len(),
    ensures
        sum(t.remove(i)) == sum(t) - t[i],
    decreases t.len(),
{
    if i == t.len() - 1 {
        assert(t.remove(i) =~= t.drop_last());
    } else {
        assert(t.remove(i).drop_last() =~= t.drop_last().remove(i));
        assert(t.remove(i).last() == t.last());
        lemma_sum_remove(t.drop_last(), i);
    }
}

/// One voter's first-place marks, summed over the columns, are the count
/// of zeros in that voter's row.
proof fn lemma_sum_indicator(votes: Seq<usize>, c: int, r: int, j: int)
    requires
        c > 0,
        0 <= r < num_rows(votes, c),
        votes.len() == num_rows(votes, c) * c,
        0 <= j <= c,
    ensures
        sum(
            Seq::new(
                j as nat,
                |col: int|
                    if cell(votes, c, r, col) == 0 {
                        1int
                    } else {
                        0int
                    },
            ),
        ) == count_val(row_of(votes, c, r).subrange(0, j), 0),
    decreases j,
{
    let v = num_rows(votes, c);
    assert((r + 1) * c <= v * c) by (nonlinear_arith)
        requires
            r < v,
            c > 0,
    ;
    assert((r + 1) * c == r * c + c) by (nonlinear_arith);
    assert(r * c >= 0) by (nonlinear_arith)
        requires
            r >= 0,
            c > 0,
    ;
    let ind = Seq::new(
        j as nat,
        |col: int|
            if cell(votes, c, r, col) == 0 {
                1int
            } else {
                0int
            },
    );
    let pre = row_of(votes, c, r).subrange(0, j);
    if j == 0 {
        assert(pre =~= Seq::<usize>::empty());
    } else {
        lemma_sum_indicator(votes, c, r, j - 1);
        assert(ind.drop_last() =~= Seq::new(
            (j - 1) as nat,
            |col: int|
                if cell(votes, c, r, col) == 0 {
                    1int
                } else {
                    0int
                },
        ));
        assert(pre.drop_last() =~= row_of(votes, c, r).subrange(0, j - 1));
        assert(pre.last() == cell(votes, c, r, j - 1));
    }
}

/// Counted over any prefix of the voters, the tallies sum to the number
/// of voters counted, as long as each row ranks exactly one candidate
/// first.
proof fn lemma_sum_tallies_rows(votes: Seq<usize>, c: int, rows: int)
    requires
        c > 0,
        votes.len() == num_rows(votes, c) * c,
        0 <= rows <= num_rows(votes, c),
        forall|r: int|
            0 <= r < num_rows(votes, c) ==> count_val(#[trigger] row_of(votes, c, r), 0) == 1,
    ensures
        sum(partial_tallies(votes, c, rows)) == rows,
    decreases rows,
{
    if rows == 0 {
        lemma_sum_zero_seq(partial_tallies(votes, c, 0));
    } else {
        lemma_sum_tallies_rows(votes, c, rows - 1);
        let a = partial_tallies(votes, c, rows - 1);
        let d = partial_tallies(votes, c, rows);
        let b = Seq::new(
            c as nat,
            |col: int|
                if cell(votes, c, rows - 1, col) == 0 {
                    1int
                } else {
                    0int
                },
        );
        assert forall|i: int| 0 <= i < d.len() implies (#[trigger] d[i]) == a[i] + b[i] by {
            assert(tally_upto(votes, c, i, rows) == tally_upto(votes, c, i, rows - 1) + if cell(
                votes,
                c,
                rows - 1,
                i,
            ) == 0 {
                1int
            } else {
                0int
            });
        };
        lemma_sum_pointwise_add(a, b, d);
        lemma_sum_indicator(votes, c, rows - 1, c);
        lemma_row_bounds(votes, c, rows - 1);
        assert(row_of(votes, c, rows - 1).subrange(0, c) =~= row_of(votes, c, rows - 1));
    }
}

/// The whole round's tallies sum to the number of voters: every voter
/// ranks exactly one remaining candidate first.
pub proof fn lemma_sum_tallies(votes: Seq<usize>, c: int)
    requires
        c > 0,
        votes.len() == num_rows(votes, c) * c,
        all_rows_ranked(votes, c),
    ensures
        sum(tallies(votes, c)) == num_rows(votes, c),
{
    assert forall|r: int|
        0 <= r < num_rows(votes, c) implies count_val(#[trigger] row_of(votes, c, r), 0) == 1 by {
        assert(is_ranking(row_of(votes, c, r), c));
    };
    lemma_sum_tallies_rows(votes, c, num_rows(votes, c));
    assert(tallies(votes, c) =~= partial_tallies(votes, c, num_rows(votes, c)));
}

/// Reported tallies paired with labels sum like the bare tally vector.
proof fn lemma_sum_snd_eq<T>(s: Seq<(T, usize)>, t: Seq<int>)
    requires
        s.len() == t.len(),
        forall|j: int| 0 <= j < s.len() ==> ((#[trigger] s[j]).1 as int) == t[j],
    ensures
        sum_snd(s) == sum(t),
    decreases s.len(),
{
    if s.len() > 0 {
        lemma_sum_snd_eq(s.drop_last(), t.drop_last());
    }
}

/// The tally-sum law: in every round of a run that starts from complete
/// ballots, the reported tallies — the leader's plus every other
/// remaining candidate's — sum to the number of voters.
pub proof fn lemma_tally_sum<T>(
    labels: Seq<T>,
    votes: Seq<usize>,
    k: int,
    rd: (T, usize, Vec<(T, usize)>),
)
    requires
        labels.len() > 0,
        valid_input(labels, votes),
        all_rows_ranked(votes, labels.len() as int),
        0 <= k < labels.len(),
        round_reported(state_at(labels, votes, k).0, state_at(labels, votes, k).1, rd),
    ensures
        rd.1 + sum_snd(rd.2@) == num_rows(votes, labels.len() as int),
{
    lemma_density(labels, votes, k);
    let ls = state_at(labels, votes, k).0;
    let vs = state_at(labels, votes, k).1;
    let c = ls.len() as int;
    let t = tallies(vs, c);
    lemma_leader(t);
    let w = leader(t);
    lemma_sum_tallies(vs, c);
    lemma_sum_remove(t, w);
    lemma_sum_snd_eq(rd.2@, t.remove(w));
}

/// A column ranked first by every voter tallies one vote per voter.
proof fn lemma_tally_upto_full(votes: Seq<usize>, c: int, col: int, rows: int)
    requires
        0 <= rows,
        forall|r: int| 0 <= r < rows ==> cell(votes, c, r, col) == 0,
    ensures
        tally_upto(votes, c, col, rows) == rows,
    decreases rows,
{
    if rows > 0 {
        lemma_tally_upto_full(votes, c, col, rows - 1);
    }
}

/// A column ranked first by no voter tallies nothing.
proof fn lemma_tally_upto_none(votes: Seq<usize>, c: int, col: int, rows: int)
    requires
        forall|r: int| 0 <= r < rows ==> cell(votes, c, r, col) != 0,
    ensures
        tally_upto(votes, c, col, rows) == 0,
    decreases rows,
{
    if rows > 0 {
        lemma_tally_upto_none(votes, c, col, rows - 1);
    }
}

/// The determinism law: two reported traces of the same input agree round
/// by round — same label, same tally, same list of others.
pub proof fn lemma_deterministic<T>(
    labels: Seq<T>,
    votes: Seq<usize>,
    r1: Seq<(T, usize, Vec<(T, usize)>)>,
    r2: Seq<(T, usize, Vec<(T, usize)>)>,
)
    requires
        runoff_reported(labels, votes, r1),
        runoff_reported(labels, votes, r2),
    ensures
        r1.len() == r2.len(),
        forall|k: int| 0 <= k < r1.len() ==> (#[trigger] r1[k]).0 == r2[k].0,
        forall|k: int| 0 <= k < r1.len() ==> (#[trigger] r1[k]).1 == r2[k].1,
        forall|k: int| 0 <= k < r1.len() ==> (#[trigger] r1[k]).2@ == r2[k].2@,
{
    assert forall|k: int| 0 <= k < r1.len() implies (#[trigger] r1[k]).2@ == r2[k].2@ by {
        let ls = state_at(labels, votes, k).0;
        let vs = state_at(labels, votes, k).1;
        let t = tallies(vs, ls.len() as int);
        let w = leader(t);
        assert forall|j: int| 0 <= j < r1[k].2@.len() implies r1[k].2@[j] == r2[k].2@[j] by {
            assert(r1[k].2@[j].0 == ls.remove(w)[j]);
            assert(r1[k].2@[j].1 == r2[k].2@[j].1);
        };
        assert(r1[k].2@ =~= r2[k].2@);
    };
}

/// The degenerate law: with a single candidate, the one round reports
/// that candidate with every voter's vote and an empty list of others.
pub proof fn lemma_single_candidate<T>(
    labels: Seq<T>,
    votes: Seq<usize>,
    rd: (T, usize, Vec<(T, usize)>),
)
    requires
        labels.len() == 1,
        valid_input(labels, votes),
        round_reported(labels, votes, rd),
    ensures
        rd.0 == labels[0],
        rd.1 == votes.len(),
        rd.2@.len() == 0,
{
    assert(num_rows(votes, 1) == votes.len()) by {
        lemma_fundamental_div_mod(votes.len() as int, 1);
    };
    assert forall|r: int| 0 <= r < votes.len() implies cell(votes, 1, r, 0) == 0 by {
        assert(votes[r] < 1);
    };
    lemma_tally_upto_full(votes, 1, 0, votes.len() as int);
    assert(tallies(votes, 1)[0] == votes.len());
}

/// The unanimity law: when every voter ranks the first candidate first,
/// the first round reports that candidate with every voter's vote, and
/// every other candidate with a tally of zero.
pub proof fn lemma_unanimous<T>(
    labels: Seq<T>,
    votes: Seq<usize>,
    rd: (T, usize, Vec<(T, usize)>),
)
    requires
        labels.len() > 0,
        valid_input(labels, votes),
        all_rows_ranked(votes, labels.len() as int),
        forall|r: int|
            0 <= r < num_rows(votes, labels.len() as int) ==> cell(
                votes,
                labels.len() as int,
                r,
                0,
            ) == 0,
        round_reported(labels, votes, rd),
    ensures
        rd.0 == labels[0],
        rd.1 == num_rows(votes, labels.len() as int),
        rd.2@.len() == labels.len() - 1,
        forall|j: int| 0 <= j < rd.2@.len() ==> (#[trigger] rd.2@[j]).1 == 0,
{
    let c = labels.len() as int;
    let v = num_rows(votes, c);
    lemma_fundamental_div_mod(votes.len() as int, c);
    assert(c * v == v * c) by (nonlinear_arith);
    assert(v >= 0) by (nonlinear_arith)
        requires
            votes.len() == v * c,
            c > 0,
            votes.len() >= 0,
    ;
    let t = tallies(votes, c);
    lemma_tally_upto_full(votes, c, 0, v);
    assert(t[0] == v);
    assert forall|col: int| 1 <= col < c implies t[col] == 0 by {
        assert forall|r: int| 0 <= r < v implies cell(votes, c, r, col) != 0 by {
            lemma_row_bounds(votes, c, r);
            let row = row_of(votes, c, r);
            assert(is_ranking(row, c));
            assert(row[0] == cell(votes, c, r, 0));
            lemma_count_val_unique(row, 0, 0, col);
        };
        lemma_tally_upto_none(votes, c, col, v);
    };
    lemma_leader_unique(t, 0);
}

/// After as many rounds as there were candidates, no candidate is left:
/// the label list of the final state is empty.
pub proof fn lemma_exhaustion<T>(labels: Seq<T>, votes: Seq<usize>)
    ensures
        state_at(labels, votes, labels.len() as int).0.len() == 0,
{
    lemma_state_labels_len(labels, votes, labels.len() as int);
}

/// Each round removes exactly one candidate: after `k` rounds, `k` labels
/// are gone.
pub proof fn lemma_state_labels_len<T>(labels: Seq<T>, votes: Seq<usize>, k: int)
    requires
        0 <= k <= labels.len(),
    ensures
        state_at(labels, votes, k).0.len() == labels.len() - k,
    decreases k,
{
    if k > 0 {
        lemma_state_labels_len(labels, votes, k - 1);
        let prev = state_at(labels, votes, k - 1);
        lemma_leader(tallies(prev.1, prev.0.len() as int));
    }
}

} // verus!
