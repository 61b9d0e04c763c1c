//! The ballot matrix and its elimination engine.
//!
//! `Ballot` owns the candidate labels and the flat row-major rank table.
//! `runoff` consumes it and reports one round per candidate, each round
//! removing the current plurality leader (leftmost column on a tie),
//! re-ranking every row, and dropping the leader's column.

use crate::model::{
    cell, lemma_leader_unique, lemma_usize_ints_remove, num_rows, remove_col_spec, rerank_spec,
    round_reported, runoff_reported, state_at, tallies, tally, tally_upto, usize_ints, valid_input,
};
use vstd::arithmetic::div_mod::{
    lemma_div_multiples_vanish, lemma_fundamental_div_mod, lemma_fundamental_div_mod_converse,
};
use vstd::pervasive::VecAdditionalExecFns;
use vstd::prelude::*;

verus! {

/// A dense rank table: one label per candidate, and for every voter a
/// complete row of ranks over those candidates, flattened row-major.
pub struct Ballot<T> {
    /// The names of the candidates, in column order.
    labels: Vec<T>,
    /// The raw rankings: row-major, one row of `labels.len()` ranks per
    /// voter, every value below `labels.len()`.
    votes: Vec<usize>,
}

impl<T> Ballot<T> {
    /// The candidate labels, as the model sees them.
    pub closed spec fn labels_view(&self) -> Seq<T> {
        self.labels@
    }

    /// The flat vote table, as the model sees it.
    pub closed spec fn votes_view(&self) -> Seq<usize> {
        self.votes@
    }

    /// The constructor's validation, as an invariant on the value.
    pub open spec fn well_formed(&self) -> bool {
        valid_input(self.labels_view(), self.votes_view())
    }
}

impl<T: Copy> Ballot<T> {
    /// Validates and wraps a candidate list and a flat rank table.
    ///
    /// Construction succeeds exactly when the vote count is a multiple of
    /// the label count and every rank value is below the label count (an
    /// empty label list admits only an empty table); otherwise the inputs
    /// come back unchanged for inspection.
    pub fn new(labels: Vec<T>, votes: Vec<usize>) -> (r: Result<Ballot<T>, (Vec<T>, Vec<usize>)>)
        ensures
            match r {
                Ok(b) => valid_input(labels@, votes@) && b.labels_view() == labels@
                    && b.votes_view() == votes@,
                Err(p) => !valid_input(labels@, votes@) && p.0@ == labels@ && p.1@ == votes@,
            },
    {
        if labels.len() == 0 {
            if votes.len() == 0 {
                Ok(Ballot { labels, votes })
            } else {
                Err((labels, votes))
            }
        } else if votes.len() % labels.len() != 0 {
            Err((labels, votes))
        } else {
            let mut i: usize = 0;
            let mut ok = true;
            while i < votes.len()
                invariant
                    i <= votes@.len(),
                    ok <==> (forall|j: int| 0 <= j < i ==> (#[trigger] votes@[j]) < labels@.len()),
                decreases votes@.len() - i,
            {
                if votes[i] >= labels.len() {
                    ok = false;
                }
                i += 1;
            }
            if ok {
                Ok(Ballot { labels, votes })
            } else {
                Err((labels, votes))
            }
        }
    }

    /// The current number of candidates (the table's width).
    fn count(&self) -> (c: usize)
        ensures
            c == self.labels_view().len(),
    {
        self.labels.len()
    }

    /// First-place votes per remaining candidate, in column order.
    #[verifier::loop_isolation(false)]
    fn round_tallies(&self) -> (t: Vec<usize>)
        requires
            self.labels_view().len() > 0,
            self.votes_view().len() == num_rows(self.votes_view(), self.labels_view().len() as int)
                * (self.labels_view().len() as int),
        ensures
            t@.len() == self.labels_view().len(),
            usize_ints(t@) == tallies(self.votes_view(), self.labels_view().len() as int),
    {
        let c = self.labels.len();
        let v = self.votes.len() / c;
        let ghost vs = self.votes_view();
        let mut t: Vec<usize> = Vec::new();
        let mut col: usize = 0;
        while col < c
            invariant
                col <= c,
                t@.len() == col,
                forall|k: int| 0 <= k < col ==> (#[trigger] t@[k]) as int == tally(vs, c as int, k),
            decreases c - col,
        {
            let mut cnt: usize = 0;
            let mut r: usize = 0;
            while r < v
                invariant
                    r <= v,
                    cnt <= r,
                    cnt as int == tally_upto(vs, c as int, col as int, r as int),
                decreases v - r,
            {
                assert(r * c + col < v * c) by (nonlinear_arith)
                    requires
                        r < v,
                        col < c,
                ;
                if self.votes[r * c + col] == 0 {
                    cnt = cnt + 1;
                }
                r = r + 1;
            }
            t.push(cnt);
            col = col + 1;
        }
        proof {
            assert(usize_ints(t@) =~= tallies(vs, c as int));
        }
        t
    }

    /// Closes the rank gaps the leader `w` will leave: in every row, every
    /// rank strictly above that row's rank for `w` moves down by one.
    #[verifier::loop_isolation(false)]
    fn rerank(&mut self, w: usize)
        requires
            old(self).labels_view().len() > 0,
            w < old(self).labels_view().len(),
            old(self).votes_view().len() == num_rows(
                old(self).votes_view(),
                old(self).labels_view().len() as int,
            ) * (old(self).labels_view().len() as int),
        ensures
            final(self).labels_view() == old(self).labels_view(),
            final(self).votes_view() == rerank_spec(
                old(self).votes_view(),
                old(self).labels_view().len() as int,
                w as int,
            ),
    {
        let c = self.labels.len();
        let v = self.votes.len() / c;
        let ghost vs = old(self).votes_view();
        let ghost target = rerank_spec(vs, c as int, w as int);
        let mut r: usize = 0;
        while r < v
            invariant
                r <= v,
                self.labels@ == old(self).labels@,
                self.votes@.len() == vs.len(),
                forall|i: int| 0 <= i < r * c ==> (#[trigger] self.votes@[i]) == target[i],
                forall|i: int| r * c <= i < vs.len() ==> (#[trigger] self.votes@[i]) == vs[i],
            decreases v - r,
        {
            assert(r * c + w < v * c) by (nonlinear_arith)
                requires
                    r < v,
                    w < c,
            ;
            let wr = self.votes[r * c + w];
            let mut col: usize = 0;
            while col < c
                invariant
                    r < v,
                    col <= c,
                    self.labels@ == old(self).labels@,
                    self.votes@.len() == vs.len(),
                    wr == cell(vs, c as int, r as int, w as int),
                    forall|i: int| 0 <= i < r * c + col ==> (#[trigger] self.votes@[i])
                        == target[i],
                    forall|i: int| r * c + col <= i < vs.len() ==> (#[trigger] self.votes@[i])
                        == vs[i],
                decreases c - col,
            {
                assert(r * c + col < v * c) by (nonlinear_arith)
                    requires
                        r < v,
                        col < c,
                ;
                let idx = r * c + col;
                let x = self.votes[idx];
                if x > wr {
                    self.votes.set(idx, x - 1);
                }
                proof {
                    lemma_fundamental_div_mod_converse(idx as int, c as int, r as int, col as int);
                }
                col = col + 1;
            }
            proof {
                assert((r + 1) * c == r * c + c) by (nonlinear_arith);
            }
            r = r + 1;
        }
        proof {
            assert(r * c == vs.len());
            assert(self.votes@ =~= target);
        }
    }

    /// Removes candidate `col`: its label leaves the list and its cell
    /// leaves every row of the flat table. Returns the removed label.
    #[verifier::loop_isolation(false)]
    fn remove_column(&mut self, col: usize) -> (t: T)
        requires
            old(self).labels_view().len() > 0,
            col < old(self).labels_view().len(),
            old(self).votes_view().len() == num_rows(
                old(self).votes_view(),
                old(self).labels_view().len() as int,
            ) * (old(self).labels_view().len() as int),
        ensures
            final(self).labels_view() == old(self).labels_view().remove(col as int),
            t == old(self).labels_view()[col as int],
            final(self).votes_view() == remove_col_spec(
                old(self).votes_view(),
                old(self).labels_view().len() as int,
                col as int,
            ),
    {
        let c = self.labels.len();
        let v = self.votes.len() / c;
        let ghost vs = old(self).votes_view();
        let ghost target = remove_col_spec(vs, c as int, col as int);
        let mut next: Vec<usize> = Vec::new();
        let mut r: usize = 0;
        while r < v
            invariant
                r <= v,
                self.labels@ == old(self).labels@,
                self.votes@ == vs,
                next@.len() == r * (c - 1),
                forall|jj: int| 0 <= jj < next@.len() ==> (#[trigger] next@[jj]) == target[jj],
            decreases v - r,
        {
            let mut j: usize = 0;
            while j < c
                invariant
                    r < v,
                    j <= c,
                    self.labels@ == old(self).labels@,
                    self.votes@ == vs,
                    next@.len() == r * (c - 1) + if j <= col {
                        j as int
                    } else {
                        j - 1
                    },
                    forall|jj: int| 0 <= jj < next@.len() ==> (#[trigger] next@[jj]) == target[jj],
                decreases c - j,
            {
                if j != col {
                    assert(r * c + j < v * c) by (nonlinear_arith)
                        requires
                            r < v,
                            j < c,
                    ;
                    let ghost a: int = if j <= col {
                        j as int
                    } else {
                        j - 1
                    };
                    proof {
                        assert(r * (c - 1) + a < v * (c - 1)) by (nonlinear_arith)
                            requires
                                r < v,
                                0 <= a < c - 1,
                        ;
                        lemma_fundamental_div_mod_converse(
                            r * (c - 1) + a,
                            c - 1,
                            r as int,
                            a,
                        );
                    }
                    next.push(self.votes[r * c + j]);
                }
                j = j + 1;
            }
            proof {
                assert((r + 1) * (c - 1) == r * (c - 1) + (c - 1)) by (nonlinear_arith);
            }
            r = r + 1;
        }
        proof {
            assert(next@ =~= target);
        }
        self.votes = next;
        self.labels.remove(col)
    }

    /// Plays the whole election, consuming the ballot.
    ///
    /// Reports exactly one round per candidate, in the order the rounds
    /// fall: each round's leader (most first-place votes, leftmost column
    /// on a tie) is reported with its tally and with every other
    /// still-standing candidate's label and tally, then removed. Because
    /// the leader leaves each round, the overall winner is the first
    /// round reported.
    #[verifier::loop_isolation(false)]
    pub fn runoff(self) -> (r: Vec<(T, usize, Vec<(T, usize)>)>)
        requires
            self.well_formed(),
        ensures
            r@.len() == self.labels_view().len(),
            runoff_reported(self.labels_view(), self.votes_view(), r@),
    {
        let ghost ls0 = self.labels_view();
        let ghost vs0 = self.votes_view();
        let ghost c0 = ls0.len() as int;
        let ghost nrows: int = if c0 > 0 {
            num_rows(vs0, c0)
        } else {
            0
        };
        proof {
            if c0 > 0 {
                lemma_fundamental_div_mod(vs0.len() as int, c0);
            }
        }
        let mut b = self;
        let mut out: Vec<(T, usize, Vec<(T, usize)>)> = Vec::new();
        while b.labels.len() > 0
            invariant
                out@.len() + b.labels_view().len() == ls0.len(),
                b.labels_view() == state_at(ls0, vs0, out@.len() as int).0,
                b.votes_view() == state_at(ls0, vs0, out@.len() as int).1,
                b.votes_view().len() == nrows * b.labels_view().len(),
                forall|k: int|
                    0 <= k < out@.len() ==> round_reported(
                        state_at(ls0, vs0, k).0,
                        state_at(ls0, vs0, k).1,
                        #[trigger] out@[k],
                    ),
            decreases b.labels_view().len(),
        {
            let c = b.count();
            let ghost k = out@.len() as int;
            let ghost lsk = state_at(ls0, vs0, k).0;
            let ghost vsk = state_at(ls0, vs0, k).1;
            proof {
                lemma_div_multiples_vanish(nrows, c as int);
                assert(c as int * nrows == nrows * c as int);
            }
            let tier = b.round_tallies();
            let ghost tierv = tier@;
            let w = leader_of(&tier);
            let winner_count = tier[w];
            b.rerank(w);
            let winner_label = b.remove_column(w);
            proof {
                lemma_div_multiples_vanish(nrows, c as int);
            }
            let mut rest = tier;
            rest.remove(w);
            let mut others: Vec<(T, usize)> = Vec::new();
            let mut j: usize = 0;
            while j < b.labels.len()
                invariant
                    j <= b.labels_view().len(),
                    others@.len() == j,
                    forall|jj: int|
                        0 <= jj < j ==> (#[trigger] others@[jj]).0 == b.labels_view()[jj],
                    forall|jj: int| 0 <= jj < j ==> (#[trigger] others@[jj]).1 == rest@[jj],
                decreases b.labels_view().len() - j,
            {
                others.push((b.labels[j], rest[j]));
                j = j + 1;
            }
            out.push((winner_label, winner_count, others));
            proof {
                lemma_usize_ints_remove(tierv, w as int);
                assert(state_at(ls0, vs0, k + 1) == (
                    crate::model::step_labels(lsk, vsk),
                    crate::model::step_votes(lsk, vsk),
                ));
                assert(round_reported(lsk, vsk, (winner_label, winner_count, others)));
                assert(b.votes_view().len() == nrows * b.labels_view().len()) by (nonlinear_arith)
                    requires
                        b.votes_view().len() == num_rows(rerank_spec(vsk, c as int, w as int), c as int) * (c - 1),
                        num_rows(rerank_spec(vsk, c as int, w as int), c as int) == nrows,
                        b.labels_view().len() == c - 1,
                ;
            }
        }
        out
    }
}

/// The leftmost index of a maximal tally: the engine's deterministic
/// tie-break.
#[verifier::loop_isolation(false)]
fn leader_of(t: &Vec<usize>) -> (w: usize)
    requires
        t@.len() > 0,
    ensures
        w < t@.len(),
        w as int == crate::model::leader(usize_ints(t@)),
{
    let mut best: usize = 0;
    let mut i: usize = 1;
    while i < t.len()
        invariant
            best < i <= t@.len(),
            forall|j: int| 0 <= j < i ==> (#[trigger] t@[j]) <= t@[best as int],
            forall|j: int| 0 <= j < best ==> (#[trigger] t@[j]) < t@[best as int],
        decreases t@.len() - i,
    {
        if t[i] > t[best] {
            best = i;
        }
        i = i + 1;
    }
    proof {
        lemma_leader_unique(usize_ints(t@), best as int);
    }
    best
}

} // verus!
