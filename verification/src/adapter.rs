//! Support for input adapters: rank-base normalization.
//!
//! Raw ballots often number ranks from `1` (or another base). The core
//! table wants zero-based ranks, so an adapter subtracts the configured
//! base from every raw rank before construction; a raw rank below the
//! base is an error, not a wrap-around.

use vstd::prelude::*;

verus! {

/// Subtracts `base` from every raw rank. Succeeds, with every value
/// shifted down by exactly `base`, if and only if no rank lies below the
/// base; otherwise reports the position of the first offending rank.
pub fn rebase_ranks(ranks: &Vec<usize>, base: usize) -> (r: Result<Vec<usize>, usize>)
    ensures
        match r {
            Ok(v) => {
                &&& v@.len() == ranks@.len()
                &&& forall|i: int| 0 <= i < ranks@.len() ==> (#[trigger] ranks@[i]) >= base
                &&& forall|i: int| 0 <= i < v@.len() ==> (#[trigger] v@[i]) == ranks@[i] - base
            },
            Err(j) => {
                &&& j < ranks@.len()
                &&& ranks@[j as int] < base
                &&& forall|i: int| 0 <= i < j ==> (#[trigger] ranks@[i]) >= base
            },
        },
{
    let mut out: Vec<usize> = Vec::new();
    let mut i: usize = 0;
    while i < ranks.len()
        invariant
            i <= ranks@.len(),
            out@.len() == i,
            forall|k: int| 0 <= k < i ==> (#[trigger] ranks@[k]) >= base,
            forall|k: int| 0 <= k < i ==> (#[trigger] out@[k]) == ranks@[k] - base,
        decreases ranks@.len() - i,
    {
        let x = ranks[i];
        if x < base {
            return Err(i);
        }
        out.push(x - base);
        i = i + 1;
    }
    Ok(out)
}

} // verus!
