//! Small helpers shared by the retrieval code.

use vstd::prelude::*;

use crate::ScoreType;

verus! {

/// The largest score in `scores`, and at least `threshold`.
pub fn determine_max(scores: &[ScoreType], threshold: ScoreType) -> (r: ScoreType)
    requires
        scores@.len() > 0,
    ensures
        r >= threshold,
        forall|i: int| 0 <= i < scores@.len() ==> #[trigger] scores@[i] <= r,
        r == threshold || exists|i: int| 0 <= i < scores@.len() && #[trigger] scores@[i] == r,
{
    let mut best: ScoreType = threshold;
    let mut i: usize = 0;
    while i < scores.len()
        invariant
            i <= scores@.len(),
            best >= threshold,
            forall|j: int| 0 <= j < i ==> #[trigger] scores@[j] <= best,
            best == threshold || exists|j: int|
                0 <= j < scores@.len() && #[trigger] scores@[j] == best,
        decreases scores@.len() - i,
    {
        let s = scores[i];
        if s > best {
            best = s;
        }
        i = i + 1;
    }
    best
}

} // verus!
