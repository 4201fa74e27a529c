//! Finding the first match.

use vstd::prelude::*;

verus! {

/// The least number below `n` that satisfies `p`.
pub open spec fn first_below(p: spec_fn(int) -> bool, n: int) -> Option<int>
    decreases n,
{
    if n <= 0 {
        None
    } else {
        match first_below(p, n - 1) {
            Some(k) => Some(k),
            None => if p(n - 1) {
                Some(n - 1)
            } else {
                None
            },
        }
    }
}

/// A first match stays the first match when the search goes further.
pub proof fn lemma_first_below_stays(p: spec_fn(int) -> bool, k: int, n: int)
    requires
        0 <= k < n,
        p(k),
        first_below(p, k) is None,
    ensures
        first_below(p, n) == Some(k),
    decreases n,
{
    if n > k + 1 {
        lemma_first_below_stays(p, k, n - 1);
    }
}

/// The first match is the least number that matches, and there is none
/// exactly when nothing matches.
pub proof fn lemma_first_below(p: spec_fn(int) -> bool, n: int)
    ensures
        match first_below(p, n) {
            Some(k) => 0 <= k < n && p(k) && forall|j: int| 0 <= j < k ==> !#[trigger] p(j),
            None => forall|j: int| 0 <= j < n ==> !#[trigger] p(j),
        },
    decreases n,
{
    if n > 0 {
        lemma_first_below(p, n - 1);
    }
}

} // verus!
