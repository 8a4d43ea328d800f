//! Searching a range of positions for the first one with a property.
use vstd::prelude::*;

verus! {

/// The first index `k` in `i..n` with `pred(k)`, or `n` if there is none.
pub open spec fn first_index(pred: spec_fn(int) -> bool, i: int, n: int) -> int
    decreases n - i,
{
    if i >= n {
        n
    } else if pred(i) {
        i
    } else {
        first_index(pred, i + 1, n)
    }
}

/// `first_index` finds the first index that has the property.
pub proof fn lemma_first_index(pred: spec_fn(int) -> bool, i: int, n: int)
    requires
        i <= n,
    ensures
        i <= first_index(pred, i, n) <= n,
        first_index(pred, i, n) < n ==> pred(first_index(pred, i, n)),
        forall|k: int| i <= k < first_index(pred, i, n) ==> !#[trigger] pred(k),
    decreases n - i,
{
    if i < n && !pred(i) {
        lemma_first_index(pred, i + 1, n);
    }
}

} // verus!
