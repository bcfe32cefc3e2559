//! The first index at which a predicate holds, which is how every "the first
//! offending entry is reported" rule of this library is stated.

use vstd::prelude::*;

verus! {

/// The least index in `[i, n)` at which `p` holds, or `n` when none does.
pub open spec fn first_from(p: spec_fn(int) -> bool, i: int, n: int) -> int
    decreases n - i,
{
    if i >= n {
        n
    } else if p(i) {
        i
    } else {
        first_from(p, i + 1, n)
    }
}

/// The least index below `n` at which `p` holds, or `n`.
pub open spec fn first_index(p: spec_fn(int) -> bool, n: int) -> int {
    first_from(p, 0, n)
}

/// The first place from `i` on where `p` holds, or `n`, and nowhere before it.
pub proof fn lemma_first_from(p: spec_fn(int) -> bool, i: int, n: int)
    requires
        i <= n,
    ensures
        i <= first_from(p, i, n) <= n,
        first_from(p, i, n) < n ==> p(first_from(p, i, n)),
        forall|j: int| i <= j < first_from(p, i, n) ==> !#[trigger] p(j),
    decreases n - i,
{
    if i < n && !p(i) {
        lemma_first_from(p, i + 1, n);
    }
}

/// What characterises the first index: `p` fails below it and holds at it.
pub proof fn lemma_first_index(p: spec_fn(int) -> bool, n: int)
    requires
        0 <= n,
    ensures
        0 <= first_index(p, n) <= n,
        first_index(p, n) < n ==> p(first_index(p, n)),
        forall|j: int| 0 <= j < first_index(p, n) ==> !#[trigger] p(j),
{
    lemma_first_from(p, 0, n);
}

/// Any index satisfying the characterisation is the first index.
pub proof fn lemma_first_index_unique(p: spec_fn(int) -> bool, n: int, k: int)
    requires
        0 <= k <= n,
        k < n ==> p(k),
        forall|j: int| 0 <= j < k ==> !#[trigger] p(j),
    ensures
        first_index(p, n) == k,
{
    lemma_first_index(p, n);
    let f = first_index(p, n);
    if f < k {
        assert(!p(f));
    } else if k < f {
        assert(!p(k));
    }
}

} // verus!
