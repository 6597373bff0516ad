//! The first index of a range at which a predicate holds, as a mathematical
//! definition, with the facts that tie it to a left-to-right scan.
use vstd::prelude::*;

verus! {

/// `i` is the first index below `n` at which `p` holds.
pub open spec fn is_first_where(n: int, p: spec_fn(int) -> bool, i: int) -> bool {
    &&& 0 <= i < n
    &&& p(i)
    &&& forall|j: int| 0 <= j < i ==> !#[trigger] p(j)
}

/// The first index below `n` at which `p` holds, or `None` where there is none.
pub open spec fn first_where(n: int, p: spec_fn(int) -> bool) -> Option<int> {
    if exists|i: int| is_first_where(n, p, i) {
        Some(choose|i: int| is_first_where(n, p, i))
    } else {
        None
    }
}

/// A scan that stops at `i` has found `first_where`.
pub proof fn lemma_first_where_is(n: int, p: spec_fn(int) -> bool, i: int)
    requires
        is_first_where(n, p, i),
    ensures
        first_where(n, p) == Some(i),
{
    let k = choose|k: int| is_first_where(n, p, k);
    assert(is_first_where(n, p, k));
    if k < i {
        assert(!p(k));
    }
    if i < k {
        assert(!p(i));
    }
}

/// A scan that finds nothing below `n` has found `first_where`.
pub proof fn lemma_first_where_none(n: int, p: spec_fn(int) -> bool)
    requires
        forall|j: int| 0 <= j < n ==> !#[trigger] p(j),
    ensures
        first_where(n, p) == None::<int>,
{
}

/// Where `p` holds at `i`, `first_where` is an index at or before `i`.
pub proof fn lemma_first_where_some(n: int, p: spec_fn(int) -> bool, i: int)
    requires
        0 <= i < n,
        p(i),
    ensures
        first_where(n, p) matches Some(k) && is_first_where(n, p, k) && k <= i,
    decreases i,
{
    if forall|j: int| 0 <= j < i ==> !#[trigger] p(j) {
        lemma_first_where_is(n, p, i);
    } else {
        let j = choose|j: int| 0 <= j < i && #[trigger] p(j);
        lemma_first_where_some(n, p, j);
    }
}

} // verus!
