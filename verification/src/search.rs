//! The first number of a range that meets a condition.

use vstd::prelude::*;

verus! {

/// The least `n` with `lo <= n < hi` for which `p` holds, if there is one.
pub open spec fn first_from(lo: int, hi: int, p: spec_fn(int) -> bool) -> Option<int>
    decreases hi - lo,
{
    if lo >= hi {
        None
    } else if p(lo) {
        Some(lo)
    } else {
        first_from(lo + 1, hi, p)
    }
}

/// What `first_from` finds meets the condition and nothing before it does; it finds nothing only
/// if there is nothing.
pub proof fn lemma_first_from(lo: int, hi: int, p: spec_fn(int) -> bool)
    ensures
        match first_from(lo, hi, p) {
            Some(n) => lo <= n < hi && p(n) && forall|m: int| lo <= m < n ==> !#[trigger] p(m),
            None => forall|m: int| lo <= m < hi ==> !#[trigger] p(m),
        },
    decreases hi - lo,
{
    if lo < hi && !p(lo) {
        lemma_first_from(lo + 1, hi, p);
    }
}

/// The least number that meets the condition is the one that `first_from` finds.
pub proof fn lemma_first_is(lo: int, hi: int, p: spec_fn(int) -> bool, n: int)
    requires
        lo <= n < hi,
        p(n),
        forall|m: int| lo <= m < n ==> !#[trigger] p(m),
    ensures
        first_from(lo, hi, p) == Some(n),
{
    lemma_first_from(lo, hi, p);
}

} // verus!
