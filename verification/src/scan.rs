//! Scans over positions driven by a test on each index: advancing a cursor
//! while a test holds (the quantile cursors of one-dimensional matching) and
//! finding the first index that passes a test (quantile lookup).
use vstd::prelude::*;

verus! {

/// Moves a cursor forward from `start` while `holds` is true at the cursor and the
/// cursor is before `last`. The result is the first index from `start` on where
/// `holds` is false, or `last` if there is none before it.
pub fn advance_cursor<P>(start: usize, last: usize, holds: P) -> (r: usize) where
    P: Fn(usize) -> bool,

    requires
        start <= last,
        forall|t: usize| call_requires(holds, (t,)),
    ensures
        start <= r <= last,
        forall|t: usize| start <= t < r ==> call_ensures(holds, (t,), true),
        r < last ==> call_ensures(holds, (r,), false),
{
    let mut r: usize = start;
    while r < last && holds(r)
        invariant
            start <= r <= last,
            forall|t: usize| call_requires(holds, (t,)),
            forall|t: usize| start <= t < r ==> call_ensures(holds, (t,), true),
        decreases last - r,
    {
        r = r + 1;
    }
    r
}

/// The first index below `n` at which `passes` is true, or `None` if there is none.
pub fn first_passing<P>(n: usize, passes: P) -> (r: Option<usize>) where
    P: Fn(usize) -> bool,

    requires
        forall|t: usize| call_requires(passes, (t,)),
    ensures
        r matches Some(i) ==> i < n && call_ensures(passes, (i,), true),
        forall|t: usize|
            t < n && (r matches Some(i) ==> t < i) ==> call_ensures(passes, (t,), false),
{
    let mut t: usize = 0;
    while t < n
        invariant
            t <= n,
            forall|s: usize| call_requires(passes, (s,)),
            forall|s: usize| s < t ==> call_ensures(passes, (s,), false),
        decreases n - t,
    {
        if passes(t) {
            return Some(t);
        }
        t = t + 1;
    }
    None
}

} // verus!
