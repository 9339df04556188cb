//! Orderings of sample positions: an order-preserving integer key for IEEE-754
//! bit patterns, a stable argsort and a first-minimum search over such keys.
use vstd::prelude::*;

verus! {

/// The key of an IEEE-754 double given by its bit pattern: negative patterns
/// (sign bit set) have all bits flipped, the others get the sign bit set.
pub open spec fn spec_ordered_key(bits: u64) -> u64 {
    if bits >= 0x8000_0000_0000_0000u64 {
        !bits
    } else {
        bits | 0x8000_0000_0000_0000u64
    }
}

/// Maps the bit pattern of a double to an unsigned key whose natural order is the
/// IEEE-754 total order of the patterns (all negatives below all non-negatives,
/// larger magnitudes further from the middle).
pub fn ordered_key(bits: u64) -> (key: u64)
    ensures
        key == spec_ordered_key(bits),
{
    if bits >= 0x8000_0000_0000_0000u64 {
        !bits
    } else {
        bits | 0x8000_0000_0000_0000u64
    }
}

/// Index `i` comes before index `j` in the stable order of `keys`: a smaller key
/// first, and between equal keys the smaller index first.
pub open spec fn precedes(keys: Seq<u64>, i: int, j: int) -> bool {
    keys[i] < keys[j] || (keys[i] == keys[j] && i < j)
}

/// `order` lists every index of `keys` exactly once, in stable ascending order of
/// the keys.
pub open spec fn is_stable_order(keys: Seq<u64>, order: Seq<usize>) -> bool {
    &&& keys.len() <= usize::MAX
    &&& order.len() == keys.len()
    &&& forall|p: int| 0 <= p < order.len() ==> #[trigger] order[p] < keys.len()
    &&& forall|k: usize| k < keys.len() ==> #[trigger] order.contains(k)
    &&& forall|p: int, q: int|
        0 <= p < q < order.len() ==> precedes(keys, #[trigger] order[p] as int, #[trigger] order[q] as int)
}

/// `order` lists every index in `lo..hi` exactly once, in stable ascending order of
/// the keys.
pub open spec fn is_stable_order_of_range(keys: Seq<u64>, order: Seq<usize>, lo: int, hi: int) -> bool {
    &&& order.len() == hi - lo
    &&& forall|p: int| 0 <= p < order.len() ==> lo <= #[trigger] order[p] < hi
    &&& forall|k: usize| lo <= k < hi ==> #[trigger] order.contains(k)
    &&& forall|p: int, q: int|
        0 <= p < q < order.len() ==> precedes(keys, #[trigger] order[p] as int, #[trigger] order[q] as int)
}

/// The permutation that sorts `keys` ascending and keeps equal keys in their
/// original order (the order a stable sort of the positions produces), computed
/// by merge sort in O(n log n) comparisons.
pub fn argsort_stable(keys: &Vec<u64>) -> (order: Vec<usize>)
    ensures
        is_stable_order(keys@, order@),
        order.len() == keys.len(),
        forall|k: usize| k < keys.len() ==> #[trigger] order@.contains(k),
        forall|p: int, q: int|
            0 <= p < q < order.len() ==> keys@[#[trigger] order@[p] as int] <= keys@[#[trigger] order@[
                q] as int] && (keys@[order@[p] as int] == keys@[order@[q] as int] ==> order@[p]
                < order@[q]),
{
    let order = sort_range(keys, 0, keys.len());
    assert forall|k: usize| k < keys@.len() implies #[trigger] order@.contains(k) by {
        assert(0 <= k < keys.len());
    }
    order
}

/// Stable order of the indices `lo..hi`.
fn sort_range(keys: &Vec<u64>, lo: usize, hi: usize) -> (order: Vec<usize>)
    requires
        lo <= hi <= keys.len(),
    ensures
        is_stable_order_of_range(keys@, order@, lo as int, hi as int),
    decreases hi - lo,
{
    if hi - lo == 0 {
        Vec::new()
    } else if hi - lo == 1 {
        let mut one: Vec<usize> = Vec::new();
        one.push(lo);
        assert forall|k: usize| lo <= k < hi implies #[trigger] one@.contains(k) by {
            assert(one@[0] == k);
        }
        one
    } else {
        let mid: usize = lo + (hi - lo) / 2;
        let left = sort_range(keys, lo, mid);
        let right = sort_range(keys, mid, hi);
        merge_runs(keys, &left, &right, lo, mid, hi)
    }
}

/// Merges the stable order of `lo..mid` with that of `mid..hi`; on equal keys the
/// lower run, whose indices are smaller, goes first.
fn merge_runs(
    keys: &Vec<u64>,
    left: &Vec<usize>,
    right: &Vec<usize>,
    lo: usize,
    mid: usize,
    hi: usize,
) -> (order: Vec<usize>)
    requires
        lo <= mid <= hi <= keys.len(),
        is_stable_order_of_range(keys@, left@, lo as int, mid as int),
        is_stable_order_of_range(keys@, right@, mid as int, hi as int),
    ensures
        is_stable_order_of_range(keys@, order@, lo as int, hi as int),
{
    let mut out: Vec<usize> = Vec::new();
    let mut i: usize = 0;
    let mut j: usize = 0;
    while i < left.len() || j < right.len()
        invariant
            lo <= mid <= hi <= keys.len(),
            is_stable_order_of_range(keys@, left@, lo as int, mid as int),
            is_stable_order_of_range(keys@, right@, mid as int, hi as int),
            i <= left.len(),
            j <= right.len(),
            out.len() == i + j,
            forall|p: int| 0 <= p < out.len() ==> lo <= #[trigger] out@[p] < hi,
            forall|s: int| 0 <= s < i ==> out@.contains(#[trigger] left@[s]),
            forall|t: int| 0 <= t < j ==> out@.contains(#[trigger] right@[t]),
            forall|p: int, q: int|
                0 <= p < q < out.len() ==> precedes(keys@, #[trigger] out@[p] as int, #[trigger] out@[q] as int),
            out.len() > 0 && i < left.len() ==> precedes(keys@, out@.last() as int, left@[i as int] as int),
            out.len() > 0 && j < right.len() ==> precedes(keys@, out@.last() as int, right@[j as int] as int),
        decreases left.len() + right.len() - i - j,
    {
        let ghost before = out@;
        let take_left: bool = j >= right.len() || (i < left.len() && keys[left[i]] <= keys[right[j]]);
        let next: usize = if take_left {
            left[i]
        } else {
            right[j]
        };
        proof {
            if take_left {
                if i + 1 < left.len() {
                    assert(precedes(keys@, left@[i as int] as int, left@[i + 1] as int));
                }
            } else {
                if j + 1 < right.len() {
                    assert(precedes(keys@, right@[j as int] as int, right@[j + 1] as int));
                }
            }
        }
        out.push(next);
        proof {
            assert(out@.last() == next);
            assert forall|p: int, q: int| 0 <= p < q < out@.len() implies precedes(
                keys@,
                #[trigger] out@[p] as int,
                #[trigger] out@[q] as int,
            ) by {
                if q == out@.len() - 1 && p < q - 1 {
                    assert(precedes(keys@, before[p] as int, before.last() as int));
                }
            }
            assert forall|s: int| 0 <= s < i + (if take_left { 1int } else { 0int }) implies out@.contains(
                #[trigger] left@[s],
            ) by {
                if s < i {
                    let w = choose|w: int| 0 <= w < before.len() && before[w] == left@[s];
                    assert(out@[w] == left@[s]);
                } else {
                    assert(out@[out@.len() - 1] == left@[s]);
                }
            }
            assert forall|t: int| 0 <= t < j + (if take_left { 0int } else { 1int }) implies out@.contains(
                #[trigger] right@[t],
            ) by {
                if t < j {
                    let w = choose|w: int| 0 <= w < before.len() && before[w] == right@[t];
                    assert(out@[w] == right@[t]);
                } else {
                    assert(out@[out@.len() - 1] == right@[t]);
                }
            }
        }
        if take_left {
            i = i + 1;
        } else {
            j = j + 1;
        }
    }
    proof {
        assert forall|k: usize| lo <= k < hi implies #[trigger] out@.contains(k) by {
            if k < mid {
                assert(left@.contains(k));
                let s = choose|s: int| 0 <= s < left@.len() && left@[s] == k;
                assert(out@.contains(left@[s]));
            } else {
                assert(right@.contains(k));
                let t = choose|t: int| 0 <= t < right@.len() && right@[t] == k;
                assert(out@.contains(right@[t]));
            }
        }
    }
    out
}

/// `m` is an index of a smallest key, and no earlier index holds that key.
pub open spec fn is_first_minimum(keys: Seq<u64>, m: int) -> bool {
    &&& 0 <= m < keys.len()
    &&& forall|j: int| 0 <= j < keys.len() ==> keys[m] <= #[trigger] keys[j]
    &&& forall|j: int| 0 <= j < m ==> keys[m] < #[trigger] keys[j]
}

/// The index of the first smallest key, or `None` for an empty list (the element
/// that a first-wins minimum search over the positions picks).
pub fn argmin_first(keys: &Vec<u64>) -> (m: Option<usize>)
    ensures
        m is None <==> keys.len() == 0,
        m matches Some(i) ==> is_first_minimum(keys@, i as int),
        m matches Some(i) ==> i < keys.len() && (forall|j: int|
            0 <= j < keys.len() ==> keys@[i as int] <= #[trigger] keys@[j]) && (forall|j: int|
            0 <= j < i ==> keys@[i as int] < #[trigger] keys@[j]),
{
    if keys.len() == 0 {
        return None;
    }
    let mut best: usize = 0;
    let mut j: usize = 1;
    while j < keys.len()
        invariant
            1 <= j <= keys.len(),
            best < j,
            forall|t: int| 0 <= t < j ==> keys@[best as int] <= #[trigger] keys@[t],
            forall|t: int| 0 <= t < best ==> keys@[best as int] < #[trigger] keys@[t],
        decreases keys.len() - j,
    {
        if keys[j] < keys[best] {
            best = j;
        }
        j = j + 1;
    }
    Some(best)
}

/// The key order is the IEEE-754 total order of the bit patterns: among
/// non-negative patterns it follows the patterns, among negative patterns it
/// reverses them, and every negative pattern lies below every non-negative one.
/// In particular distinct patterns get distinct keys.
pub proof fn lemma_ordered_key_order(a: u64, b: u64)
    ensures
        a < 0x8000_0000_0000_0000u64 && b < 0x8000_0000_0000_0000u64 ==> (a < b
            <==> spec_ordered_key(a) < spec_ordered_key(b)),
        a >= 0x8000_0000_0000_0000u64 && b >= 0x8000_0000_0000_0000u64 ==> (a < b
            <==> spec_ordered_key(b) < spec_ordered_key(a)),
        a >= 0x8000_0000_0000_0000u64 && b < 0x8000_0000_0000_0000u64 ==> spec_ordered_key(a)
            < spec_ordered_key(b),
        a != b ==> spec_ordered_key(a) != spec_ordered_key(b),
{
    assert(a < 0x8000_0000_0000_0000u64 && b < 0x8000_0000_0000_0000u64 ==> (a < b
        <==> spec_ordered_key(a) < spec_ordered_key(b))) by (bit_vector);
    assert(a >= 0x8000_0000_0000_0000u64 && b >= 0x8000_0000_0000_0000u64 ==> (a < b
        <==> spec_ordered_key(b) < spec_ordered_key(a))) by (bit_vector);
    assert(a >= 0x8000_0000_0000_0000u64 && b < 0x8000_0000_0000_0000u64 ==> spec_ordered_key(a)
        < spec_ordered_key(b)) by (bit_vector);
    assert(a != b ==> spec_ordered_key(a) != spec_ordered_key(b)) by (bit_vector);
}

/// The stable order of a list of keys is unique: two orders that both list every
/// index once in stable ascending key order are the same sequence.
pub proof fn lemma_stable_order_unique(keys: Seq<u64>, o1: Seq<usize>, o2: Seq<usize>)
    requires
        is_stable_order(keys, o1),
        is_stable_order(keys, o2),
    ensures
        o1 == o2,
{
    lemma_stable_order_prefix(keys, o1, o2, o1.len() as int);
    assert(o1 =~= o2);
}

proof fn lemma_stable_order_prefix(keys: Seq<u64>, o1: Seq<usize>, o2: Seq<usize>, p: int)
    requires
        is_stable_order(keys, o1),
        is_stable_order(keys, o2),
        0 <= p <= o1.len(),
    ensures
        forall|q: int| 0 <= q < p ==> #[trigger] o1[q] == o2[q],
    decreases p,
{
    if p > 0 {
        let r: int = p - 1;
        lemma_stable_order_prefix(keys, o1, o2, r);
        let a: usize = o1[r];
        let b: usize = o2[r];
        if a != b {
            assert(o2.contains(a));
            let w = choose|w: int| 0 <= w < o2.len() && o2[w] == a;
            assert(o1.contains(b));
            let v = choose|v: int| 0 <= v < o1.len() && o1[v] == b;
            if w < r {
                assert(o1[w] == a);
                assert(precedes(keys, o1[w] as int, o1[r] as int));
            }
            if v < r {
                assert(o2[v] == b);
                assert(precedes(keys, o2[v] as int, o2[r] as int));
            }
            assert(precedes(keys, o2[r] as int, o2[w] as int));
            assert(precedes(keys, o1[r] as int, o1[v] as int));
        }
    }
}

/// The first entry of the stable order is the first minimum: sorting stably and
/// taking the front picks the same index as a first-wins minimum search.
pub proof fn lemma_stable_order_front_is_first_minimum(keys: Seq<u64>, order: Seq<usize>)
    requires
        is_stable_order(keys, order),
        keys.len() > 0,
    ensures
        is_first_minimum(keys, order[0] as int),
{
    let m: int = order[0] as int;
    assert forall|j: int| 0 <= j < keys.len() implies keys[m] <= #[trigger] keys[j] && (j < m
        ==> keys[m] < keys[j]) by {
        assert(order.contains(j as usize));
        let w = choose|w: int| 0 <= w < order.len() && order[w] == j as usize;
        assert(order[w] as int == j);
        if w > 0 {
            assert(precedes(keys, order[0] as int, order[w] as int));
        }
    }
}

} // verus!
