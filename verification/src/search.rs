//! Searches over sequences of order keys: first/last index meeting a threshold,
//! first minimum, first and last maximum, binary searches.
use vstd::prelude::*;

verus! {

/// How a sample is compared with a threshold.
#[derive(Clone, Copy, Debug, PartialEq, Eq, Structural)]
pub enum Rel {
    /// sample < threshold
    Below,
    /// sample <= threshold
    AtMost,
    /// sample >= threshold
    AtLeast,
    /// sample > threshold
    Above,
}

/// Whether `v` stands in relation `rel` to the threshold `t`.
pub open spec fn holds(v: i64, rel: Rel, t: i64) -> bool {
    match rel {
        Rel::Below => v < t,
        Rel::AtMost => v <= t,
        Rel::AtLeast => v >= t,
        Rel::Above => v > t,
    }
}

/// An optional index seen as a mathematical integer.
pub open spec fn opt_int(o: Option<usize>) -> Option<int> {
    match o {
        Some(j) => Some(j as int),
        None => None,
    }
}

/// The first index in `[lo, hi)` whose sample stands in relation `rel` to `t`.
pub open spec fn first_where(y: Seq<i64>, lo: int, hi: int, rel: Rel, t: i64) -> Option<int>
    decreases hi - lo,
{
    if lo >= hi {
        None
    } else if holds(y[lo], rel, t) {
        Some(lo)
    } else {
        first_where(y, lo + 1, hi, rel, t)
    }
}

/// The last index in `[lo, hi)` whose sample stands in relation `rel` to `t`.
pub open spec fn last_where(y: Seq<i64>, lo: int, hi: int, rel: Rel, t: i64) -> Option<int>
    decreases hi - lo,
{
    if lo >= hi {
        None
    } else if holds(y[hi - 1], rel, t) {
        Some(hi - 1)
    } else {
        last_where(y, lo, hi - 1, rel, t)
    }
}

/// What `first_where` is: the index where the relation first holds, or none.
pub proof fn lemma_first_where(y: Seq<i64>, lo: int, hi: int, rel: Rel, t: i64)
    ensures
        match first_where(y, lo, hi, rel, t) {
            Some(j) => lo <= j < hi && holds(y[j], rel, t) && forall|k: int|
                lo <= k < j ==> !holds(#[trigger] y[k], rel, t),
            None => forall|k: int| lo <= k < hi ==> !holds(#[trigger] y[k], rel, t),
        },
    decreases hi - lo,
{
    if lo < hi && !holds(y[lo], rel, t) {
        lemma_first_where(y, lo + 1, hi, rel, t);
    }
}

/// What `last_where` is: the index where the relation last holds, or none.
pub proof fn lemma_last_where(y: Seq<i64>, lo: int, hi: int, rel: Rel, t: i64)
    ensures
        match last_where(y, lo, hi, rel, t) {
            Some(j) => lo <= j < hi && holds(y[j], rel, t) && forall|k: int|
                j < k < hi ==> !holds(#[trigger] y[k], rel, t),
            None => forall|k: int| lo <= k < hi ==> !holds(#[trigger] y[k], rel, t),
        },
    decreases hi - lo,
{
    if lo < hi && !holds(y[hi - 1], rel, t) {
        lemma_last_where(y, lo, hi - 1, rel, t);
    }
}

/// Skipping a prefix on which the relation fails does not change the first match.
proof fn lemma_first_where_skip(y: Seq<i64>, lo: int, mid: int, hi: int, rel: Rel, t: i64)
    requires
        lo <= mid <= hi,
        forall|k: int| lo <= k < mid ==> !holds(#[trigger] y[k], rel, t),
    ensures
        first_where(y, lo, hi, rel, t) == first_where(y, mid, hi, rel, t),
    decreases mid - lo,
{
    if lo < mid {
        lemma_first_where_skip(y, lo + 1, mid, hi, rel, t);
    }
}

/// Skipping a suffix on which the relation fails does not change the last match.
proof fn lemma_last_where_skip(y: Seq<i64>, lo: int, mid: int, hi: int, rel: Rel, t: i64)
    requires
        lo <= mid <= hi,
        forall|k: int| mid <= k < hi ==> !holds(#[trigger] y[k], rel, t),
    ensures
        last_where(y, lo, hi, rel, t) == last_where(y, lo, mid, rel, t),
    decreases hi - mid,
{
    if mid < hi {
        lemma_last_where_skip(y, lo, mid, hi - 1, rel, t);
    }
}

fn holds_exec(v: i64, rel: Rel, t: i64) -> (r: bool)
    ensures
        r == holds(v, rel, t),
{
    match rel {
        Rel::Below => v < t,
        Rel::AtMost => v <= t,
        Rel::AtLeast => v >= t,
        Rel::Above => v > t,
    }
}

/// First index in `[lo, hi)` whose sample stands in relation `rel` to `t`.
pub fn first_index(y: &[i64], lo: usize, hi: usize, rel: Rel, t: i64) -> (r: Option<usize>)
    requires
        lo <= hi <= y.len(),
    ensures
        opt_int(r) == first_where(y@, lo as int, hi as int, rel, t),
{
    let mut i = lo;
    while i < hi
        invariant
            lo <= i <= hi <= y.len(),
            forall|k: int| lo <= k < i ==> !holds(#[trigger] y@[k], rel, t),
        decreases hi - i,
    {
        if holds_exec(y[i], rel, t) {
            proof {
                lemma_first_where_skip(y@, lo as int, i as int, hi as int, rel, t);
            }
            return Some(i);
        }
        i += 1;
    }
    proof {
        lemma_first_where_skip(y@, lo as int, hi as int, hi as int, rel, t);
    }
    None
}

/// Last index in `[lo, hi)` whose sample stands in relation `rel` to `t`.
pub fn last_index(y: &[i64], lo: usize, hi: usize, rel: Rel, t: i64) -> (r: Option<usize>)
    requires
        lo <= hi <= y.len(),
    ensures
        opt_int(r) == last_where(y@, lo as int, hi as int, rel, t),
{
    let mut i = hi;
    while i > lo
        invariant
            lo <= i <= hi <= y.len(),
            forall|k: int| i <= k < hi ==> !holds(#[trigger] y@[k], rel, t),
        decreases i - lo,
    {
        if holds_exec(y[i - 1], rel, t) {
            proof {
                lemma_last_where_skip(y@, lo as int, i as int, hi as int, rel, t);
            }
            return Some(i - 1);
        }
        i -= 1;
    }
    proof {
        lemma_last_where_skip(y@, lo as int, lo as int, hi as int, rel, t);
    }
    None
}

/// Number of leading samples strictly below `t` (the index of the first sample
/// at or above `t`, or the length when there is none).
pub open spec fn count_below_spec(y: Seq<i64>, t: i64) -> int {
    match first_where(y, 0, y.len() as int, Rel::AtLeast, t) {
        Some(j) => j,
        None => y.len() as int,
    }
}

/// Number of leading samples strictly below `t`.
pub fn count_below(y: &[i64], t: i64) -> (r: usize)
    ensures
        r == count_below_spec(y@, t),
        r <= y.len(),
        forall|k: int| 0 <= k < r ==> #[trigger] y@[k] < t,
        r < y.len() ==> y@[r as int] >= t,
{
    proof {
        lemma_first_where(y@, 0, y.len() as int, Rel::AtLeast, t);
    }
    match first_index(y, 0, y.len(), Rel::AtLeast, t) {
        Some(j) => j,
        None => y.len(),
    }
}

/// The first position of the minimum over `[lo, hi)`.
pub open spec fn argmin_first_spec(y: Seq<i64>, lo: int, hi: int) -> int
    decreases hi - lo,
{
    if hi - lo <= 1 {
        lo
    } else {
        let m = argmin_first_spec(y, lo, hi - 1);
        if y[hi - 1] < y[m] {
            hi - 1
        } else {
            m
        }
    }
}

/// The last position of the maximum over `[lo, hi)`.
pub open spec fn argmax_last_spec(y: Seq<i64>, lo: int, hi: int) -> int
    decreases hi - lo,
{
    if hi - lo <= 1 {
        lo
    } else {
        let m = argmax_last_spec(y, lo, hi - 1);
        if y[hi - 1] >= y[m] {
            hi - 1
        } else {
            m
        }
    }
}

/// The first position of the maximum over `[lo, hi)`.
pub open spec fn argmax_first_spec(y: Seq<i64>, lo: int, hi: int) -> int
    decreases hi - lo,
{
    if hi - lo <= 1 {
        lo
    } else {
        let m = argmax_first_spec(y, lo, hi - 1);
        if y[hi - 1] > y[m] {
            hi - 1
        } else {
            m
        }
    }
}

/// `argmin_first_spec` is the first position holding the minimum.
pub proof fn lemma_argmin_first(y: Seq<i64>, lo: int, hi: int)
    requires
        lo < hi,
    ensures
        lo <= argmin_first_spec(y, lo, hi) < hi,
        forall|k: int| lo <= k < hi ==> y[argmin_first_spec(y, lo, hi)] <= #[trigger] y[k],
        forall|k: int| lo <= k < argmin_first_spec(y, lo, hi) ==> y[argmin_first_spec(y, lo, hi)] < #[trigger] y[k],
    decreases hi - lo,
{
    if hi - lo > 1 {
        lemma_argmin_first(y, lo, hi - 1);
    }
}

/// `argmax_last_spec` is the last position holding the maximum.
pub proof fn lemma_argmax_last(y: Seq<i64>, lo: int, hi: int)
    requires
        lo < hi,
    ensures
        lo <= argmax_last_spec(y, lo, hi) < hi,
        forall|k: int| lo <= k < hi ==> #[trigger] y[k] <= y[argmax_last_spec(y, lo, hi)],
        forall|k: int| argmax_last_spec(y, lo, hi) < k < hi ==> #[trigger] y[k] < y[argmax_last_spec(y, lo, hi)],
    decreases hi - lo,
{
    if hi - lo > 1 {
        lemma_argmax_last(y, lo, hi - 1);
    }
}

/// `argmax_first_spec` is the first position holding the maximum.
pub proof fn lemma_argmax_first(y: Seq<i64>, lo: int, hi: int)
    requires
        lo < hi,
    ensures
        lo <= argmax_first_spec(y, lo, hi) < hi,
        forall|k: int| lo <= k < hi ==> #[trigger] y[k] <= y[argmax_first_spec(y, lo, hi)],
        forall|k: int| lo <= k < argmax_first_spec(y, lo, hi) ==> #[trigger] y[k] < y[argmax_first_spec(y, lo, hi)],
    decreases hi - lo,
{
    if hi - lo > 1 {
        lemma_argmax_first(y, lo, hi - 1);
    }
}

/// First position of the minimum over `[lo, hi)` (what `Iterator::min_by` returns).
pub fn argmin_first(y: &[i64], lo: usize, hi: usize) -> (r: usize)
    requires
        lo < hi <= y.len(),
    ensures
        r == argmin_first_spec(y@, lo as int, hi as int),
        lo <= r < hi,
        forall|k: int| lo <= k < hi ==> y@[r as int] <= #[trigger] y@[k],
        forall|k: int| lo <= k < r ==> y@[r as int] < #[trigger] y@[k],
{
    let mut best = lo;
    let mut i = lo + 1;
    while i < hi
        invariant
            lo < i <= hi <= y.len(),
            best == argmin_first_spec(y@, lo as int, i as int),
        decreases hi - i,
    {
        proof {
            lemma_argmin_first(y@, lo as int, i as int);
        }
        if y[i] < y[best] {
            best = i;
        }
        i += 1;
    }
    proof {
        lemma_argmin_first(y@, lo as int, hi as int);
    }
    best
}

/// Last position of the maximum over `[lo, hi)` (what `Iterator::max_by` returns).
pub fn argmax_last(y: &[i64], lo: usize, hi: usize) -> (r: usize)
    requires
        lo < hi <= y.len(),
    ensures
        r == argmax_last_spec(y@, lo as int, hi as int),
        lo <= r < hi,
        forall|k: int| lo <= k < hi ==> #[trigger] y@[k] <= y@[r as int],
        forall|k: int| r < k < hi ==> #[trigger] y@[k] < y@[r as int],
{
    let mut best = lo;
    let mut i = lo + 1;
    while i < hi
        invariant
            lo < i <= hi <= y.len(),
            best == argmax_last_spec(y@, lo as int, i as int),
        decreases hi - i,
    {
        proof {
            lemma_argmax_last(y@, lo as int, i as int);
        }
        if y[i] >= y[best] {
            best = i;
        }
        i += 1;
    }
    proof {
        lemma_argmax_last(y@, lo as int, hi as int);
    }
    best
}

/// First position of the maximum over `[lo, hi)`: a later sample replaces the
/// current best only when strictly greater.
pub fn argmax_first(y: &[i64], lo: usize, hi: usize) -> (r: usize)
    requires
        lo < hi <= y.len(),
    ensures
        r == argmax_first_spec(y@, lo as int, hi as int),
        lo <= r < hi,
        forall|k: int| lo <= k < hi ==> #[trigger] y@[k] <= y@[r as int],
        forall|k: int| lo <= k < r ==> #[trigger] y@[k] < y@[r as int],
{
    let mut best = lo;
    let mut i = lo + 1;
    while i < hi
        invariant
            lo < i <= hi <= y.len(),
            best == argmax_first_spec(y@, lo as int, i as int),
        decreases hi - i,
    {
        proof {
            lemma_argmax_first(y@, lo as int, i as int);
        }
        if y[i] > y[best] {
            best = i;
        }
        i += 1;
    }
    proof {
        lemma_argmax_first(y@, lo as int, hi as int);
    }
    best
}

/// The samples below `t` form a prefix (what a binary search needs).
pub open spec fn partitioned_below(y: Seq<i64>, t: i64) -> bool {
    forall|i: int, j: int| 0 <= i <= j < y.len() && #[trigger] y[j] < t ==> #[trigger] y[i] < t
}

/// Result of the binary search of [`partition_point`] on `[lo, hi)`: probe the
/// middle, continue right of it when its sample is below `t`, else left of it.
/// On a partitioned slice this is the number of leading samples below `t`.
pub open spec fn partition_search(y: Seq<i64>, t: i64, lo: int, hi: int) -> int
    decreases hi - lo,
{
    if lo >= hi {
        lo
    } else {
        let mid = lo + (hi - lo) / 2;
        if y[mid] < t {
            partition_search(y, t, mid + 1, hi)
        } else {
            partition_search(y, t, lo, mid)
        }
    }
}

/// Binary search for the number of leading samples below `t`
/// (what `slice::partition_point(|x| x < t)` returns).
pub fn partition_point(y: &[i64], t: i64) -> (r: usize)
    ensures
        r == partition_search(y@, t, 0, y.len() as int),
        r <= y.len(),
        partitioned_below(y@, t) ==> forall|k: int| 0 <= k < r ==> #[trigger] y@[k] < t,
        partitioned_below(y@, t) ==> forall|k: int| r <= k < y.len() ==> #[trigger] y@[k] >= t,
{
    let mut lo: usize = 0;
    let mut hi: usize = y.len();
    while lo < hi
        invariant
            lo <= hi <= y.len(),
            partition_search(y@, t, lo as int, hi as int) == partition_search(y@, t, 0, y.len() as int),
            partitioned_below(y@, t) ==> forall|k: int| 0 <= k < lo ==> #[trigger] y@[k] < t,
            partitioned_below(y@, t) ==> forall|k: int| hi <= k < y.len() ==> #[trigger] y@[k] >= t,
        decreases hi - lo,
    {
        let mid = lo + (hi - lo) / 2;
        if y[mid] < t {
            assert(partitioned_below(y@, t) ==> forall|k: int| 0 <= k <= mid ==> #[trigger] y@[k] < t) by {
                if partitioned_below(y@, t) {
                    assert forall|k: int| 0 <= k <= mid implies #[trigger] y@[k] < t by {
                        assert(y@[mid as int] < t);
                    }
                }
            }
            lo = mid + 1;
        } else {
            hi = mid;
        }
    }
    lo
}

/// Positions, in increasing order, of the samples among the first `n` of `y` that
/// lie at or above `t`.
pub open spec fn positions_upto(y: Seq<i64>, t: i64, n: int) -> Seq<usize>
    decreases n,
{
    if n <= 0 {
        Seq::empty()
    } else if y[n - 1] >= t {
        positions_upto(y, t, n - 1).push((n - 1) as usize)
    } else {
        positions_upto(y, t, n - 1)
    }
}

/// Whether the sample at a position lies at or above `t`.
pub open spec fn at_least(y: Seq<i64>, t: i64) -> spec_fn(usize) -> bool {
    |p: usize| y[p as int] >= t
}

/// Raising a threshold only drops positions: what the higher threshold `t2` keeps
/// is exactly what the lower threshold `t1` keeps, filtered by `t2`, in the same order.
pub proof fn lemma_positions_monotone(y: Seq<i64>, t1: i64, t2: i64, n: int)
    requires
        t1 <= t2,
        n <= y.len() <= usize::MAX,
    ensures
        positions_upto(y, t2, n) == positions_upto(y, t1, n).filter(at_least(y, t2)),
    decreases n,
{
    reveal(Seq::filter);
    if n <= 0 {
        assert(positions_upto(y, t1, n).filter(at_least(y, t2)) =~= Seq::<usize>::empty());
    } else {
        lemma_positions_monotone(y, t1, t2, n - 1);
        let s1 = positions_upto(y, t1, n - 1);
        if y[n - 1] >= t1 {
            let x = (n - 1) as usize;
            assert(s1.push(x).drop_last() =~= s1);
            assert(s1.push(x).last() == x);
            assert(x as int == n - 1);
        }
    }
}

/// Positions, in increasing order, of the samples at or above `t` (what a
/// threshold filter keeps).
pub fn positions_at_least(y: &[i64], t: i64) -> (r: Vec<usize>)
    ensures
        forall|i: int, j: int| 0 <= i < j < r.len() ==> #[trigger] r@[i] < #[trigger] r@[j],
        forall|k: int| 0 <= k < r.len() ==> #[trigger] r@[k] < y.len() && y@[r@[k] as int] >= t,
        forall|p: int| 0 <= p < y.len() ==> (#[trigger] r@.contains(p as usize) <==> y@[p] >= t),
        r@ == positions_upto(y@, t, y.len() as int),
{
    let mut r: Vec<usize> = Vec::new();
    let mut i: usize = 0;
    while i < y.len()
        invariant
            i <= y.len(),
            forall|a: int, b: int| 0 <= a < b < r.len() ==> #[trigger] r@[a] < #[trigger] r@[b],
            forall|k: int| 0 <= k < r.len() ==> #[trigger] r@[k] < i && y@[r@[k] as int] >= t,
            forall|p: int| 0 <= p < i ==> (#[trigger] r@.contains(p as usize) <==> y@[p] >= t),
            r@ == positions_upto(y@, t, i as int),
        decreases y.len() - i,
    {
        let ghost old_r = r@;
        if y[i] >= t {
            r.push(i);
            proof {
                assert(r@[old_r.len() as int] == i);
                assert forall|p: int| 0 <= p < i + 1 implies (#[trigger] r@.contains(p as usize) <==> y@[p] >= t) by {
                    if p < i {
                        if old_r.contains(p as usize) {
                            let w = choose|w: int| 0 <= w < old_r.len() && old_r[w] == p as usize;
                            assert(r@[w] == p as usize);
                        }
                        if r@.contains(p as usize) {
                            let w = choose|w: int| 0 <= w < r.len() && r@[w] == p as usize;
                            assert(w < old_r.len());
                            assert(old_r[w] == p as usize);
                        }
                    }
                }
            }
        } else {
            proof {
                assert forall|p: int| 0 <= p < i + 1 implies (#[trigger] r@.contains(p as usize) <==> y@[p] >= t) by {
                    if p == i && r@.contains(p as usize) {
                        let w = choose|w: int| 0 <= w < r.len() && r@[w] == p as usize;
                        assert(r@[w] < i);
                    }
                }
            }
        }
        i += 1;
    }
    r
}

} // verus!
