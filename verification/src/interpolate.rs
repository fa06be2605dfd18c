//! Choice of the segment used for log-linear interpolation and extrapolation.
//!
//! Frequencies enter as order keys of their logarithms.
use vstd::prelude::*;
use crate::search::{
    partitioned_below, partition_point, partition_search, count_below_spec, first_where, Rel, lemma_first_where,
};

verus! {

/// Keys in non-decreasing order.
pub open spec fn non_decreasing(s: Seq<i64>) -> bool {
    forall|i: int, j: int| 0 <= i <= j < s.len() ==> #[trigger] s[i] <= #[trigger] s[j]
}

/// Final lower end of the bisection of [`bracket`] on `[lo, hi]`: while the ends
/// are more than one apart, probe the middle and move the lower end there when
/// its key is at or below `q`, else the upper end.
pub open spec fn bisect(keys: Seq<i64>, q: i64, lo: int, hi: int) -> int
    decreases hi - lo,
{
    if hi - lo <= 1 {
        lo
    } else {
        let mid = lo + (hi - lo) / 2;
        if keys[mid] <= q {
            bisect(keys, q, mid, hi)
        } else {
            bisect(keys, q, lo, mid)
        }
    }
}

/// Segment `(lo, hi)` used to interpolate at query `q` on the grid `keys`.  At or
/// below the first grid point: the first segment (a single point for a one-point
/// grid).  At or above the last point: the last segment.  Otherwise a bisection
/// finds adjacent points with `keys[lo] <= q < keys[hi]`.
pub fn bracket(keys: &[i64], q: i64) -> (r: (usize, usize))
    requires
        keys.len() >= 1,
        keys.len() >= 2 || q <= keys[0],
    ensures
        q <= keys[0] ==> r == (0usize, if keys.len() >= 2 { 1usize } else { 0usize }),
        keys[0] < q && q >= keys[keys.len() - 1] ==> r == ((keys.len() - 2) as usize, (keys.len() - 1) as usize),
        keys[0] < q < keys[keys.len() - 1] ==> {
            &&& r.0 == bisect(keys@, q, 0, keys.len() - 1)
            &&& r.1 == r.0 + 1
            &&& r.1 < keys.len()
            &&& keys[r.0 as int] <= q < keys[r.1 as int]
            &&& non_decreasing(keys@) ==> forall|k: int| r.1 <= k < keys.len() ==> q < #[trigger] keys[k]
        },
{
    let n = keys.len();
    if q <= keys[0] {
        return (0, if n >= 2 { 1 } else { 0 });
    }
    if q >= keys[n - 1] {
        return (n - 2, n - 1);
    }
    let mut lo: usize = 0;
    let mut hi: usize = n - 1;
    while hi - lo > 1
        invariant
            n == keys.len(),
            lo < hi < n,
            keys[lo as int] <= q < keys[hi as int],
            bisect(keys@, q, lo as int, hi as int) == bisect(keys@, q, 0, n - 1),
        decreases hi - lo,
    {
        let mid = lo + (hi - lo) / 2;
        if keys[mid] <= q {
            lo = mid;
        } else {
            hi = mid;
        }
    }
    (lo, hi)
}

/// Segment `(lo, hi)` used to interpolate at query `q`, from the number `idx` of
/// grid points below `q`: the first segment when there is none, the last segment
/// when all are, else the points just below and at or above `q`.
pub open spec fn segment_spec(n: int, idx: int) -> (int, int) {
    if idx == 0 {
        (0, 1)
    } else if idx >= n {
        (n - 2, n - 1)
    } else {
        (idx - 1, idx)
    }
}

/// Segment used to resample at query `q` on a grid of at least two points, from
/// the result of the binary search for the keys below `q`.  When those keys form
/// a prefix (as on a sorted grid) that result is their number.
pub fn resample_segment(keys: &[i64], q: i64) -> (r: (usize, usize))
    requires
        keys.len() >= 2,
    ensures
        (r.0 as int, r.1 as int) == segment_spec(keys.len() as int, partition_search(keys@, q, 0, keys.len() as int)),
        partitioned_below(keys@, q) ==> (r.0 as int, r.1 as int) == segment_spec(
            keys.len() as int,
            count_below_spec(keys@, q),
        ),
        r.1 == r.0 + 1 < keys.len(),
        partitioned_below(keys@, q) && q <= keys[0] ==> r == (0usize, 1usize),
        partitioned_below(keys@, q) && keys[keys.len() - 1] < q ==> r == ((keys.len() - 2) as usize, (keys.len()
            - 1) as usize),
        partitioned_below(keys@, q) && keys[0] < q <= keys[keys.len() - 1] ==> keys[r.0 as int] < q <= keys[r.1 as int],
{
    let n = keys.len();
    let idx = partition_point(keys, q);
    proof {
        if partitioned_below(keys@, q) {
            lemma_first_where(keys@, 0, n as int, Rel::AtLeast, q);
            match first_where(keys@, 0, n as int, Rel::AtLeast, q) {
                Some(j) => {
                    if j < idx {
                        assert(keys@[j] < q);
                    }
                    if j > idx {
                        assert(keys@[idx as int] >= q);
                    }
                },
                None => {
                    if idx < n {
                        assert(keys@[idx as int] >= q);
                    }
                },
            }
            assert(idx == count_below_spec(keys@, q));
        }
    }
    if idx == 0 {
        (0, 1)
    } else if idx >= n {
        (n - 2, n - 1)
    } else {
        (idx - 1, idx)
    }
}

} // verus!
