//! Peak search on sequences of order keys: local maxima (with plateaus),
//! prominence bases and half-height crossings.
use vstd::prelude::*;
use crate::search::{
    Rel, first_where, last_where, opt_int, argmin_first_spec, lemma_first_where, lemma_last_where,
    lemma_argmin_first, first_index, last_index, argmin_first,
};

verus! {

/// `[a, b]` is a maximal run of equal samples that starts at `a`.
pub open spec fn is_run(y: Seq<i64>, a: int, b: int) -> bool {
    &&& 0 <= a <= b < y.len()
    &&& forall|k: int| a <= k <= b ==> #[trigger] y[k] == y[a]
    &&& (b == y.len() - 1 || y[b + 1] != y[a])
}

/// `[a, b]` is a peak plateau: a maximal run of equal samples, strictly above the
/// sample before it and strictly above the sample after it.  Neither the first
/// nor the last sample can belong to one.
pub open spec fn is_peak_plateau(y: Seq<i64>, a: int, b: int) -> bool {
    &&& 1 <= a
    &&& b <= y.len() - 2
    &&& y[a - 1] < y[a]
    &&& is_run(y, a, b)
    &&& y[b + 1] < y[a]
}

/// A maximal run has only one end.
pub proof fn lemma_run_end_unique(y: Seq<i64>, a: int, b1: int, b2: int)
    requires
        is_run(y, a, b1),
        is_run(y, a, b2),
    ensures
        b1 == b2,
{
    if b1 < b2 {
        assert(y[b1 + 1] == y[a]);
    } else if b2 < b1 {
        assert(y[b2 + 1] == y[a]);
    }
}

/// All peak plateaus of `y`, in increasing order.
pub fn peak_plateaus(y: &[i64]) -> (r: Vec<(usize, usize)>)
    ensures
        forall|k: int| 0 <= k < r.len() ==> is_peak_plateau(y@, #[trigger] r@[k].0 as int, r@[k].1 as int),
        forall|k: int| 0 <= k < r.len() - 1 ==> #[trigger] r@[k].1 < r@[k + 1].0,
        forall|a: int, b: int| is_peak_plateau(y@, a, b) ==> #[trigger] r@.contains((a as usize, b as usize)),
{
    let n = y.len();
    let mut r: Vec<(usize, usize)> = Vec::new();
    if n < 3 {
        return r;
    }
    let mut i: usize = 1;
    while i < n - 1
        invariant
            n == y.len(),
            n >= 3,
            1 <= i <= n,
            forall|k: int| 0 <= k < r.len() ==> is_peak_plateau(y@, #[trigger] r@[k].0 as int, r@[k].1 as int),
            forall|k: int| 0 <= k < r.len() ==> #[trigger] r@[k].1 < i,
            forall|k: int| 0 <= k < r.len() - 1 ==> #[trigger] r@[k].1 < r@[k + 1].0,
            forall|a: int, b: int| is_peak_plateau(y@, a, b) && a < i ==> #[trigger] r@.contains((a as usize, b as usize)),
        decreases n - i,
    {
        if y[i] > y[i - 1] {
            let mut j = i + 1;
            while j < n && y[j] == y[i]
                invariant
                    n == y.len(),
                    i < j <= n,
                    forall|k: int| i <= k < j ==> #[trigger] y@[k] == y@[i as int],
                decreases n - j,
            {
                j += 1;
            }
            assert(is_run(y@, i as int, j - 1));
            if j < n && y[j] < y[i] {
                let ghost old_r = r@;
                r.push((i, j - 1));
                assert forall|a: int, b: int| is_peak_plateau(y@, a, b) && a < j implies #[trigger] r@.contains(
                    (a as usize, b as usize),
                ) by {
                    if a < i {
                        assert(old_r.contains((a as usize, b as usize)));
                        let w = choose|w: int| 0 <= w < old_r.len() && old_r[w] == (a as usize, b as usize);
                        assert(r@[w] == (a as usize, b as usize));
                    } else if a == i {
                        lemma_run_end_unique(y@, a, b, j - 1);
                        assert(r@[r.len() - 1] == (a as usize, b as usize));
                    } else {
                        assert(y@[a - 1] == y@[i as int]);
                    }
                }
                i = j;
                continue;
            } else {
                assert forall|a: int, b: int| is_peak_plateau(y@, a, b) && a < i + 1 implies #[trigger] r@.contains(
                    (a as usize, b as usize),
                ) by {
                    if a == i {
                        lemma_run_end_unique(y@, a, b, j - 1);
                    }
                }
            }
        }
        i += 1;
    }
    assert forall|a: int, b: int| is_peak_plateau(y@, a, b) implies #[trigger] r@.contains((a as usize, b as usize)) by {
        assert(a < i);
    }
    r
}

/// `p` is the middle sample of a peak plateau (the left one of the two middle
/// samples when the plateau has even length).
pub open spec fn is_mid_peak(y: Seq<i64>, p: int) -> bool {
    exists|a: int, b: int| is_peak_plateau(y, a, b) && p == (a + b) / 2
}

/// `p` is the first sample of a peak plateau.
pub open spec fn is_edge_peak(y: Seq<i64>, p: int) -> bool {
    exists|b: int| is_peak_plateau(y, p, b)
}

/// A strictly increasing sequence of indices.
pub open spec fn strictly_increasing(s: Seq<usize>) -> bool {
    forall|i: int, j: int| 0 <= i < j < s.len() ==> #[trigger] s[i] < #[trigger] s[j]
}

/// Local maxima of `y`, a plateau standing for its middle sample, in increasing order.
pub fn local_maxima(y: &[i64]) -> (r: Vec<usize>)
    ensures
        strictly_increasing(r@),
        forall|k: int| 0 <= k < r.len() ==> 1 <= #[trigger] r@[k] <= y.len() - 2 && is_mid_peak(y@, r@[k] as int),
        forall|p: int| 0 <= p < y.len() ==> (#[trigger] r@.contains(p as usize) <==> is_mid_peak(y@, p)),
{
    let plats = peak_plateaus(y);
    let mut r: Vec<usize> = Vec::new();
    let mut k: usize = 0;
    while k < plats.len()
        invariant
            k <= plats.len(),
            r.len() == k,
            forall|w: int| 0 <= w < plats.len() ==> is_peak_plateau(y@, #[trigger] plats@[w].0 as int, plats@[w].1 as int),
            forall|w: int| 0 <= w < plats.len() - 1 ==> #[trigger] plats@[w].1 < plats@[w + 1].0,
            forall|w: int| 0 <= w < k ==> #[trigger] r@[w] == (plats@[w].0 + plats@[w].1) / 2,
        decreases plats.len() - k,
    {
        let (a, b) = plats[k];
        r.push(a + (b - a) / 2);
        k += 1;
    }
    proof {
        assert forall|i: int, j: int| 0 <= i < j < r.len() implies #[trigger] r@[i] < #[trigger] r@[j] by {
            lemma_plateaus_ordered(plats@, y@, i, j);
        }
        assert forall|k: int| 0 <= k < r.len() implies 1 <= #[trigger] r@[k] <= y.len() - 2 && is_mid_peak(
            y@,
            r@[k] as int,
        ) by {
            let a = plats@[k].0 as int;
            let b = plats@[k].1 as int;
            assert(is_peak_plateau(y@, a, b));
        }
        assert forall|p: int| 0 <= p < y.len() implies (#[trigger] r@.contains(p as usize) <==> is_mid_peak(y@, p)) by {
            if r@.contains(p as usize) {
                let w = choose|w: int| 0 <= w < r.len() && r@[w] == p as usize;
                let a = plats@[w].0 as int;
                let b = plats@[w].1 as int;
                assert(is_peak_plateau(y@, a, b) && p == (a + b) / 2);
            }
            if is_mid_peak(y@, p) {
                let (a, b) = choose|a: int, b: int| is_peak_plateau(y@, a, b) && p == (a + b) / 2;
                assert(plats@.contains((a as usize, b as usize)));
                let w = choose|w: int| 0 <= w < plats.len() && plats@[w] == (a as usize, b as usize);
                assert(r@[w] == p as usize);
            }
        }
    }
    r
}

/// Local maxima of `y`, a plateau standing for its first sample, in increasing order.
pub fn local_maxima_edges(y: &[i64]) -> (r: Vec<usize>)
    ensures
        strictly_increasing(r@),
        forall|k: int| 0 <= k < r.len() ==> 1 <= #[trigger] r@[k] <= y.len() - 2 && is_edge_peak(y@, r@[k] as int),
        forall|p: int| 0 <= p < y.len() ==> (#[trigger] r@.contains(p as usize) <==> is_edge_peak(y@, p)),
{
    let plats = peak_plateaus(y);
    let mut r: Vec<usize> = Vec::new();
    let mut k: usize = 0;
    while k < plats.len()
        invariant
            k <= plats.len(),
            r.len() == k,
            forall|w: int| 0 <= w < plats.len() ==> is_peak_plateau(y@, #[trigger] plats@[w].0 as int, plats@[w].1 as int),
            forall|w: int| 0 <= w < plats.len() - 1 ==> #[trigger] plats@[w].1 < plats@[w + 1].0,
            forall|w: int| 0 <= w < k ==> #[trigger] r@[w] == plats@[w].0,
        decreases plats.len() - k,
    {
        r.push(plats[k].0);
        k += 1;
    }
    proof {
        assert forall|i: int, j: int| 0 <= i < j < r.len() implies #[trigger] r@[i] < #[trigger] r@[j] by {
            lemma_plateaus_ordered(plats@, y@, i, j);
        }
        assert forall|k: int| 0 <= k < r.len() implies 1 <= #[trigger] r@[k] <= y.len() - 2 && is_edge_peak(
            y@,
            r@[k] as int,
        ) by {
            assert(is_peak_plateau(y@, plats@[k].0 as int, plats@[k].1 as int));
        }
        assert forall|p: int| 0 <= p < y.len() implies (#[trigger] r@.contains(p as usize) <==> is_edge_peak(y@, p)) by {
            if r@.contains(p as usize) {
                let w = choose|w: int| 0 <= w < r.len() && r@[w] == p as usize;
                assert(is_peak_plateau(y@, p, plats@[w].1 as int));
            }
            if is_edge_peak(y@, p) {
                let b = choose|b: int| is_peak_plateau(y@, p, b);
                assert(plats@.contains((p as usize, b as usize)));
                let w = choose|w: int| 0 <= w < plats.len() && plats@[w] == (p as usize, b as usize);
                assert(r@[w] == p as usize);
            }
        }
    }
    r
}

/// Consecutive disjoint plateaus are ordered: an earlier one ends before a later one starts.
proof fn lemma_plateaus_ordered(plats: Seq<(usize, usize)>, y: Seq<i64>, i: int, j: int)
    requires
        0 <= i < j < plats.len(),
        forall|w: int| 0 <= w < plats.len() ==> is_peak_plateau(y, #[trigger] plats[w].0 as int, plats[w].1 as int),
        forall|w: int| 0 <= w < plats.len() - 1 ==> #[trigger] plats[w].1 < plats[w + 1].0,
    ensures
        plats[i].1 < plats[j].0,
    decreases j - i,
{
    assert(is_peak_plateau(y, plats[j - 1].0 as int, plats[j - 1].1 as int));
    if j - i > 1 {
        lemma_plateaus_ordered(plats, y, i, j - 1);
    }
    assert(plats[j - 1].1 < plats[j].0);
}

/// First index of the stretch left of `p` whose samples all lie at or below `y[p]`.
pub open spec fn left_start(y: Seq<i64>, p: int) -> int {
    match last_where(y, 0, p, Rel::Above, y[p]) {
        Some(i) => i + 1,
        None => 0,
    }
}

/// One past the stretch right of `p` whose samples all lie at or below `y[p]`.
pub open spec fn right_end(y: Seq<i64>, p: int) -> int {
    match first_where(y, p + 1, y.len() as int, Rel::Above, y[p]) {
        Some(j) => j,
        None => y.len() as int,
    }
}

/// Left base of peak `p`: first position of the minimum on the stretch left of
/// `p` that stays at or below the peak, or `p` itself when that stretch is empty.
pub open spec fn left_base(y: Seq<i64>, p: int) -> int {
    if left_start(y, p) == p {
        p
    } else {
        argmin_first_spec(y, left_start(y, p), p)
    }
}

/// Right base of peak `p`: first position of the minimum on the stretch right of
/// `p` that stays at or below the peak, or `p` itself when that stretch is empty.
pub open spec fn right_base(y: Seq<i64>, p: int) -> int {
    if right_end(y, p) == p + 1 {
        p
    } else {
        argmin_first_spec(y, p + 1, right_end(y, p))
    }
}

/// The bases of one peak lie around it and no higher than it.
pub proof fn lemma_bases(y: Seq<i64>, p: int)
    requires
        0 <= p < y.len(),
    ensures
        0 <= left_base(y, p) <= p <= right_base(y, p) < y.len(),
        y[left_base(y, p)] <= y[p],
        y[right_base(y, p)] <= y[p],
        forall|k: int| left_start(y, p) <= k < p ==> y[left_base(y, p)] <= #[trigger] y[k],
        forall|k: int| p < k < right_end(y, p) ==> y[right_base(y, p)] <= #[trigger] y[k],
{
    lemma_last_where(y, 0, p, Rel::Above, y[p]);
    lemma_first_where(y, p + 1, y.len() as int, Rel::Above, y[p]);
    if left_start(y, p) < p {
        lemma_argmin_first(y, left_start(y, p), p);
    }
    if right_end(y, p) > p + 1 {
        lemma_argmin_first(y, p + 1, right_end(y, p));
    }
}

/// The stretches and bases of peak `p`, described without the searches that find
/// them: the left stretch is the longest run of samples at or below the peak that
/// ends just before it, the right stretch the longest one that starts just after
/// it; each base is the first lowest sample of its stretch (the peak itself for an
/// empty stretch).
pub proof fn lemma_bases_exact(y: Seq<i64>, p: int)
    requires
        0 <= p < y.len(),
    ensures
        ({
            let ls = left_start(y, p);
            let re = right_end(y, p);
            let lb = left_base(y, p);
            let rb = right_base(y, p);
            &&& 0 <= ls <= p
            &&& forall|k: int| ls <= k < p ==> #[trigger] y[k] <= y[p]
            &&& ls == 0 || y[ls - 1] > y[p]
            &&& p + 1 <= re <= y.len()
            &&& forall|k: int| p < k < re ==> #[trigger] y[k] <= y[p]
            &&& re == y.len() || y[re] > y[p]
            &&& ls == p ==> lb == p
            &&& ls < p ==> ls <= lb < p && (forall|k: int| ls <= k < p ==> y[lb] <= #[trigger] y[k]) && (forall|k: int|
                ls <= k < lb ==> y[lb] < #[trigger] y[k])
            &&& re == p + 1 ==> rb == p
            &&& re > p + 1 ==> p < rb < re && (forall|k: int| p < k < re ==> y[rb] <= #[trigger] y[k]) && (forall|k: int|
                p < k < rb ==> y[rb] < #[trigger] y[k])
        }),
{
    lemma_bases(y, p);
    lemma_last_where(y, 0, p, Rel::Above, y[p]);
    lemma_first_where(y, p + 1, y.len() as int, Rel::Above, y[p]);
    if left_start(y, p) < p {
        lemma_argmin_first(y, left_start(y, p), p);
    }
    if right_end(y, p) > p + 1 {
        lemma_argmin_first(y, p + 1, right_end(y, p));
    }
}

/// A peak found by [`local_maxima`] or [`local_maxima_edges`] lies strictly
/// between its two bases, and both bases lie strictly below it.
pub proof fn lemma_peak_between_bases(y: Seq<i64>, p: int)
    requires
        is_mid_peak(y, p) || is_edge_peak(y, p),
    ensures
        0 <= left_base(y, p) < p < right_base(y, p) < y.len(),
        y[left_base(y, p)] < y[p],
        y[right_base(y, p)] < y[p],
{
    let (a, b) = if is_mid_peak(y, p) {
        choose|a: int, b: int| is_peak_plateau(y, a, b) && p == (a + b) / 2
    } else {
        let b = choose|b: int| is_peak_plateau(y, p, b);
        (p, b)
    };
    assert(is_peak_plateau(y, a, b));
    assert(a <= p <= b);
    let h = y[p];
    assert(y[p] == y[a]);
    lemma_bases(y, p);
    lemma_last_where(y, 0, p, Rel::Above, h);
    lemma_first_where(y, p + 1, y.len() as int, Rel::Above, h);
    match last_where(y, 0, p, Rel::Above, h) {
        Some(i) => {
            if i >= a - 1 {
                assert(y[i] == y[a] || i == a - 1);
            }
            assert(i < a - 1);
        },
        None => {},
    }
    assert(left_start(y, p) <= a - 1);
    match first_where(y, p + 1, y.len() as int, Rel::Above, h) {
        Some(j) => {
            if j <= b + 1 {
                assert(y[j] == y[a] || j == b + 1);
            }
            assert(j > b + 1);
        },
        None => {},
    }
    assert(right_end(y, p) >= b + 2);
    lemma_argmin_first(y, left_start(y, p), p);
    lemma_argmin_first(y, p + 1, right_end(y, p));
    assert(y[left_base(y, p)] <= y[a - 1]);
    assert(y[right_base(y, p)] <= y[b + 1]);
}

/// Left and right bases of each peak (the bases a prominence is measured from).
pub fn prominence_bases(y: &[i64], peaks: &[usize]) -> (r: Vec<(usize, usize)>)
    requires
        forall|k: int| 0 <= k < peaks.len() ==> #[trigger] peaks[k] < y.len(),
    ensures
        r.len() == peaks.len(),
        forall|k: int| 0 <= k < peaks.len() ==> #[trigger] r@[k] == (
            left_base(y@, peaks[k] as int) as usize,
            right_base(y@, peaks[k] as int) as usize,
        ),
        forall|k: int| 0 <= k < peaks.len() ==> #[trigger] r@[k].0 <= peaks[k] <= r@[k].1 < y.len(),
{
    let n = y.len();
    let mut r: Vec<(usize, usize)> = Vec::new();
    let mut k: usize = 0;
    while k < peaks.len()
        invariant
            n == y.len(),
            k <= peaks.len(),
            r.len() == k,
            forall|w: int| 0 <= w < peaks.len() ==> #[trigger] peaks[w] < y.len(),
            forall|w: int| 0 <= w < k ==> #[trigger] r@[w] == (
                left_base(y@, peaks[w] as int) as usize,
                right_base(y@, peaks[w] as int) as usize,
            ),
            forall|w: int| 0 <= w < k ==> #[trigger] r@[w].0 <= peaks[w] <= r@[w].1 < y.len(),
        decreases peaks.len() - k,
    {
        let p = peaks[k];
        let h = y[p];
        proof {
            lemma_bases(y@, p as int);
            lemma_last_where(y@, 0, p as int, Rel::Above, h);
            lemma_first_where(y@, p + 1, n as int, Rel::Above, h);
        }
        let ls = match last_index(y, 0, p, Rel::Above, h) {
            Some(i) => i + 1,
            None => 0,
        };
        let lb = if ls == p { p } else { argmin_first(y, ls, p) };
        let re = match first_index(y, p + 1, n, Rel::Above, h) {
            Some(j) => j,
            None => n,
        };
        let rb = if re == p + 1 { p } else { argmin_first(y, p + 1, re) };
        r.push((lb, rb));
        k += 1;
    }
    r
}

/// End (exclusive) of the right-hand crossing scan: one past the right base, or the
/// end of the curve when the base lies beyond it.
pub open spec fn right_scan_end(n: int, right_base: int) -> int {
    if right_base < n { right_base + 1 } else { n }
}

/// The crossing scans of peak `p` stay inside the curve: the left scan reads
/// `[left_base, p)`, the right scan reads from `p + 1` up to the first crossing or
/// the right base.
pub open spec fn scans_in_curve(y: Seq<i64>, p: int, bases: (usize, usize), level: i64) -> bool {
    &&& (bases.0 < p ==> p <= y.len())
    &&& (p < bases.1 ==> bases.1 < y.len() || first_where(y, p + 1, y.len() as int, Rel::Below, level) is Some)
}

/// Whether the crossing scans of every peak stay inside the curve.
pub fn crossing_scans_in_curve(y: &[i64], peaks: &[usize], levels: &[i64], bases: &[(usize, usize)]) -> (r: bool)
    requires
        levels.len() == peaks.len(),
        bases.len() == peaks.len(),
    ensures
        r == forall|k: int| 0 <= k < peaks.len() ==> scans_in_curve(y@, #[trigger] peaks[k] as int, bases[k], levels[k]),
{
    let n = y.len();
    let mut k: usize = 0;
    while k < peaks.len()
        invariant
            n == y.len(),
            k <= peaks.len(),
            levels.len() == peaks.len(),
            bases.len() == peaks.len(),
            forall|w: int| 0 <= w < k ==> scans_in_curve(y@, #[trigger] peaks[w] as int, bases[w], levels[w]),
        decreases peaks.len() - k,
    {
        let p = peaks[k];
        let (lb, rb) = bases[k];
        if lb < p && p > n {
            assert(!scans_in_curve(y@, peaks[k as int] as int, bases[k as int], levels[k as int]));
            return false;
        }
        if p < rb && rb >= n {
            let found = if p < n { first_index(y, p + 1, n, Rel::Below, levels[k]) } else { None };
            proof {
                if p >= n {
                    assert(first_where(y@, p + 1, n as int, Rel::Below, levels[k as int]) is None);
                }
            }
            if found.is_none() {
                assert(!scans_in_curve(y@, peaks[k as int] as int, bases[k as int], levels[k as int]));
                return false;
            }
        }
        k += 1;
    }
    true
}

/// Where the crossings `c` of peak `p` lie: a left crossing is a sample below
/// `level` in `[left base, p)` with no such sample between it and the peak, a right
/// crossing one in `(p, right base]` with no such sample between the peak and it.
/// Where a side has none, no sample of that side lies below `level`.
pub open spec fn crossings_within(
    y: Seq<i64>,
    p: int,
    bases: (usize, usize),
    level: i64,
    c: (Option<usize>, Option<usize>),
) -> bool {
    &&& match c.0 {
        Some(i) => bases.0 <= i < p && y[i as int] < level && forall|k: int| i < k < p ==> #[trigger] y[k] >= level,
        None => forall|k: int| bases.0 <= k < p ==> #[trigger] y[k] >= level,
    }
    &&& match c.1 {
        Some(j) => p < j <= bases.1 && j < y.len() && y[j as int] < level && forall|k: int|
            p < k < j ==> #[trigger] y[k] >= level,
        None => forall|k: int| p < k <= bases.1 && k < y.len() ==> #[trigger] y[k] >= level,
    }
}

/// The crossing samples that [`width_crossings`] picks lie between the peak and
/// its bases, below the level, with every sample between them and the peak at or
/// above it; a side without a crossing has no sample below the level.
pub proof fn lemma_crossings_within(y: Seq<i64>, p: int, bases: (usize, usize), level: i64, c: (Option<usize>, Option<usize>))
    requires
        opt_int(c.0) == (if bases.0 < p { last_where(y, bases.0 as int, p, Rel::Below, level) } else { None }),
        opt_int(c.1) == (if p < bases.1 {
            first_where(y, p + 1, right_scan_end(y.len() as int, bases.1 as int), Rel::Below, level)
        } else {
            None
        }),
    ensures
        crossings_within(y, p, bases, level, c),
{
    lemma_last_where(y, bases.0 as int, p, Rel::Below, level);
    lemma_first_where(y, p + 1, right_scan_end(y.len() as int, bases.1 as int), Rel::Below, level);
}

/// Half-height crossings of each peak: the last sample below `levels[k]` between
/// the left base and the peak, and the first sample below it between the peak and
/// the right base (inclusive of the base).
pub fn width_crossings(y: &[i64], peaks: &[usize], levels: &[i64], bases: &[(usize, usize)]) -> (r: Vec<(Option<usize>, Option<usize>)>)
    requires
        levels.len() == peaks.len(),
        bases.len() == peaks.len(),
        forall|k: int| 0 <= k < peaks.len() ==> scans_in_curve(y@, #[trigger] peaks[k] as int, bases[k], levels[k]),
    ensures
        r.len() == peaks.len(),
        forall|k: int| 0 <= k < peaks.len() ==> opt_int((#[trigger] r@[k]).0) == (if bases[k].0 < peaks[k] {
            last_where(y@, bases[k].0 as int, peaks[k] as int, Rel::Below, levels[k])
        } else {
            None
        }),
        forall|k: int| 0 <= k < peaks.len() ==> opt_int((#[trigger] r@[k]).1) == (if peaks[k] < bases[k].1 {
            first_where(y@, peaks[k] + 1, right_scan_end(y.len() as int, bases[k].1 as int), Rel::Below, levels[k])
        } else {
            None
        }),
        forall|k: int| 0 <= k < peaks.len() ==> crossings_within(y@, peaks[k] as int, bases[k], levels[k], #[trigger] r@[k]),
{
    let n = y.len();
    let mut r: Vec<(Option<usize>, Option<usize>)> = Vec::new();
    let mut k: usize = 0;
    while k < peaks.len()
        invariant
            n == y.len(),
            k <= peaks.len(),
            r.len() == k,
            levels.len() == peaks.len(),
            bases.len() == peaks.len(),
            forall|w: int| 0 <= w < peaks.len() ==> scans_in_curve(y@, #[trigger] peaks[w] as int, bases[w], levels[w]),
            forall|w: int| 0 <= w < k ==> opt_int((#[trigger] r@[w]).0) == (if bases[w].0 < peaks[w] {
                last_where(y@, bases[w].0 as int, peaks[w] as int, Rel::Below, levels[w])
            } else {
                None
            }),
            forall|w: int| 0 <= w < k ==> opt_int((#[trigger] r@[w]).1) == (if peaks[w] < bases[w].1 {
                first_where(y@, peaks[w] + 1, right_scan_end(n as int, bases[w].1 as int), Rel::Below, levels[w])
            } else {
                None
            }),
            forall|w: int| 0 <= w < k ==> crossings_within(y@, peaks[w] as int, bases[w], levels[w], #[trigger] r@[w]),
        decreases peaks.len() - k,
    {
        let p = peaks[k];
        let (lb, rb) = bases[k];
        proof {
            assert(scans_in_curve(y@, p as int, bases[k as int], levels[k as int]));
            lemma_first_where(y@, p + 1, n as int, Rel::Below, levels[k as int]);
        }
        let left = if lb < p { last_index(y, lb, p, Rel::Below, levels[k]) } else { None };
        let right = if p < rb {
            let end = if rb < n { rb + 1 } else { n };
            first_index(y, p + 1, end, Rel::Below, levels[k])
        } else {
            None
        };
        proof {
            lemma_crossings_within(y@, p as int, (lb, rb), levels[k as int], (left, right));
        }
        r.push((left, right));
        k += 1;
    }
    r
}

} // verus!
