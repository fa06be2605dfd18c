//! Order-level decisions of the equalisation step: protection zones around dips,
//! the start of the right-to-left pass, and the bookkeeping of slope limiting.
use vstd::prelude::*;
use crate::search::{
    Rel, holds, lemma_argmin_first, first_where, last_where, argmin_first_spec, lemma_first_where, lemma_last_where,
    first_index, last_index, argmin_first,
};

verus! {

/// The last peak comes after the last dip (or there are peaks and no dips).
pub open spec fn ends_on_peak(peaks: Seq<usize>, dips: Seq<usize>) -> bool {
    peaks.len() > 0 && (dips.len() == 0 || peaks.last() > dips.last())
}

/// Whether the last peak comes after the last dip (or there are peaks and no dips).
pub fn curve_ends_on_peak(peak_inds: &[usize], dip_inds: &[usize]) -> (r: bool)
    ensures
        r == ends_on_peak(peak_inds@, dip_inds@),
{
    peak_inds.len() > 0 && (dip_inds.len() == 0 || peak_inds[peak_inds.len() - 1] > dip_inds[dip_inds.len() - 1])
}

/// The dips extended by one closing entry: when the curve ends on a peak, the
/// first position of the minimum after the last peak; otherwise index 0, which is
/// only ever used for its level.
pub open spec fn closing_dip(y: Seq<i64>, peaks: Seq<usize>, dips: Seq<usize>) -> usize {
    if ends_on_peak(peaks, dips) {
        argmin_first_spec(y, peaks.last() as int, y.len() as int) as usize
    } else {
        0
    }
}

/// Level of the closing entry: the sample at the closing dip when the curve ends
/// on a peak, else the global minimum (`i64::MAX` for an empty curve).
pub open spec fn closing_level(y: Seq<i64>, peaks: Seq<usize>, dips: Seq<usize>) -> i64 {
    if ends_on_peak(peaks, dips) {
        y[closing_dip(y, peaks, dips) as int]
    } else if y.len() > 0 {
        y[argmin_first_spec(y, 0, y.len() as int)]
    } else {
        i64::MAX
    }
}

/// Levels of the dip chain.
pub open spec fn dip_level(y: Seq<i64>, peaks: Seq<usize>, dips: Seq<usize>, i: int) -> i64 {
    if i < dips.len() {
        y[dips[i] as int]
    } else {
        closing_level(y, peaks, dips)
    }
}

/// First index of the protection zone around interior dip `i` of the chain: just
/// after the last earlier sample that reaches the level of the previous dip.
pub open spec fn zone_left(y: Seq<i64>, peaks: Seq<usize>, dips: Seq<usize>, i: int) -> int {
    match last_where(y, 0, dips[i] as int, Rel::AtLeast, dip_level(y, peaks, dips, i - 1)) {
        Some(j) => j + 1,
        None => 0,
    }
}

/// Last index of the protection zone around interior dip `i`: just before the
/// first sample from the dip on that reaches the level of the next dip (the dip
/// itself when it is at index 0), or 0 when no sample reaches it.
pub open spec fn zone_right(y: Seq<i64>, peaks: Seq<usize>, dips: Seq<usize>, i: int) -> int {
    match first_where(y, dips[i] as int, y.len() as int, Rel::AtLeast, dip_level(y, peaks, dips, i + 1)) {
        Some(j) => if dips[i] >= 1 { j - 1 } else { j },
        None => 0,
    }
}

/// Whether sample `j` lies in a protection zone: the dip chain has at least three
/// entries and `j` lies in the zone of one of its interior entries.
pub open spec fn is_protected(y: Seq<i64>, peaks: Seq<usize>, dips: Seq<usize>, j: int) -> bool {
    dips.len() + 1 >= 3 && exists|i: int|
        1 <= i < dips.len() && zone_left(y, peaks, dips, i) <= j <= #[trigger] zone_right(y, peaks, dips, i)
}

/// Indices are inside the curve.
pub open spec fn indices_in(s: Seq<usize>, n: int) -> bool {
    forall|k: int| 0 <= k < s.len() ==> #[trigger] s[k] < n
}

/// Mask of samples where slope limiting is switched off: the zones around the
/// interior dips of the dip chain.
pub fn protection_mask(y: &[i64], peak_inds: &[usize], dip_inds: &[usize]) -> (mask: Vec<bool>)
    requires
        ends_on_peak(peak_inds@, dip_inds@) ==> peak_inds@.last() < y.len(),
        indices_in(dip_inds@, y.len() as int),
    ensures
        mask.len() == y.len(),
        forall|j: int| 0 <= j < y.len() ==> #[trigger] mask@[j] == is_protected(y@, peak_inds@, dip_inds@, j),
{
    let n = y.len();
    let ghost ys = y@;
    let ghost ps = peak_inds@;
    let ghost ds = dip_inds@;
    let ends_peak = peak_inds.len() > 0 && (dip_inds.len() == 0 || peak_inds[peak_inds.len() - 1]
        > dip_inds[dip_inds.len() - 1]);
    assert(ends_peak == ends_on_peak(ps, ds));
    let closing_lvl: i64 = if ends_peak {
        let lp = peak_inds[peak_inds.len() - 1];
        let mi = argmin_first(y, lp, n);
        y[mi]
    } else if n > 0 {
        let mi = argmin_first(y, 0, n);
        y[mi]
    } else {
        i64::MAX
    };
    assert(closing_lvl == closing_level(ys, ps, ds));
    let mut mask: Vec<bool> = Vec::new();
    let mut j: usize = 0;
    while j < n
        invariant
            j <= n == y.len(),
            mask.len() == j,
            forall|k: int| 0 <= k < j ==> !(#[trigger] mask@[k]),
        decreases n - j,
    {
        mask.push(false);
        j += 1;
    }
    if dip_inds.len() < 2 {
        return mask;
    }
    let mut i: usize = 1;
    while i < dip_inds.len()
        invariant
            n == y.len(),
            ys == y@,
            ps == peak_inds@,
            ds == dip_inds@,
            dip_inds.len() >= 2,
            1 <= i <= dip_inds.len(),
            indices_in(ds, n as int),
            closing_lvl == closing_level(ys, ps, ds),
            mask.len() == n,
            forall|k: int| 0 <= k < n ==> #[trigger] mask@[k] == exists|w: int|
                1 <= w < i && zone_left(ys, ps, ds, w) <= k <= #[trigger] zone_right(ys, ps, ds, w),
        decreases dip_inds.len() - i,
    {
        let dip = dip_inds[i];
        let target_left = y[dip_inds[i - 1]];
        let target_right = if i + 1 < dip_inds.len() { y[dip_inds[i + 1]] } else { closing_lvl };
        assert(target_left == dip_level(ys, ps, ds, i - 1));
        assert(target_right == dip_level(ys, ps, ds, i + 1));
        proof {
            lemma_last_where(ys, 0, dip as int, Rel::AtLeast, target_left);
            lemma_first_where(ys, dip as int, n as int, Rel::AtLeast, target_right);
        }
        let left = match last_index(y, 0, dip, Rel::AtLeast, target_left) {
            Some(jl) => jl + 1,
            None => 0,
        };
        let right = match first_index(y, dip, n, Rel::AtLeast, target_right) {
            Some(jr) => if dip >= 1 { jr - 1 } else { jr },
            None => 0,
        };
        assert(left == zone_left(ys, ps, ds, i as int));
        assert(right == zone_right(ys, ps, ds, i as int));
        let ghost before = mask@;
        let mut k = left;
        while k <= right && k < n
            invariant
                n == y.len(),
                mask.len() == n,
                left <= k,
                forall|q: int| 0 <= q < n ==> #[trigger] mask@[q] == (before[q] || (left <= q < k && q <= right)),
            decreases n - k,
        {
            mask.set(k, true);
            k += 1;
        }
        assert forall|q: int| 0 <= q < n implies #[trigger] mask@[q] == exists|w: int|
            1 <= w < i + 1 && zone_left(ys, ps, ds, w) <= q <= #[trigger] zone_right(ys, ps, ds, w) by {
            if left <= q <= right {
                assert(zone_left(ys, ps, ds, i as int) <= q <= zone_right(ys, ps, ds, i as int));
            }
            if exists|w: int| 1 <= w < i + 1 && zone_left(ys, ps, ds, w) <= q <= #[trigger] zone_right(ys, ps, ds, w) {
                let w = choose|w: int| 1 <= w < i + 1 && zone_left(ys, ps, ds, w) <= q <= #[trigger] zone_right(ys, ps, ds, w);
                if w < i {
                    assert(before[q]);
                }
            }
        }
        i += 1;
    }
    mask
}

/// Start index of the right-to-left slope-limiting pass.  When the curve ends on
/// a peak: the first sample from the last peak on that is at or below the level
/// of the last dip (without dips: the higher of the two end samples), or the last
/// sample when there is none.  Otherwise the last dip, or the last sample.
pub open spec fn rtl_start(y: Seq<i64>, peaks: Seq<usize>, dips: Seq<usize>) -> int {
    let n = y.len() as int;
    if ends_on_peak(peaks, dips) {
        let threshold = if dips.len() == 0 {
            if y[0] >= y[n - 1] { y[0] } else { y[n - 1] }
        } else {
            y[dips.last() as int]
        };
        match first_where(y, peaks.last() as int, n, Rel::AtMost, threshold) {
            Some(i) => i,
            None => n - 1,
        }
    } else if dips.len() > 0 {
        dips.last() as int
    } else {
        n - 1
    }
}

/// Start index of the right-to-left slope-limiting pass.
pub fn find_rtl_start(y: &[i64], peak_inds: &[usize], dip_inds: &[usize]) -> (r: usize)
    requires
        ends_on_peak(peak_inds@, dip_inds@) || dip_inds.len() == 0 ==> y.len() >= 1,
        ends_on_peak(peak_inds@, dip_inds@) ==> peak_inds@.last() <= y.len(),
        ends_on_peak(peak_inds@, dip_inds@) && dip_inds.len() > 0 ==> dip_inds@.last() < y.len(),
    ensures
        r == rtl_start(y@, peak_inds@, dip_inds@),
        ends_on_peak(peak_inds@, dip_inds@) || dip_inds.len() == 0 || dip_inds@.last() < y.len() ==> r < y.len(),
{
    let n = y.len();
    if peak_inds.len() > 0 && (dip_inds.len() == 0 || peak_inds[peak_inds.len() - 1]
        > dip_inds[dip_inds.len() - 1]) {
        let last_peak = peak_inds[peak_inds.len() - 1];
        let threshold = if dip_inds.len() == 0 {
            if y[0] >= y[n - 1] { y[0] } else { y[n - 1] }
        } else {
            y[dip_inds[dip_inds.len() - 1]]
        };
        proof {
            lemma_first_where(y@, last_peak as int, n as int, Rel::AtMost, threshold);
        }
        match first_index(y, last_peak, n, Rel::AtMost, threshold) {
            Some(i) => i,
            None => n - 1,
        }
    } else if dip_inds.len() > 0 {
        dip_inds[dip_inds.len() - 1]
    } else {
        n - 1
    }
}

/// When the curve ends on a peak, the right-to-left pass starts at the first
/// sample from the last peak on that is no higher than the last dip, or, without
/// dips, no higher than one of the two end samples; when every sample from the
/// last peak on lies above the last dip, it starts at the last sample.
pub proof fn lemma_rtl_start_after_last_peak(y: Seq<i64>, peaks: Seq<usize>, dips: Seq<usize>)
    requires
        ends_on_peak(peaks, dips),
        y.len() >= 1,
        peaks.last() < y.len(),
        dips.len() > 0 ==> dips.last() < y.len(),
    ensures
        ({
            let r = rtl_start(y, peaks, dips);
            let lp = peaks.last() as int;
            let n = y.len() as int;
            &&& dips.len() == 0 ==> {
                &&& lp <= r < n
                &&& y[r] <= y[0] || y[r] <= y[n - 1]
                &&& forall|k: int| lp <= k < r ==> #[trigger] y[k] > y[0] && y[k] > y[n - 1]
            }
            &&& dips.len() > 0 ==> {
                let t = y[dips.last() as int];
                ||| lp <= r < n && y[r] <= t && forall|k: int| lp <= k < r ==> #[trigger] y[k] > t
                ||| r == n - 1 && forall|k: int| lp <= k < n ==> #[trigger] y[k] > t
            }
        }),
{
    let n = y.len() as int;
    let lp = peaks.last() as int;
    let t = if dips.len() == 0 {
        if y[0] >= y[n - 1] { y[0] } else { y[n - 1] }
    } else {
        y[dips.last() as int]
    };
    lemma_first_where(y, lp, n, Rel::AtMost, t);
    if dips.len() == 0 {
        assert(holds(y[n - 1], Rel::AtMost, t));
    }
}

/// When the curve does not end on a peak, the right-to-left pass starts at the
/// last dip, or at the last sample when there is no dip.
pub proof fn lemma_rtl_start_after_last_dip(y: Seq<i64>, peaks: Seq<usize>, dips: Seq<usize>)
    requires
        !ends_on_peak(peaks, dips),
    ensures
        dips.len() > 0 ==> rtl_start(y, peaks, dips) == dips.last(),
        dips.len() == 0 ==> rtl_start(y, peaks, dips) == y.len() - 1,
{
}

/// The levels of the dip chain: each dip stands at its own sample; the closing
/// entry stands at the minimum of the samples from the last peak on when the curve
/// ends on a peak, and at the minimum of the whole curve otherwise.
pub proof fn lemma_dip_levels(y: Seq<i64>, peaks: Seq<usize>, dips: Seq<usize>)
    requires
        ends_on_peak(peaks, dips) ==> peaks.last() < y.len(),
        y.len() <= usize::MAX,
    ensures
        forall|i: int| 0 <= i < dips.len() ==> #[trigger] dip_level(y, peaks, dips, i) == y[dips[i] as int],
        ({
            let c = dip_level(y, peaks, dips, dips.len() as int);
            let lp = peaks.last() as int;
            &&& ends_on_peak(peaks, dips) ==> (forall|k: int| lp <= k < y.len() ==> c <= #[trigger] y[k])
                && exists|k: int| lp <= k < y.len() && y[k] == c
            &&& !ends_on_peak(peaks, dips) && y.len() > 0 ==> (forall|k: int| 0 <= k < y.len() ==> c <= #[trigger] y[k])
                && exists|k: int| 0 <= k < y.len() && y[k] == c
        }),
{
    let n = y.len() as int;
    if ends_on_peak(peaks, dips) {
        let lp = peaks.last() as int;
        lemma_argmin_first(y, lp, n);
        let m = argmin_first_spec(y, lp, n);
        assert(lp <= m < n && y[m] == dip_level(y, peaks, dips, dips.len() as int));
    } else if n > 0 {
        lemma_argmin_first(y, 0, n);
        let m = argmin_first_spec(y, 0, n);
        assert(0 <= m < n && y[m] == dip_level(y, peaks, dips, dips.len() as int));
    }
}

/// The protection zone of interior dip `i`: it starts just after the last sample
/// before the dip that reaches the previous dip's level (at 0 when there is none),
/// and ends just before the first sample from the dip on that reaches the next
/// level (at that sample when the dip is the first sample; at 0 when no sample
/// reaches the next level).
pub proof fn lemma_zone_bounds(y: Seq<i64>, peaks: Seq<usize>, dips: Seq<usize>, i: int)
    requires
        1 <= i < dips.len(),
        indices_in(dips, y.len() as int),
    ensures
        ({
            let d = dips[i] as int;
            let lt = y[dips[i - 1] as int];
            let rt = dip_level(y, peaks, dips, i + 1);
            let zl = zone_left(y, peaks, dips, i);
            let zr = zone_right(y, peaks, dips, i);
            let e = if d >= 1 { zr + 1 } else { zr };
            &&& 0 <= zl <= d
            &&& forall|k: int| zl <= k < d ==> #[trigger] y[k] < lt
            &&& zl > 0 ==> y[zl - 1] >= lt
            &&& (exists|k: int| d <= k < y.len() && y[k] >= rt) ==> {
                &&& d <= e < y.len()
                &&& y[e] >= rt
                &&& forall|k: int| d <= k < e ==> #[trigger] y[k] < rt
            }
            &&& (forall|k: int| d <= k < y.len() ==> #[trigger] y[k] < rt) ==> zr == 0
        }),
{
    let d = dips[i] as int;
    assert(dips[i] < y.len());
    let lt = dip_level(y, peaks, dips, i - 1);
    let rt = dip_level(y, peaks, dips, i + 1);
    lemma_last_where(y, 0, d, Rel::AtLeast, lt);
    lemma_first_where(y, d, y.len() as int, Rel::AtLeast, rt);
    if exists|k: int| d <= k < y.len() && y[k] >= rt {
        let k = choose|k: int| d <= k < y.len() && y[k] >= rt;
        assert(holds(y[k], Rel::AtLeast, rt));
    }
}

/// A sample is protected exactly when it lies in the zone of an interior dip: with
/// two dips or more, every sample of the zone of every dip after the first is
/// protected; with fewer than two, no sample is.
pub proof fn lemma_protected_iff_in_zone(y: Seq<i64>, peaks: Seq<usize>, dips: Seq<usize>, j: int)
    ensures
        is_protected(y, peaks, dips, j) <==> exists|i: int|
            1 <= i < dips.len() && zone_left(y, peaks, dips, i) <= j <= #[trigger] zone_right(y, peaks, dips, i),
        dips.len() < 2 ==> !is_protected(y, peaks, dips, j),
{
}

/// What one step of slope limiting does with the current sample.
#[derive(Clone, Copy, Debug, PartialEq, Eq, Structural)]
pub enum SlopeAction {
    /// Keep the sample as it is.
    Keep,
    /// Replace the sample by the previous limited value raised by the maximal slope.
    Clip,
    /// Keep the sample, and put back the original samples from the given index up
    /// to (not including) the current one: the clipped run that ends here holds no peak.
    KeepAndRestore(usize),
}

/// Bookkeeping of a left-to-right slope-limiting pass.  The caller computes, for
/// each sample after the start index, whether the slope from the previous limited
/// value exceeds the limit, and applies the action returned by [`SlopeLimiter::step`].
pub struct SlopeLimiter {
    start_index: usize,
    peaks: Vec<usize>,
    mask: Vec<bool>,
    clipped: Vec<bool>,
    open_region: Option<usize>,
    reported: Ghost<Seq<bool>>,
}

/// `s` with the entries in `[a, b)` cleared.
pub open spec fn cleared(s: Seq<bool>, a: int, b: int) -> Seq<bool> {
    Seq::new(s.len(), |k: int| if a <= k < b { false } else { s[k] })
}

impl SlopeLimiter {
    /// Samples up to and including this index pass unchanged.
    pub closed spec fn start(&self) -> int {
        self.start_index as int
    }

    /// Peak indices: a clipped run that contains one of them is kept.
    pub closed spec fn peak_list(&self) -> Seq<usize> {
        self.peaks@
    }

    /// Limit-free mask (indices beyond its end are not limit-free).
    pub closed spec fn mask_list(&self) -> Seq<bool> {
        self.mask@
    }

    /// For each sample handled so far, whether it currently holds a clipped value.
    pub closed spec fn clipped_list(&self) -> Seq<bool> {
        self.clipped@
    }

    /// Start of the clipped run still open at the current position.
    pub closed spec fn region(&self) -> Option<usize> {
        self.open_region
    }

    /// For each sample handled so far, the slope decision the caller handed in.
    pub closed spec fn reported_list(&self) -> Seq<bool> {
        self.reported@
    }

    /// Number of samples handled so far.
    pub open spec fn position(&self) -> int {
        self.clipped_list().len() as int
    }

    /// Whether slope limiting is switched off at sample `i`.
    pub open spec fn is_free(&self, i: int) -> bool {
        0 <= i < self.mask_list().len() && self.mask_list()[i]
    }

    /// Whether a peak lies in `[a, b)`.
    pub open spec fn has_peak_in(&self, a: int, b: int) -> bool {
        exists|k: int| 0 <= k < self.peak_list().len() && a <= #[trigger] self.peak_list()[k] < b
    }

    /// `[a, b]` is a clipped run that has been closed by an unclipped sample on each side.
    pub open spec fn is_closed_run(&self, a: int, b: int) -> bool {
        let c = self.clipped_list();
        &&& 1 <= a <= b
        &&& b + 1 < c.len()
        &&& !c[a - 1]
        &&& !c[b + 1]
        &&& forall|k: int| a <= k <= b ==> #[trigger] c[k]
    }

    /// Internal consistency of the bookkeeping.
    pub closed spec fn wf(&self) -> bool {
        let c = self.clipped@;
        let pos = c.len() as int;
        &&& self.reported@.len() == pos
        &&& forall|j: int| 0 <= j < pos && #[trigger] c[j] ==> self.start_index < j && !self.is_free(j)
            && self.reported@[j]
        &&& match self.open_region {
            Some(rs) => self.start_index < rs < pos && !c[rs - 1] && forall|k: int|
                rs <= k < pos ==> #[trigger] c[k],
            None => pos == 0 || !c[pos - 1],
        }
        &&& forall|a: int, b: int| #[trigger] self.is_closed_run(a, b) ==> self.has_peak_in(a, b + 1)
    }

    /// A fresh pass.
    pub fn new(start_index: usize, peaks: Vec<usize>, mask: Vec<bool>) -> (s: Self)
        ensures
            s.wf(),
            s.start() == start_index,
            s.peak_list() == peaks@,
            s.mask_list() == mask@,
            s.clipped_list() == Seq::<bool>::empty(),
            s.reported_list() == Seq::<bool>::empty(),
            s.region() is None,
    {
        SlopeLimiter { start_index, peaks, mask, clipped: Vec::new(), open_region: None, reported: Ghost(Seq::empty()) }
    }

    /// Number of samples handled so far.
    pub fn handled(&self) -> (r: usize)
        ensures
            r == self.position(),
    {
        self.clipped.len()
    }

    /// Whether the next step reads the caller's slope decision (the next sample
    /// lies after the start index).
    pub fn needs_slope(&self) -> (r: bool)
        ensures
            r == (self.position() > self.start()),
    {
        self.clipped.len() > self.start_index
    }

    /// For each sample handled so far, whether it holds a clipped value.
    pub fn clipped_flags(&self) -> (r: Vec<bool>)
        ensures
            r@ == self.clipped_list(),
    {
        self.clipped.clone()
    }

    fn peak_in(&self, a: usize, b: usize) -> (r: bool)
        ensures
            r == self.has_peak_in(a as int, b as int),
    {
        let mut k: usize = 0;
        while k < self.peaks.len()
            invariant
                k <= self.peaks.len(),
                forall|w: int| 0 <= w < k ==> !(a <= #[trigger] self.peaks@[w] < b),
            decreases self.peaks.len() - k,
        {
            if self.peaks[k] >= a && self.peaks[k] < b {
                assert(a <= self.peak_list()[k as int] < b);
                return true;
            }
            k += 1;
        }
        false
    }

    fn is_free_exec(&self, i: usize) -> (r: bool)
        ensures
            r == self.is_free(i as int),
    {
        i < self.mask.len() && self.mask[i]
    }

    /// Handle the next sample.  `exceeds` tells whether the slope from the previous
    /// limited value to this sample exceeds the limit; it is ignored up to the
    /// start index.
    pub fn step(&mut self, exceeds: bool) -> (action: SlopeAction)
        requires
            old(self).wf(),
            old(self).position() < usize::MAX,
        ensures
            final(self).wf(),
            final(self).start() == old(self).start(),
            final(self).peak_list() == old(self).peak_list(),
            final(self).mask_list() == old(self).mask_list(),
            final(self).reported_list() == old(self).reported_list().push(exceeds),
            action matches SlopeAction::KeepAndRestore(rs) ==> forall|k: int|
                0 <= k < old(self).peak_list().len() ==> !(rs <= #[trigger] old(self).peak_list()[k] < old(self).position()),
            old(self).region() matches Some(rs) ==> (action == SlopeAction::Keep ==> exists|k: int|
                0 <= k < old(self).peak_list().len() && rs <= #[trigger] old(self).peak_list()[k] < old(self).position()),
            ({
                let i = old(self).position();
                let clip = i > old(self).start() && exceeds && !old(self).is_free(i);
                let c = old(self).clipped_list();
                if clip {
                    &&& action == SlopeAction::Clip
                    &&& final(self).clipped_list() == c.push(true)
                    &&& final(self).region() == (match old(self).region() {
                        Some(rs) => Some(rs),
                        None => Some(i as usize),
                    })
                } else {
                    &&& final(self).region() is None
                    &&& match old(self).region() {
                        Some(rs) => if old(self).has_peak_in(rs as int, i) {
                            action == SlopeAction::Keep && final(self).clipped_list() == c.push(false)
                        } else {
                            action == SlopeAction::KeepAndRestore(rs) && final(self).clipped_list()
                                == cleared(c, rs as int, i).push(false)
                        },
                        None => action == SlopeAction::Keep && final(self).clipped_list() == c.push(false),
                    }
                }
            }),
    {
        let i = self.clipped.len();
        let ghost c = self.clipped@;
        let ghost old_self = *self;
        let clip = i > self.start_index && exceeds && !self.is_free_exec(i);
        if clip {
            if self.open_region.is_none() {
                self.open_region = Some(i);
            }
            self.clipped.push(true);
            self.reported = Ghost(self.reported@.push(exceeds));
            proof {
                assert(self.peak_list() == old_self.peak_list());
                assert(self.mask_list() == old_self.mask_list());
                assert(old_self.clipped_list() == c);
                let c2 = self.clipped@;
                assert(c2 == c.push(true));
                assert forall|j: int| 0 <= j < c2.len() && #[trigger] c2[j] implies self.start_index < j
                    && !self.is_free(j) && self.reported@[j] by {
                    if j < i {
                        assert(c[j]);
                        assert(self.reported@[j] == old_self.reported@[j]);
                    }
                }
                assert forall|a: int, b: int| #[trigger] self.is_closed_run(a, b) implies self.has_peak_in(a, b + 1) by {
                    assert(b + 1 != i);
                    assert forall|k: int| a <= k <= b implies #[trigger] c[k] by {
                        assert(c2[k]);
                    }
                    assert(c[a - 1] == c2[a - 1]);
                    assert(c[b + 1] == c2[b + 1]);
                    assert(old_self.is_closed_run(a, b));
                }
                match old_self.open_region {
                    Some(rs) => {
                        assert forall|k: int| rs <= k < c2.len() implies #[trigger] c2[k] by {
                            if k < i {
                                assert(c[k]);
                            }
                        }
                    },
                    None => {},
                }
            }
            return SlopeAction::Clip;
        }
        let action = match self.open_region {
            Some(rs) => {
                if self.peak_in(rs, i) {
                    SlopeAction::Keep
                } else {
                    let mut j = rs;
                    while j < i
                        invariant
                            rs <= j <= i,
                            i == c.len(),
                            self.clipped@ == cleared(c, rs as int, j as int),
                            self.peaks@ == old_self.peaks@,
                            self.mask@ == old_self.mask@,
                            self.start_index == old_self.start_index,
                            self.open_region == old_self.open_region,
                            self.reported == old_self.reported,
                        decreases i - j,
                    {
                        self.clipped.set(j, false);
                        j += 1;
                        proof {
                            assert(self.clipped@ =~= cleared(c, rs as int, j as int));
                        }
                    }
                    SlopeAction::KeepAndRestore(rs)
                }
            },
            None => SlopeAction::Keep,
        };
        let ghost kept = match action {
            SlopeAction::KeepAndRestore(rs) => cleared(c, rs as int, i as int),
            _ => c,
        };
        assert(self.clipped@ == kept);
        self.open_region = None;
        self.clipped.push(false);
        self.reported = Ghost(self.reported@.push(exceeds));
        proof {
            assert(self.peak_list() == old_self.peak_list());
            assert(self.mask_list() == old_self.mask_list());
            assert(old_self.clipped_list() == c);
            let c2 = self.clipped@;
            assert(c2 == kept.push(false));
            assert forall|j: int| 0 <= j < i && #[trigger] c2[j] implies c[j] by {
                assert(c2[j] == kept[j]);
            }
            assert forall|j: int| 0 <= j < c2.len() && #[trigger] c2[j] implies self.start_index < j && !self.is_free(j)
                && self.reported@[j] by {
                assert(j < i);
                assert(c[j]);
                assert(self.reported@[j] == old_self.reported@[j]);
            }
            assert forall|a: int, b: int| #[trigger] self.is_closed_run(a, b) implies self.has_peak_in(a, b + 1) by {
                if b + 1 < i && kept == c {
                    assert forall|k: int| a <= k <= b implies #[trigger] c[k] by {
                        assert(c2[k]);
                    }
                    assert(c[a - 1] == c2[a - 1]);
                    assert(c[b + 1] == c2[b + 1]);
                }
                match old_self.open_region {
                    Some(rs) => {
                        if action == SlopeAction::Keep {
                            if b + 1 < i {
                                assert(old_self.is_closed_run(a, b));
                            } else {
                                assert(b == i - 1);
                                if a < rs {
                                    assert(c2[rs - 1]);
                                } else if a > rs {
                                    assert(c2[a - 1]);
                                }
                                assert(a == rs);
                                let k = choose|k: int| 0 <= k < old_self.peaks@.len() && rs <= #[trigger] old_self.peaks@[k] < i;
                                assert(self.peaks@[k] == old_self.peaks@[k]);
                            }
                        } else {
                            assert(c2[b]);
                            assert(b < rs);
                            if b + 1 == rs {
                                assert(c[rs - 1]);
                            }
                            assert(c2[b + 1] == c[b + 1]);
                            assert forall|k: int| a <= k <= b implies #[trigger] c[k] by {
                                assert(c2[k]);
                            }
                            assert(old_self.is_closed_run(a, b));
                        }
                    },
                    None => {
                        if b + 1 == i {
                            assert(c2[b]);
                            assert(c[i - 1]);
                        }
                        assert(b + 1 < i);
                        assert(old_self.is_closed_run(a, b));
                    },
                }
            }
        }
        action
    }

    /// Slope limiting never touches a sample at or before the start index, nor a
    /// limit-free sample.
    pub proof fn lemma_free_samples_unclipped(&self, j: int)
        requires
            self.wf(),
            0 <= j < self.position(),
            j <= self.start() || self.is_free(j),
        ensures
            !self.clipped_list()[j],
    {
    }

    /// A sample holds a clipped value only where the caller reported that its slope
    /// exceeds the limit.
    pub proof fn lemma_clipped_only_where_reported(&self, j: int)
        requires
            self.wf(),
            0 <= j < self.position(),
            self.clipped_list()[j],
        ensures
            self.reported_list()[j],
            j > self.start(),
            !self.is_free(j),
    {
    }

    /// Every clipped run that has been closed contains a peak: runs without a peak
    /// are put back.
    pub proof fn lemma_closed_runs_hold_peaks(&self, a: int, b: int)
        requires
            self.wf(),
            self.is_closed_run(a, b),
        ensures
            self.has_peak_in(a, b + 1),
    {
    }
}

/// Indices mirrored in a curve of `n` samples: `p` becomes `n - 1 - p`.
pub fn mirror_indices(n: usize, idx: &[usize]) -> (r: Vec<usize>)
    requires
        indices_in(idx@, n as int),
    ensures
        r.len() == idx.len(),
        forall|k: int| 0 <= k < idx.len() ==> #[trigger] r@[k] == n - 1 - idx[k],
{
    let mut r: Vec<usize> = Vec::new();
    let mut k: usize = 0;
    while k < idx.len()
        invariant
            k <= idx.len(),
            r.len() == k,
            indices_in(idx@, n as int),
            forall|w: int| 0 <= w < k ==> #[trigger] r@[w] == n - 1 - idx[w],
        decreases idx.len() - k,
    {
        r.push(n - idx[k] - 1);
        k += 1;
    }
    r
}

/// Mirroring indices twice gives them back.
pub proof fn lemma_mirror_twice(n: int, p: int)
    requires
        0 <= p < n,
    ensures
        0 <= n - 1 - p < n,
        n - 1 - (n - 1 - p) == p,
{
}

/// A mask read from the other end.
pub fn reversed_mask(mask: &[bool]) -> (r: Vec<bool>)
    ensures
        r@ == mask@.reverse(),
{
    let n = mask.len();
    let mut r: Vec<bool> = Vec::new();
    let mut k: usize = 0;
    while k < n
        invariant
            n == mask.len(),
            k <= n,
            r.len() == k,
            forall|w: int| 0 <= w < k ==> #[trigger] r@[w] == mask@[n - 1 - w],
        decreases n - k,
    {
        r.push(mask[n - 1 - k]);
        k += 1;
    }
    assert(r@ =~= mask@.reverse());
    r
}

} // verus!
