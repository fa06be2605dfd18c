//! Index decisions of filter initialisation: where a shelf or a peaking filter is
//! placed on the optimiser grid, given scores that the caller computes.
use vstd::prelude::*;
use crate::types::FilterType;
use crate::validate::ResolvedFlags;
use crate::params::slot_count;
use crate::search::{argmax_last, argmax_last_spec, lemma_argmax_last};

verus! {

/// End (exclusive) of the index range searched for a shelf frequency: at least one
/// past `min_ix`, at most the grid length.
pub open spec fn shelf_search_end_spec(min_ix: int, max_ix: int, len: int) -> int {
    let e = if max_ix >= min_ix + 1 { max_ix } else { min_ix + 1 };
    if e <= len { e } else { len }
}

/// End (exclusive) of the index range searched for a shelf frequency.
pub fn shelf_search_end(min_ix: usize, max_ix: usize, len: usize) -> (r: usize)
    requires
        min_ix < usize::MAX,
    ensures
        r == shelf_search_end_spec(min_ix as int, max_ix as int, len as int),
        r <= len,
        r <= max_ix || r <= min_ix + 1,
        r >= max_ix || r == len,
        r >= min_ix + 1 || r == len,
{
    let e = if max_ix >= min_ix + 1 { max_ix } else { min_ix + 1 };
    if e <= len { e } else { len }
}

/// Grid index of a shelf's frequency.  `scores[k]` scores candidate index
/// `min_ix + k`; the last best score wins (`0` when there is no candidate).  A low
/// shelf takes the winning candidate's grid index; a high shelf takes the winning
/// position counted from the start of the search range, not from the grid
/// start.  The result is capped at the last grid index.
pub open spec fn shelf_fc_index_spec(kind: FilterType, min_ix: int, scores: Seq<i64>, len: int) -> int {
    let offset = if scores.len() > 0 { argmax_last_spec(scores, 0, scores.len() as int) } else { 0 };
    let ix = if kind == FilterType::LSQ { offset + min_ix } else { offset };
    if ix <= len - 1 { ix } else { len - 1 }
}

/// Grid index of a shelf's frequency.
pub fn shelf_fc_index(kind: FilterType, min_ix: usize, scores: &[i64], len: usize) -> (r: usize)
    requires
        kind == FilterType::LSQ || kind == FilterType::HSQ,
        len >= 1,
        min_ix + scores.len() <= len,
    ensures
        r == shelf_fc_index_spec(kind, min_ix as int, scores@, len as int),
        r < len,
{
    let offset = if scores.len() > 0 { argmax_last(scores, 0, scores.len()) } else { 0 };
    let ix = if kind == FilterType::LSQ { offset + min_ix } else { offset };
    if ix <= len - 1 { ix } else { len - 1 }
}

/// The shelf frequency sits at the last best score: for a low shelf at that
/// candidate's grid index, for a high shelf at its position within the scores,
/// capped at the last grid index; without scores at `min_ix` (low shelf) or `0`
/// (high shelf), capped likewise.
pub proof fn lemma_shelf_fc_index_at_best(kind: FilterType, min_ix: int, scores: Seq<i64>, len: int)
    requires
        kind == FilterType::LSQ || kind == FilterType::HSQ,
        len >= 1,
        min_ix >= 0,
    ensures
        ({
            let r = shelf_fc_index_spec(kind, min_ix, scores, len);
            let base = if kind == FilterType::LSQ { min_ix } else { 0 };
            &&& 0 <= r < len
            &&& scores.len() == 0 ==> r == (if base <= len - 1 { base } else { len - 1 })
            &&& scores.len() > 0 ==> exists|o: int|
                #![trigger scores[o]]
                0 <= o < scores.len() && (forall|k: int| 0 <= k < scores.len() ==> #[trigger] scores[k] <= scores[o])
                    && (forall|k: int| o < k < scores.len() ==> #[trigger] scores[k] < scores[o])
                    && r == (if o + base <= len - 1 { o + base } else { len - 1 })
        }),
{
    if scores.len() > 0 {
        lemma_argmax_last(scores, 0, scores.len() as int);
        let o = argmax_last_spec(scores, 0, scores.len() as int);
        assert(0 <= o < scores.len());
        let base = if kind == FilterType::LSQ { min_ix } else { 0 };
        assert(shelf_fc_index_spec(kind, min_ix, scores, len) == (if o + base <= len - 1 { o + base } else { len - 1 }));
        assert(forall|k: int| 0 <= k < scores.len() ==> #[trigger] scores[k] <= scores[o]);
        assert(forall|k: int| o < k < scores.len() ==> #[trigger] scores[k] < scores[o]);
    }
}

/// Candidate peaks for a peaking filter: positions in the list of positive peaks
/// (flag `true`) then in the list of negative peaks (flag `false`) of those
/// peaks whose grid index lies in `[lo, hi]`, in list order.
pub open spec fn peaking_candidates_spec(pos_inds: Seq<usize>, neg_inds: Seq<usize>, lo: usize, hi: usize) -> Seq<(usize, bool)>
    decreases pos_inds.len() + neg_inds.len(),
{
    if neg_inds.len() > 0 {
        let rest = peaking_candidates_spec(pos_inds, neg_inds.drop_last(), lo, hi);
        let k = (neg_inds.len() - 1) as usize;
        if lo <= neg_inds.last() <= hi { rest.push((k, false)) } else { rest }
    } else if pos_inds.len() > 0 {
        let rest = peaking_candidates_spec(pos_inds.drop_last(), neg_inds, lo, hi);
        let k = (pos_inds.len() - 1) as usize;
        if lo <= pos_inds.last() <= hi { rest.push((k, true)) } else { rest }
    } else {
        Seq::empty()
    }
}

/// The candidates are exactly the peaks whose grid index lies in `[lo, hi]`: each
/// entry names such a peak, every such peak is named, the positive peaks come
/// before the negative ones, and within each list the order is kept.
pub proof fn lemma_peaking_candidates_exact(pos_inds: Seq<usize>, neg_inds: Seq<usize>, lo: usize, hi: usize)
    requires
        pos_inds.len() <= usize::MAX,
        neg_inds.len() <= usize::MAX,
    ensures
        ({
            let c = peaking_candidates_spec(pos_inds, neg_inds, lo, hi);
            &&& forall|w: int| 0 <= w < c.len() ==> (if (#[trigger] c[w]).1 {
                c[w].0 < pos_inds.len() && lo <= pos_inds[c[w].0 as int] <= hi
            } else {
                c[w].0 < neg_inds.len() && lo <= neg_inds[c[w].0 as int] <= hi
            })
            &&& forall|k: int| 0 <= k < pos_inds.len() && lo <= #[trigger] pos_inds[k] <= hi ==> c.contains((k as usize, true))
            &&& forall|k: int| 0 <= k < neg_inds.len() && lo <= #[trigger] neg_inds[k] <= hi ==> c.contains((k as usize, false))
            &&& forall|a: int, b: int| 0 <= a < b < c.len() ==> ((#[trigger] c[a]).1 == (#[trigger] c[b]).1 && c[a].0 < c[b].0)
                || (c[a].1 && !c[b].1)
        }),
    decreases pos_inds.len() + neg_inds.len(),
{
    let c = peaking_candidates_spec(pos_inds, neg_inds, lo, hi);
    if neg_inds.len() > 0 {
        let nd = neg_inds.drop_last();
        lemma_peaking_candidates_exact(pos_inds, nd, lo, hi);
        let rest = peaking_candidates_spec(pos_inds, nd, lo, hi);
        let x = ((neg_inds.len() - 1) as usize, false);
        assert forall|k: int| 0 <= k < pos_inds.len() && lo <= #[trigger] pos_inds[k] <= hi implies c.contains(
            (k as usize, true),
        ) by {
            assert(rest.contains((k as usize, true)));
            let w = choose|w: int| 0 <= w < rest.len() && rest[w] == (k as usize, true);
            assert(c[w] == rest[w]);
        }
        assert forall|k: int| 0 <= k < neg_inds.len() && lo <= #[trigger] neg_inds[k] <= hi implies c.contains(
            (k as usize, false),
        ) by {
            if k < neg_inds.len() - 1 {
                assert(nd[k] == neg_inds[k]);
                assert(rest.contains((k as usize, false)));
                let w = choose|w: int| 0 <= w < rest.len() && rest[w] == (k as usize, false);
                assert(c[w] == rest[w]);
            } else {
                assert(c[rest.len() as int] == x);
            }
        }
        assert forall|w: int| 0 <= w < c.len() implies (if (#[trigger] c[w]).1 {
            c[w].0 < pos_inds.len() && lo <= pos_inds[c[w].0 as int] <= hi
        } else {
            c[w].0 < neg_inds.len() && lo <= neg_inds[c[w].0 as int] <= hi
        }) by {
            if w < rest.len() {
                assert(c[w] == rest[w]);
                if !rest[w].1 {
                    assert(nd[rest[w].0 as int] == neg_inds[rest[w].0 as int]);
                }
            }
        }
        assert forall|a: int, b: int| 0 <= a < b < c.len() implies ((#[trigger] c[a]).1 == (#[trigger] c[b]).1
            && c[a].0 < c[b].0) || (c[a].1 && !c[b].1) by {
            assert(c[a] == rest[a]);
            if b < rest.len() {
                assert(c[b] == rest[b]);
            }
        }
    } else if pos_inds.len() > 0 {
        let pd = pos_inds.drop_last();
        lemma_peaking_candidates_exact(pd, neg_inds, lo, hi);
        let rest = peaking_candidates_spec(pd, neg_inds, lo, hi);
        let x = ((pos_inds.len() - 1) as usize, true);
        assert forall|k: int| 0 <= k < pos_inds.len() && lo <= #[trigger] pos_inds[k] <= hi implies c.contains(
            (k as usize, true),
        ) by {
            if k < pos_inds.len() - 1 {
                assert(pd[k] == pos_inds[k]);
                assert(rest.contains((k as usize, true)));
                let w = choose|w: int| 0 <= w < rest.len() && rest[w] == (k as usize, true);
                assert(c[w] == rest[w]);
            } else {
                assert(c[rest.len() as int] == x);
            }
        }
        assert forall|w: int| 0 <= w < c.len() implies (if (#[trigger] c[w]).1 {
            c[w].0 < pos_inds.len() && lo <= pos_inds[c[w].0 as int] <= hi
        } else {
            c[w].0 < neg_inds.len() && lo <= neg_inds[c[w].0 as int] <= hi
        }) by {
            if w < rest.len() {
                assert(c[w] == rest[w]);
                if rest[w].1 {
                    assert(pd[rest[w].0 as int] == pos_inds[rest[w].0 as int]);
                }
            }
        }
        assert forall|a: int, b: int| 0 <= a < b < c.len() implies ((#[trigger] c[a]).1 == (#[trigger] c[b]).1
            && c[a].0 < c[b].0) || (c[a].1 && !c[b].1) by {
            assert(c[a] == rest[a]);
            if b < rest.len() {
                assert(c[b] == rest[b]);
            }
        }
    }
}

/// Candidate peaks for a peaking filter, in the range `[lo, hi]`.
pub fn peaking_candidates(pos_inds: &[usize], neg_inds: &[usize], lo: usize, hi: usize) -> (r: Vec<(usize, bool)>)
    ensures
        r@ == peaking_candidates_spec(pos_inds@, neg_inds@, lo, hi),
        forall|k: int| 0 <= k < r.len() ==> (if (#[trigger] r@[k]).1 {
            r@[k].0 < pos_inds.len() && lo <= pos_inds[r@[k].0 as int] <= hi
        } else {
            r@[k].0 < neg_inds.len() && lo <= neg_inds[r@[k].0 as int] <= hi
        }),
{
    let mut r: Vec<(usize, bool)> = Vec::new();
    let mut k: usize = 0;
    let ghost empty: Seq<usize> = Seq::empty();
    while k < pos_inds.len()
        invariant
            k <= pos_inds.len(),
            empty == Seq::<usize>::empty(),
            r@ == peaking_candidates_spec(pos_inds@.take(k as int), empty, lo, hi),
            forall|w: int| 0 <= w < r.len() ==> (#[trigger] r@[w]).1 && r@[w].0 < k && lo <= pos_inds[r@[w].0 as int] <= hi,
        decreases pos_inds.len() - k,
    {
        proof {
            assert(pos_inds@.take(k + 1).drop_last() =~= pos_inds@.take(k as int));
            assert(pos_inds@.take(k + 1).last() == pos_inds@[k as int]);
            assert(empty.len() == 0);
            assert(pos_inds@.take(k + 1).len() == k + 1);
        }
        if lo <= pos_inds[k] && pos_inds[k] <= hi {
            r.push((k, true));
        }
        assert(r@ == peaking_candidates_spec(pos_inds@.take(k + 1), empty, lo, hi));
        k += 1;
    }
    assert(pos_inds@.take(pos_inds.len() as int) =~= pos_inds@);
    assert(neg_inds@.take(0) =~= empty);
    let mut k: usize = 0;
    while k < neg_inds.len()
        invariant
            k <= neg_inds.len(),
            r@ == peaking_candidates_spec(pos_inds@, neg_inds@.take(k as int), lo, hi),
            forall|w: int| 0 <= w < r.len() ==> (if (#[trigger] r@[w]).1 {
                r@[w].0 < pos_inds.len() && lo <= pos_inds[r@[w].0 as int] <= hi
            } else {
                r@[w].0 < k && lo <= neg_inds[r@[w].0 as int] <= hi
            }),
        decreases neg_inds.len() - k,
    {
        proof {
            assert(neg_inds@.take(k + 1).drop_last() =~= neg_inds@.take(k as int));
            assert(neg_inds@.take(k + 1).last() == neg_inds@[k as int]);
        }
        if lo <= neg_inds[k] && neg_inds[k] <= hi {
            r.push((k, false));
        }
        assert(r@ == peaking_candidates_spec(pos_inds@, neg_inds@.take(k + 1), lo, hi));
        k += 1;
    }
    assert(neg_inds@.take(neg_inds.len() as int) =~= neg_inds@);
    r
}

/// Grid index used by a peaking filter when no candidate peak lies in its range:
/// the middle of `[lo, hi]`, capped at the last grid index.
pub fn peaking_fallback_index(lo: usize, hi: usize, len: usize) -> (r: usize)
    requires
        len >= 1,
    ensures
        r == (if (lo + hi) / 2 <= len - 1 { (lo + hi) / 2 } else { len - 1 }),
{
    let mid = lo / 2 + hi / 2 + (lo % 2 + hi % 2) / 2;
    if mid <= len - 1 { mid } else { len - 1 }
}

/// Largest index of the range searched for a peaking filter: the number of grid
/// points below the range's upper frequency, capped at the last grid index.
pub fn peaking_search_last(count_below_upper: usize, len: usize) -> (r: usize)
    requires
        len >= 1,
    ensures
        r == (if count_below_upper <= len - 1 { count_below_upper } else { (len - 1) as usize }),
{
    if count_below_upper <= len - 1 { count_below_upper } else { len - 1 }
}

/// No parameter of the filter is left to the optimiser.
pub open spec fn fully_locked(f: ResolvedFlags) -> bool {
    !f.optimize_fc && !f.optimize_q && !f.optimize_gain
}

/// Whether initialisation is skipped: a fully locked filter keeps its given
/// values (or the defaults) and no search is made for it.
pub fn is_fully_locked(f: ResolvedFlags) -> (r: bool)
    ensures
        r == fully_locked(f),
{
    !f.optimize_fc && !f.optimize_q && !f.optimize_gain
}

/// A filter is skipped by initialisation exactly when it has no slot in the
/// optimiser's parameter vector; a filter with any free parameter is searched for.
pub proof fn lemma_fully_locked_iff_no_slots(f: ResolvedFlags)
    ensures
        fully_locked(f) <==> slot_count(f) == 0,
        f.optimize_fc || f.optimize_q || f.optimize_gain ==> !fully_locked(f),
{
}

/// Where a peaking filter's initial gain comes from.
#[derive(Clone, Copy, Debug, PartialEq, Eq, Structural)]
pub enum GainChoice {
    /// The given gain, as it is: it is locked, so the optimiser never moves it.
    Given,
    /// The given gain, brought into the gain range: it only seeds the optimiser.
    GivenInRange,
    /// The gain of the chosen candidate peak, brought into the gain range.
    ComputedInRange,
}

/// Source of a peaking filter's initial gain: a given gain that is locked is kept
/// as it is, a given gain that is free seeds the optimiser from inside the range,
/// and without a given gain the candidate's gain is used, inside the range.
pub fn peaking_gain_choice(has_gain: bool, optimize_gain: bool) -> (r: GainChoice)
    ensures
        r == (if has_gain && !optimize_gain {
            GainChoice::Given
        } else if has_gain {
            GainChoice::GivenInRange
        } else {
            GainChoice::ComputedInRange
        }),
{
    if has_gain {
        if optimize_gain { GainChoice::GivenInRange } else { GainChoice::Given }
    } else {
        GainChoice::ComputedInRange
    }
}

} // verus!
