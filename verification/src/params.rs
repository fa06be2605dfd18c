//! Parameter layout for the optimiser and the order in which filters are
//! initialised.
//!
//! Each filter contributes its free parameters, in the order fc, q, gain, to the
//! flat parameter vector; locked parameters are skipped.  The layout is generic in
//! the parameter type: the caller encodes values (fc as its base-10 logarithm),
//! and bounds use the same layout with a pair per parameter.
use vstd::prelude::*;
use crate::types::FilterType;
use crate::validate::ResolvedFlags;

verus! {

/// Number of free parameters of one filter.
pub open spec fn slot_count(f: ResolvedFlags) -> int {
    (if f.optimize_fc { 1int } else { 0int }) + (if f.optimize_q { 1int } else { 0int }) + (if f.optimize_gain {
        1int
    } else {
        0int
    })
}

/// The free parameters of one filter, in the order fc, q, gain.
pub open spec fn filter_slots<T>(v: (T, T, T), f: ResolvedFlags) -> Seq<T> {
    (if f.optimize_fc { seq![v.0] } else { Seq::empty() }) + (if f.optimize_q { seq![v.1] } else { Seq::empty() })
        + (if f.optimize_gain { seq![v.2] } else { Seq::empty() })
}

/// Number of free parameters of a list of filters.
pub open spec fn free_count(flags: Seq<ResolvedFlags>) -> int
    decreases flags.len(),
{
    if flags.len() == 0 {
        0
    } else {
        free_count(flags.drop_last()) + slot_count(flags.last())
    }
}

/// Position in the parameter vector of the first free parameter of filter `k`.
pub open spec fn offset(flags: Seq<ResolvedFlags>, k: int) -> int {
    free_count(flags.take(k))
}

/// The parameter vector of a list of filters.
pub open spec fn encode_spec<T>(values: Seq<(T, T, T)>, flags: Seq<ResolvedFlags>) -> Seq<T>
    decreases flags.len(),
{
    if flags.len() == 0 || values.len() == 0 {
        Seq::empty()
    } else {
        encode_spec(values.drop_last(), flags.drop_last()) + filter_slots(values.last(), flags.last())
    }
}

/// The free values of one filter read from the parameter vector at `off`.
pub open spec fn decode_one<T>(x: Seq<T>, off: int, f: ResolvedFlags) -> (Option<T>, Option<T>, Option<T>) {
    let q_off = off + if f.optimize_fc { 1int } else { 0int };
    let g_off = q_off + if f.optimize_q { 1int } else { 0int };
    (
        if f.optimize_fc { Some(x[off]) } else { None },
        if f.optimize_q { Some(x[q_off]) } else { None },
        if f.optimize_gain { Some(x[g_off]) } else { None },
    )
}

/// The free values of each filter of the list, read from the parameter vector.
pub open spec fn decode_spec<T>(x: Seq<T>, flags: Seq<ResolvedFlags>) -> Seq<(Option<T>, Option<T>, Option<T>)> {
    Seq::new(flags.len(), |k: int| decode_one(x, offset(flags, k), flags[k]))
}

/// The free values of one filter, `None` standing for a locked parameter.
pub open spec fn free_values<T>(v: (T, T, T), f: ResolvedFlags) -> (Option<T>, Option<T>, Option<T>) {
    (
        if f.optimize_fc { Some(v.0) } else { None },
        if f.optimize_q { Some(v.1) } else { None },
        if f.optimize_gain { Some(v.2) } else { None },
    )
}

proof fn lemma_free_count_nonneg(flags: Seq<ResolvedFlags>)
    ensures
        free_count(flags) >= 0,
    decreases flags.len(),
{
    if flags.len() > 0 {
        lemma_free_count_nonneg(flags.drop_last());
    }
}

/// Offsets grow by the slot count of each filter.
proof fn lemma_offset_step(flags: Seq<ResolvedFlags>, k: int)
    requires
        0 <= k < flags.len(),
    ensures
        offset(flags, k + 1) == offset(flags, k) + slot_count(flags[k]),
{
    assert(flags.take(k + 1).drop_last() =~= flags.take(k));
}

/// Offsets are the same in a list and in a longer list that starts with it.
proof fn lemma_offset_prefix(flags: Seq<ResolvedFlags>, m: int, k: int)
    requires
        0 <= k <= m <= flags.len(),
    ensures
        offset(flags.take(m), k) == offset(flags, k),
{
    assert(flags.take(m).take(k) =~= flags.take(k));
}

/// Offsets never exceed the total number of free parameters.
proof fn lemma_offset_bounded(flags: Seq<ResolvedFlags>, k: int)
    requires
        0 <= k <= flags.len(),
    ensures
        0 <= offset(flags, k) <= free_count(flags),
        offset(flags, flags.len() as int) == free_count(flags),
    decreases flags.len() - k,
{
    assert(flags.take(flags.len() as int) =~= flags);
    lemma_free_count_nonneg(flags.take(k));
    if k < flags.len() {
        lemma_offset_step(flags, k);
        lemma_offset_bounded(flags, k + 1);
    }
}

/// The parameter vector holds the free parameters of filter `k` at its offset.
pub proof fn lemma_encode_layout<T>(values: Seq<(T, T, T)>, flags: Seq<ResolvedFlags>, k: int, j: int)
    requires
        values.len() == flags.len(),
        0 <= k < flags.len(),
        0 <= j < slot_count(flags[k]),
    ensures
        encode_spec(values, flags).len() == free_count(flags),
        offset(flags, k) + j < free_count(flags),
        encode_spec(values, flags)[offset(flags, k) + j] == filter_slots(values[k], flags[k])[j],
    decreases flags.len(),
{
    let n = flags.len() as int;
    let v2 = values.drop_last();
    let f2 = flags.drop_last();
    lemma_encode_len(values, flags);
    lemma_encode_len(v2, f2);
    assert(flags.take(n - 1) =~= f2);
    lemma_offset_step(flags, n - 1);
    lemma_offset_bounded(flags, n - 1);
    lemma_offset_bounded(flags, k);
    if k < n - 1 {
        lemma_encode_layout(v2, f2, k, j);
        lemma_offset_prefix(flags, n - 1, k);
        lemma_offset_step(flags, k);
        lemma_offset_bounded(flags, k + 1);
        lemma_offset_prefix(flags, n - 1, k + 1);
        lemma_offset_bounded(f2, k + 1);
    } else {
        assert(offset(flags, k) == free_count(f2));
    }
}

/// The parameter vector has one entry per free parameter.
pub proof fn lemma_encode_len<T>(values: Seq<(T, T, T)>, flags: Seq<ResolvedFlags>)
    requires
        values.len() == flags.len(),
    ensures
        encode_spec(values, flags).len() == free_count(flags),
    decreases flags.len(),
{
    if flags.len() > 0 {
        lemma_encode_len(values.drop_last(), flags.drop_last());
    }
}

/// Encoding then decoding gives back the free values of every filter.
pub proof fn lemma_encode_decode_roundtrip<T>(values: Seq<(T, T, T)>, flags: Seq<ResolvedFlags>)
    requires
        values.len() == flags.len(),
    ensures
        encode_spec(values, flags).len() == free_count(flags),
        decode_spec(encode_spec(values, flags), flags) == Seq::new(
            flags.len(),
            |k: int| free_values(values[k], flags[k]),
        ),
{
    lemma_encode_len(values, flags);
    let x = encode_spec(values, flags);
    assert forall|k: int| 0 <= k < flags.len() implies #[trigger] decode_one(x, offset(flags, k), flags[k])
        == free_values(values[k], flags[k]) by {
        let f = flags[k];
        let fc = if f.optimize_fc { 1int } else { 0int };
        let fq = if f.optimize_q { 1int } else { 0int };
        if f.optimize_fc {
            lemma_encode_layout(values, flags, k, 0);
        }
        if f.optimize_q {
            lemma_encode_layout(values, flags, k, fc);
        }
        if f.optimize_gain {
            lemma_encode_layout(values, flags, k, fc + fq);
        }
    }
    assert(decode_spec(x, flags) =~= Seq::new(flags.len(), |k: int| free_values(values[k], flags[k])));
}

/// A locked parameter is never read from the parameter vector: decoding leaves it
/// out, so the caller keeps the value the filter had.
pub proof fn lemma_locked_parameters_not_decoded<T>(x: Seq<T>, flags: Seq<ResolvedFlags>, k: int)
    requires
        0 <= k < flags.len(),
    ensures
        !flags[k].optimize_fc ==> decode_spec(x, flags)[k].0 is None,
        !flags[k].optimize_q ==> decode_spec(x, flags)[k].1 is None,
        !flags[k].optimize_gain ==> decode_spec(x, flags)[k].2 is None,
        flags[k].optimize_fc ==> decode_spec(x, flags)[k].0 is Some,
        flags[k].optimize_q ==> decode_spec(x, flags)[k].1 is Some,
        flags[k].optimize_gain ==> decode_spec(x, flags)[k].2 is Some,
{
}

/// The flat parameter vector of the filters (`values` and `flags` are read
/// pairwise, up to the shorter of the two).
pub fn encode_params<T: Copy>(values: &[(T, T, T)], flags: &[ResolvedFlags]) -> (x: Vec<T>)
    ensures
        ({
            let m = if values.len() <= flags.len() { values.len() as int } else { flags.len() as int };
            x@ == encode_spec(values@.take(m), flags@.take(m))
        }),
{
    let m = if values.len() <= flags.len() { values.len() } else { flags.len() };
    let mut x: Vec<T> = Vec::new();
    let mut k: usize = 0;
    while k < m
        invariant
            k <= m,
            m <= values.len(),
            m <= flags.len(),
            x@ == encode_spec(values@.take(k as int), flags@.take(k as int)),
        decreases m - k,
    {
        let (a, b, c) = values[k];
        let f = flags[k];
        if f.optimize_fc {
            x.push(a);
        }
        if f.optimize_q {
            x.push(b);
        }
        if f.optimize_gain {
            x.push(c);
        }
        proof {
            let vk = values@.take(k + 1);
            let fk = flags@.take(k + 1);
            assert(vk.drop_last() =~= values@.take(k as int));
            assert(fk.drop_last() =~= flags@.take(k as int));
            assert(x@ =~= encode_spec(values@.take(k as int), flags@.take(k as int)) + filter_slots(
                values@[k as int],
                f,
            ));
        }
        k += 1;
    }
    x
}

/// Number of free parameters of the filters.
pub fn free_param_count(flags: &[ResolvedFlags]) -> (r: usize)
    requires
        flags.len() <= usize::MAX / 3,
    ensures
        r == free_count(flags@),
{
    let mut r: usize = 0;
    let mut k: usize = 0;
    while k < flags.len()
        invariant
            k <= flags.len() <= usize::MAX / 3,
            r == free_count(flags@.take(k as int)),
            r <= 3 * k,
        decreases flags.len() - k,
    {
        proof {
            assert(flags@.take(k + 1).drop_last() =~= flags@.take(k as int));
        }
        let f = flags[k];
        if f.optimize_fc {
            r += 1;
        }
        if f.optimize_q {
            r += 1;
        }
        if f.optimize_gain {
            r += 1;
        }
        k += 1;
    }
    assert(flags@.take(flags.len() as int) =~= flags@);
    r
}

/// Bounds and values share one layout: as many bounds as parameters.
pub proof fn lemma_bounds_match_values<B, T>(ranges: Seq<(B, B, B)>, values: Seq<(T, T, T)>, flags: Seq<ResolvedFlags>)
    requires
        ranges.len() == flags.len(),
        values.len() == flags.len(),
    ensures
        encode_spec(ranges, flags).len() == encode_spec(values, flags).len(),
{
    lemma_encode_len(ranges, flags);
    lemma_encode_len(values, flags);
}

/// Bounds of the free parameters, in the layout of [`encode_params`].
pub fn build_bounds<B: Copy>(ranges: &[(B, B, B)], flags: &[ResolvedFlags]) -> (bounds: Vec<B>)
    ensures
        ({
            let m = if ranges.len() <= flags.len() { ranges.len() as int } else { flags.len() as int };
            bounds@ == encode_spec(ranges@.take(m), flags@.take(m))
        }),
{
    encode_params(ranges, flags)
}

/// The free values of each filter read from the flat parameter vector.
pub fn decode_params<T: Copy>(x: &[T], flags: &[ResolvedFlags]) -> (r: Vec<(Option<T>, Option<T>, Option<T>)>)
    requires
        x.len() >= free_count(flags@),
    ensures
        r@ == decode_spec(x@, flags@),
{
    let mut r: Vec<(Option<T>, Option<T>, Option<T>)> = Vec::new();
    let mut i: usize = 0;
    let mut k: usize = 0;
    proof {
        lemma_offset_bounded(flags@, 0);
    }
    while k < flags.len()
        invariant
            k <= flags.len(),
            x.len() >= free_count(flags@),
            i == offset(flags@, k as int),
            r.len() == k,
            forall|w: int| 0 <= w < k ==> #[trigger] r@[w] == decode_one(x@, offset(flags@, w), flags@[w]),
        decreases flags.len() - k,
    {
        let f = flags[k];
        proof {
            lemma_offset_step(flags@, k as int);
            lemma_offset_bounded(flags@, k + 1);
        }
        let fc = if f.optimize_fc {
            i += 1;
            Some(x[i - 1])
        } else {
            None
        };
        let q = if f.optimize_q {
            i += 1;
            Some(x[i - 1])
        } else {
            None
        };
        let g = if f.optimize_gain {
            i += 1;
            Some(x[i - 1])
        } else {
            None
        };
        r.push((fc, q, g));
        k += 1;
    }
    assert(r@ =~= decode_spec(x@, flags@));
    r
}

/// Rank of a filter type in the initialisation priority table.
pub open spec fn type_rank(t: FilterType) -> int {
    match t {
        FilterType::PK => 0,
        FilterType::LSQ => 1,
        FilterType::HSQ => 2,
    }
}

/// Rank of a lock pattern in the initialisation priority table (fc and q free
/// first, all locked last).
pub open spec fn lock_rank(optimize_fc: bool, optimize_q: bool) -> int {
    if optimize_fc && optimize_q {
        0
    } else if optimize_fc {
        1
    } else if optimize_q {
        2
    } else {
        3
    }
}

/// Entry of the 12-entry initialisation priority table (the gain flag takes no part).
pub fn priority_table_index(ft: FilterType, optimize_fc: bool, optimize_q: bool) -> (r: usize)
    ensures
        r == 3 * lock_rank(optimize_fc, optimize_q) + type_rank(ft),
        r < 12,
{
    let t: usize = match ft {
        FilterType::PK => 0,
        FilterType::LSQ => 1,
        FilterType::HSQ => 2,
    };
    let l: usize = if optimize_fc && optimize_q {
        0
    } else if optimize_fc {
        1
    } else if optimize_q {
        2
    } else {
        3
    };
    3 * l + t
}

/// Different type or lock pattern, different table entry.
pub proof fn lemma_priority_index_injective(t1: FilterType, fc1: bool, q1: bool, t2: FilterType, fc2: bool, q2: bool)
    requires
        3 * lock_rank(fc1, q1) + type_rank(t1) == 3 * lock_rank(fc2, q2) + type_rank(t2),
    ensures
        t1 == t2,
        fc1 == fc2,
        q1 == q2,
{
}

/// The initialisation priority table: within one lock pattern a high shelf
/// outranks a low shelf, which outranks a peaking filter; across patterns, whatever
/// the types, a filter with both fc and q free ranks lowest, then fc free and q
/// locked, then fc locked and q free, and a filter with both locked ranks highest.
pub proof fn lemma_priority_table_order(t1: FilterType, t2: FilterType, fc: bool, q: bool)
    ensures
        3 * lock_rank(fc, q) + type_rank(FilterType::PK) < 3 * lock_rank(fc, q) + type_rank(FilterType::LSQ),
        3 * lock_rank(fc, q) + type_rank(FilterType::LSQ) < 3 * lock_rank(fc, q) + type_rank(FilterType::HSQ),
        3 * lock_rank(true, true) + type_rank(t1) < 3 * lock_rank(true, false) + type_rank(t2),
        3 * lock_rank(true, false) + type_rank(t1) < 3 * lock_rank(false, true) + type_rank(t2),
        3 * lock_rank(false, true) + type_rank(t1) < 3 * lock_rank(false, false) + type_rank(t2),
        0 <= 3 * lock_rank(fc, q) + type_rank(t1) < 12,
{
}

/// Filter `a` comes before filter `b`: higher priority key, or equal key and lower index.
pub open spec fn precedes(keys: Seq<i64>, a: usize, b: usize) -> bool {
    keys[a as int] > keys[b as int] || (keys[a as int] == keys[b as int] && a < b)
}

/// The initialisation order is by descending key: a filter that comes first has a
/// key at least as high, and among equal keys the lower index comes first.
pub proof fn lemma_precedes_descending(keys: Seq<i64>, a: usize, b: usize)
    requires
        precedes(keys, a, b),
    ensures
        keys[a as int] >= keys[b as int],
        keys[a as int] == keys[b as int] ==> a < b,
        a != b,
{
}

/// Indices of the filters sorted by descending priority key, ties kept in index
/// order (a stable descending sort).
pub fn init_order(keys: &[i64]) -> (r: Vec<usize>)
    ensures
        r.len() == keys.len(),
        forall|k: int| 0 <= k < r.len() ==> #[trigger] r@[k] < keys.len(),
        forall|a: int, b: int| 0 <= a < b < r.len() ==> precedes(keys@, #[trigger] r@[a], #[trigger] r@[b]),
        forall|j: int| 0 <= j < keys.len() ==> #[trigger] r@.contains(j as usize),
{
    let n = keys.len();
    let mut r: Vec<usize> = Vec::new();
    let mut i: usize = 0;
    while i < n
        invariant
            i <= n == keys.len(),
            r.len() == i,
            forall|k: int| 0 <= k < r.len() ==> #[trigger] r@[k] < i,
            forall|a: int, b: int| 0 <= a < b < r.len() ==> precedes(keys@, #[trigger] r@[a], #[trigger] r@[b]),
            forall|j: int| 0 <= j < i ==> #[trigger] r@.contains(j as usize),
        decreases n - i,
    {
        let mut pos: usize = 0;
        while pos < r.len() && keys[r[pos]] >= keys[i]
            invariant
                pos <= r.len() == i,
                i < n == keys.len(),
                forall|k: int| 0 <= k < r.len() ==> #[trigger] r@[k] < i,
                forall|k: int| 0 <= k < pos ==> keys@[#[trigger] r@[k] as int] >= keys@[i as int],
            decreases r.len() - pos,
        {
            pos += 1;
        }
        let ghost old_r = r@;
        r.insert(pos, i);
        proof {
            assert forall|a: int, b: int| 0 <= a < b < r.len() implies precedes(keys@, #[trigger] r@[a], #[trigger] r@[b]) by {
                if b < pos {
                    assert(precedes(keys@, old_r[a], old_r[b]));
                } else if b == pos {
                    assert(keys@[old_r[a] as int] >= keys@[i as int]);
                } else if a < pos {
                    assert(precedes(keys@, old_r[a], old_r[b - 1]));
                } else if a == pos {
                    assert(keys@[old_r[pos as int] as int] < keys@[i as int]);
                    if pos < b - 1 {
                        assert(precedes(keys@, old_r[pos as int], old_r[b - 1]));
                    }
                } else {
                    assert(precedes(keys@, old_r[a - 1], old_r[b - 1]));
                }
            }
            assert forall|j: int| 0 <= j < i + 1 implies #[trigger] r@.contains(j as usize) by {
                if j < i {
                    assert(old_r.contains(j as usize));
                    let w = choose|w: int| 0 <= w < old_r.len() && old_r[w] == j as usize;
                    if w < pos {
                        assert(r@[w] == j as usize);
                    } else {
                        assert(r@[w + 1] == j as usize);
                    }
                } else {
                    assert(r@[pos as int] == i);
                }
            }
            assert forall|k: int| 0 <= k < r.len() implies #[trigger] r@[k] < i + 1 by {
                if k < pos {
                    assert(r@[k] == old_r[k]);
                } else if k > pos {
                    assert(r@[k] == old_r[k - 1]);
                }
            }
        }
        i += 1;
    }
    r
}

} // verus!
