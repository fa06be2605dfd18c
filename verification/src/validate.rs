//! Validation of filter specs and resolution of their defaults (the part of a
//! spec that decides which parameters the optimiser may move).
use vstd::prelude::*;
use crate::types::{BiquadError, FilterType};
use crate::order::{is_nan_bits, any_nan};

verus! {

/// What validation reads of one filter spec: its type, which initial values are
/// given, and the optimise flags.
#[derive(Clone, Copy, Debug, PartialEq, Eq, Structural)]
pub struct FilterSpecFlags {
    pub filter_type: Option<FilterType>,
    pub has_fc: bool,
    pub has_q: bool,
    pub has_gain: bool,
    pub optimize_fc: Option<bool>,
    pub optimize_q: Option<bool>,
    pub optimize_gain: Option<bool>,
}

/// A spec with its defaults applied: the type (peaking by default) and which
/// parameters are free (all by default).
#[derive(Clone, Copy, Debug, PartialEq, Eq, Structural)]
pub struct ResolvedFlags {
    pub filter_type: FilterType,
    pub optimize_fc: bool,
    pub optimize_q: bool,
    pub optimize_gain: bool,
}

/// An optional flag with its default (`true`).
pub open spec fn flag_or_true(f: Option<bool>) -> bool {
    match f {
        Some(b) => b,
        None => true,
    }
}

/// The spec with its defaults applied.
pub open spec fn resolved(s: FilterSpecFlags) -> ResolvedFlags {
    ResolvedFlags {
        filter_type: match s.filter_type {
            Some(t) => t,
            None => FilterType::PK,
        },
        optimize_fc: flag_or_true(s.optimize_fc),
        optimize_q: flag_or_true(s.optimize_q),
        optimize_gain: flag_or_true(s.optimize_gain),
    }
}

/// Which parameter of a spec is locked without a value to lock it at, checked in
/// the order fc, q, gain (0, 1, 2); `None` when the spec is consistent.
pub open spec fn lock_violation(s: FilterSpecFlags) -> Option<int> {
    if !s.has_fc && !flag_or_true(s.optimize_fc) {
        Some(0)
    } else if !s.has_q && !flag_or_true(s.optimize_q) {
        Some(1)
    } else if !s.has_gain && !flag_or_true(s.optimize_gain) {
        Some(2)
    } else {
        None
    }
}

/// A spec is inconsistent exactly when it explicitly locks (flag `Some(false)`) a
/// parameter it gives no value for; the first such parameter, in the order fc, q,
/// gain, is the one reported.  Giving a value, or leaving a flag unset, never makes
/// a spec inconsistent.
pub proof fn lemma_lock_violation_exact(s: FilterSpecFlags)
    ensures
        lock_violation(s) is Some <==> (!s.has_fc && s.optimize_fc == Some(false)) || (!s.has_q && s.optimize_q
            == Some(false)) || (!s.has_gain && s.optimize_gain == Some(false)),
        lock_violation(s) == Some(0int) <==> !s.has_fc && s.optimize_fc == Some(false),
        lock_violation(s) == Some(1int) <==> !(!s.has_fc && s.optimize_fc == Some(false)) && !s.has_q
            && s.optimize_q == Some(false),
        lock_violation(s) == Some(2int) <==> !(!s.has_fc && s.optimize_fc == Some(false)) && !(!s.has_q
            && s.optimize_q == Some(false)) && !s.has_gain && s.optimize_gain == Some(false),
{
}

/// Defaults of a spec: a parameter is free unless its flag is explicitly `false`,
/// and the type is peaking unless given.
pub proof fn lemma_resolved_defaults(s: FilterSpecFlags)
    ensures
        resolved(s).optimize_fc == (s.optimize_fc != Some(false)),
        resolved(s).optimize_q == (s.optimize_q != Some(false)),
        resolved(s).optimize_gain == (s.optimize_gain != Some(false)),
        s.filter_type is None ==> resolved(s).filter_type == FilterType::PK,
        s.filter_type matches Some(t) ==> resolved(s).filter_type == t,
{
}

/// Message reported for a locked parameter without a value.
pub open spec fn violation_message(v: int) -> Seq<char> {
    if v == 0 {
        "fc=None with optimize_fc=false: cannot lock an unspecified fc"@
    } else if v == 1 {
        "q=None with optimize_q=false: cannot lock an unspecified q"@
    } else {
        "gain=None with optimize_gain=false: cannot lock an unspecified gain"@
    }
}

/// Index of the first inconsistent spec, if any.
pub open spec fn first_invalid(specs: Seq<FilterSpecFlags>) -> Option<int> {
    if exists|k: int| 0 <= k < specs.len() && lock_violation(#[trigger] specs[k]) is Some {
        Some(choose|k: int| 0 <= k < specs.len() && lock_violation(#[trigger] specs[k]) is Some
            && forall|w: int| 0 <= w < k ==> lock_violation(#[trigger] specs[w]) is None)
    } else {
        None
    }
}

fn flag_or_true_exec(f: Option<bool>) -> (r: bool)
    ensures
        r == flag_or_true(f),
{
    match f {
        Some(b) => b,
        None => true,
    }
}

/// Apply the defaults of every spec, or report the first spec that locks a
/// parameter it gives no value for.
pub fn resolve_specs(specs: &[FilterSpecFlags]) -> (r: Result<Vec<ResolvedFlags>, BiquadError>)
    ensures
        match r {
            Ok(v) => {
                &&& forall|k: int| 0 <= k < specs.len() ==> lock_violation(#[trigger] specs[k]) is None
                &&& v.len() == specs.len()
                &&& forall|k: int| 0 <= k < specs.len() ==> #[trigger] v@[k] == resolved(specs[k])
            },
            Err(e) => {
                &&& 0 <= first_invalid(specs@)->0 < specs.len()
                &&& lock_violation(specs[first_invalid(specs@)->0]) is Some
                &&& forall|w: int| 0 <= w < first_invalid(specs@)->0 ==> lock_violation(#[trigger] specs[w]) is None
                &&& e matches BiquadError::InvalidFilterSpec(m) && m@ == violation_message(
                    lock_violation(specs[first_invalid(specs@)->0])->0,
                )
            },
        },
        r is Err <==> exists|k: int|
            0 <= k < specs.len() && ((!(#[trigger] specs[k]).has_fc && specs[k].optimize_fc == Some(false)) || (
            !specs[k].has_q && specs[k].optimize_q == Some(false)) || (!specs[k].has_gain && specs[k].optimize_gain
                == Some(false))),
{
    proof {
        assert forall|k: int| 0 <= k < specs.len() implies (lock_violation(#[trigger] specs[k]) is Some <==> (
        !specs[k].has_fc && specs[k].optimize_fc == Some(false)) || (!specs[k].has_q && specs[k].optimize_q == Some(
            false,
        )) || (!specs[k].has_gain && specs[k].optimize_gain == Some(false))) by {
            lemma_lock_violation_exact(specs[k]);
        }
    }
    let mut out: Vec<ResolvedFlags> = Vec::new();
    let mut k: usize = 0;
    while k < specs.len()
        invariant
            k <= specs.len(),
            out.len() == k,
            forall|w: int| 0 <= w < k ==> lock_violation(#[trigger] specs[w]) is None,
            forall|w: int| 0 <= w < k ==> #[trigger] out@[w] == resolved(specs[w]),
        decreases specs.len() - k,
    {
        let s = specs[k];
        let opt_fc = flag_or_true_exec(s.optimize_fc);
        let opt_q = flag_or_true_exec(s.optimize_q);
        let opt_gain = flag_or_true_exec(s.optimize_gain);
        if !s.has_fc && !opt_fc || !s.has_q && !opt_q || !s.has_gain && !opt_gain {
            proof {
                assert(lock_violation(specs[k as int]) is Some);
                let f = first_invalid(specs@)->0;
                assert(first_invalid(specs@) is Some);
                if f < k {
                    assert(lock_violation(specs[f]) is None);
                }
                if f > k {
                    assert(lock_violation(specs[k as int]) is None);
                }
                assert(f == k);
            }
            let msg = if !s.has_fc && !opt_fc {
                "fc=None with optimize_fc=false: cannot lock an unspecified fc".to_owned()
            } else if !s.has_q && !opt_q {
                "q=None with optimize_q=false: cannot lock an unspecified q".to_owned()
            } else {
                "gain=None with optimize_gain=false: cannot lock an unspecified gain".to_owned()
            };
            return Err(BiquadError::InvalidFilterSpec(msg));
        }
        let ft = match s.filter_type {
            Some(t) => t,
            None => FilterType::PK,
        };
        out.push(ResolvedFlags { filter_type: ft, optimize_fc: opt_fc, optimize_q: opt_q, optimize_gain: opt_gain });
        k += 1;
    }
    Ok(out)
}

/// Message reported for a frequency response with fewer than two points.
pub open spec fn too_few_points_message() -> Seq<char> {
    "frequency response has fewer than 2 points"@
}

/// Message reported for a frequency response that holds a NaN.
pub open spec fn nan_message() -> Seq<char> {
    "frequency response contains NaN"@
}

/// Check a frequency response given by the bit patterns of its frequencies and
/// dB values: it needs at least two points and no NaN.
pub fn validate_response(freq_bits: &[u64], db_bits: &[u64]) -> (r: Result<(), BiquadError>)
    requires
        freq_bits.len() == db_bits.len(),
    ensures
        r is Ok <==> freq_bits.len() >= 2 && (forall|i: int| 0 <= i < freq_bits.len() ==> !is_nan_bits(
            #[trigger] freq_bits[i],
        )) && (forall|i: int| 0 <= i < db_bits.len() ==> !is_nan_bits(#[trigger] db_bits[i])),
        r matches Err(e) ==> (e matches BiquadError::InvalidFrequencyResponse(m) && m@ == (if freq_bits.len() < 2 {
            too_few_points_message()
        } else {
            nan_message()
        })),
{
    if freq_bits.len() < 2 {
        return Err(BiquadError::InvalidFrequencyResponse("frequency response has fewer than 2 points".to_owned()));
    }
    if any_nan(freq_bits) || any_nan(db_bits) {
        return Err(BiquadError::InvalidFrequencyResponse("frequency response contains NaN".to_owned()));
    }
    Ok(())
}

} // verus!
