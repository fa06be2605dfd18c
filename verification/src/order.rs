//! Order keys for IEEE-754 binary64 values.
//!
//! A value is handed over by its bit pattern (`f64::to_bits`).  Its order key is
//! the magnitude bits, negated when the sign bit is set.  For values that are not
//! NaN the keys compare exactly as the values do: `a < b` iff `key(a) < key(b)`
//! and `a == b` iff `key(a) == key(b)` (both zeros get key 0).
use vstd::prelude::*;

verus! {

/// Mask of the 63 magnitude bits of a binary64 value.
pub const MAGNITUDE_MASK: u64 = 0x7FFF_FFFF_FFFF_FFFFu64;

/// Magnitude bits of the positive infinity; every larger magnitude is a NaN.
pub const INFINITY_MAGNITUDE: u64 = 0x7FF0_0000_0000_0000u64;

/// The magnitude bits of a binary64 bit pattern.
pub open spec fn magnitude(bits: u64) -> u64 {
    bits & MAGNITUDE_MASK
}

/// Whether the bit pattern encodes a NaN.
pub open spec fn is_nan_bits(bits: u64) -> bool {
    magnitude(bits) > INFINITY_MAGNITUDE
}

/// The order key of a binary64 bit pattern.
pub open spec fn order_key_of(bits: u64) -> int {
    if bits >> 63u64 == 0 {
        magnitude(bits) as int
    } else {
        -(magnitude(bits) as int)
    }
}

/// Order key of one value.
pub fn order_key(bits: u64) -> (k: i64)
    ensures
        k == order_key_of(bits),
{
    let mag = bits & MAGNITUDE_MASK;
    assert(bits & MAGNITUDE_MASK <= 0x7FFF_FFFF_FFFF_FFFFu64) by (bit_vector);
    if bits >> 63u64 == 0 {
        mag as i64
    } else {
        -(mag as i64)
    }
}

/// Whether one value is a NaN.
pub fn is_nan(bits: u64) -> (r: bool)
    ensures
        r == is_nan_bits(bits),
{
    (bits & MAGNITUDE_MASK) > INFINITY_MAGNITUDE
}

/// Order keys of a whole sequence of values.
pub fn order_keys(bits: &[u64]) -> (keys: Vec<i64>)
    ensures
        keys.len() == bits.len(),
        forall|i: int| 0 <= i < bits.len() ==> keys[i] == order_key_of(#[trigger] bits[i]),
{
    let mut keys: Vec<i64> = Vec::new();
    let mut i: usize = 0;
    while i < bits.len()
        invariant
            i <= bits.len(),
            keys.len() == i,
            forall|j: int| 0 <= j < i ==> keys[j] == order_key_of(#[trigger] bits[j]),
        decreases bits.len() - i,
    {
        let k = order_key(bits[i]);
        keys.push(k);
        i += 1;
    }
    keys
}

/// Whether any of the values is a NaN.
pub fn any_nan(bits: &[u64]) -> (r: bool)
    ensures
        r == exists|i: int| 0 <= i < bits.len() && is_nan_bits(#[trigger] bits[i]),
{
    let mut i: usize = 0;
    while i < bits.len()
        invariant
            i <= bits.len(),
            forall|j: int| 0 <= j < i ==> !is_nan_bits(#[trigger] bits[j]),
        decreases bits.len() - i,
    {
        if is_nan(bits[i]) {
            return true;
        }
        i += 1;
    }
    false
}

/// Negating a value (flipping its sign bit) negates its order key.
pub proof fn lemma_negation_negates_key(bits: u64)
    ensures
        order_key_of(bits ^ 0x8000_0000_0000_0000u64) == -order_key_of(bits),
{
    let flipped = bits ^ 0x8000_0000_0000_0000u64;
    assert(flipped & 0x7FFF_FFFF_FFFF_FFFFu64 == bits & 0x7FFF_FFFF_FFFF_FFFFu64) by (bit_vector)
        requires
            flipped == bits ^ 0x8000_0000_0000_0000u64,
    ;
    assert((flipped >> 63u64 == 0) == !(bits >> 63u64 == 0)) by (bit_vector)
        requires
            flipped == bits ^ 0x8000_0000_0000_0000u64,
    ;
}

/// The sign bit of a bit pattern.
pub open spec fn sign_set(bits: u64) -> bool {
    bits >= 0x8000_0000_0000_0000u64
}

proof fn lemma_magnitude_split(a: u64)
    ensures
        !sign_set(a) ==> magnitude(a) == a && a >> 63u64 == 0,
        sign_set(a) ==> magnitude(a) == a - 0x8000_0000_0000_0000u64 && a >> 63u64 != 0,
{
    assert(a < 0x8000_0000_0000_0000u64 ==> a & 0x7FFF_FFFF_FFFF_FFFFu64 == a && a >> 63u64 == 0) by (bit_vector);
    assert(a >= 0x8000_0000_0000_0000u64 ==> a & 0x7FFF_FFFF_FFFF_FFFFu64 == a - 0x8000_0000_0000_0000u64
        && a >> 63u64 != 0) by (bit_vector);
}

/// Order keys follow the sign-magnitude order of binary64 bit patterns: among
/// patterns with the sign bit clear a larger pattern has a larger key, among
/// patterns with the sign bit set a larger pattern has a smaller key, every
/// negative pattern lies at or below every positive one, and two patterns share a
/// key only when they are equal or both are zeros.
pub proof fn lemma_order_key_sign_magnitude(a: u64, b: u64)
    ensures
        !sign_set(a) && !sign_set(b) ==> (order_key_of(a) < order_key_of(b) <==> a < b),
        sign_set(a) && sign_set(b) ==> (order_key_of(a) < order_key_of(b) <==> a > b),
        sign_set(a) && !sign_set(b) ==> order_key_of(a) <= order_key_of(b),
        order_key_of(a) == order_key_of(b) <==> a == b || (magnitude(a) == 0 && magnitude(b) == 0),
        order_key_of(a) >= 0 <==> !sign_set(a) || magnitude(a) == 0,
{
    lemma_magnitude_split(a);
    lemma_magnitude_split(b);
}

/// Negated order keys: the keys of the negated values.
pub fn negate_keys(keys: &[i64]) -> (r: Vec<i64>)
    requires
        forall|i: int| 0 <= i < keys.len() ==> #[trigger] keys[i] > i64::MIN,
    ensures
        r.len() == keys.len(),
        forall|i: int| 0 <= i < keys.len() ==> r[i] == -(#[trigger] keys[i]),
{
    let mut r: Vec<i64> = Vec::new();
    let mut i: usize = 0;
    while i < keys.len()
        invariant
            i <= keys.len(),
            r.len() == i,
            forall|j: int| 0 <= j < keys.len() ==> #[trigger] keys[j] > i64::MIN,
            forall|j: int| 0 <= j < i ==> r[j] == -(#[trigger] keys[j]),
        decreases keys.len() - i,
    {
        r.push(-keys[i]);
        i += 1;
    }
    r
}

} // verus!
