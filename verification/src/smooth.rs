//! Integer part of the smoothing-window computation.
use vstd::prelude::*;

verus! {

/// Odd window length of at least 3 samples, from a rounded sample count: an even
/// count is raised by one.
pub open spec fn odd_window_spec(n: int) -> int {
    let odd = if n % 2 == 0 { n + 1 } else { n };
    if odd >= 3 { odd } else { 3 }
}

/// Odd window length of at least 3 samples from a rounded sample count.
pub fn odd_window_size(n: usize) -> (r: usize)
    ensures
        r == odd_window_spec(n as int),
        r % 2 == 1,
        r >= 3,
        r >= n,
        r <= n + 1 || r == 3,
{
    let odd = if n % 2 == 0 { n + 1 } else { n };
    if odd >= 3 { odd } else { 3 }
}

} // verus!
