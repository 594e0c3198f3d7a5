//! When a session's context is worth compacting.
use vstd::prelude::*;

verus! {

/// How many of the latest completed turns every compaction leaves alone.
pub const KEEP_RECENT_TURNS: usize = 4;

/// `a * b`, held at the largest `usize`.
pub open spec fn saturated(a: int, b: int) -> int {
    if a * b > usize::MAX {
        usize::MAX as int
    } else {
        a * b
    }
}

fn saturating_mul(a: usize, b: usize) -> (r: usize)
    ensures
        r == saturated(a as int, b as int),
{
    match a.checked_mul(b) {
        Some(product) => product,
        None => usize::MAX,
    }
}

/// Whether the estimate fills three quarters of the window. Both products are
/// held at the largest `usize`.
pub fn threshold_reached(estimated_tokens: usize, context_window: usize) -> (r: bool)
    ensures
        r == (saturated(estimated_tokens as int, 4) >= saturated(context_window as int, 3)),
{
    saturating_mul(estimated_tokens, 4) >= saturating_mul(context_window, 3)
}

/// Where neither product leaves the machine's range, compaction starts exactly
/// at three quarters of the window.
pub proof fn threshold_is_three_quarters(estimated_tokens: usize, context_window: usize)
    requires
        4 * estimated_tokens <= usize::MAX,
        3 * context_window <= usize::MAX,
    ensures
        (saturated(estimated_tokens as int, 4) >= saturated(context_window as int, 3)) <==> 4
            * estimated_tokens >= 3 * context_window,
{
}

} // verus!
