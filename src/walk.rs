//! The random walk of a bit sequence: each one a step up, each zero a step down.
use vstd::prelude::*;
use crate::counting::count_upto;

verus! {

pub open spec fn step(b: bool) -> int {
    if b { 1 } else { -1 }
}

/// Position of the walk after its first `k` steps.
pub open spec fn psum(s: Seq<bool>, k: int) -> int
    decreases k,
{
    if k <= 0 || k > s.len() {
        0
    } else {
        psum(s, k - 1) + step(s[k - 1])
    }
}

/// Highest position of the walk over its first `k` steps, the start included.
pub open spec fn max_psum(s: Seq<bool>, k: int) -> int
    decreases k,
{
    if k <= 0 {
        0
    } else {
        vstd::math::max(max_psum(s, k - 1), psum(s, k))
    }
}

/// Lowest position of the walk over its first `k` steps, the start included.
pub open spec fn min_psum(s: Seq<bool>, k: int) -> int
    decreases k,
{
    if k <= 0 {
        0
    } else {
        vstd::math::min(min_psum(s, k - 1), psum(s, k))
    }
}

/// Returns of the walk to the origin within its first `k` steps.
pub open spec fn zeros(s: Seq<bool>, k: int) -> nat {
    count_upto(k, |j: int| psum(s, j + 1) == 0)
}

/// Number of cycles of the walk: the returns to the origin, plus a last
/// cycle that does not return.
pub open spec fn cycles(s: Seq<bool>) -> nat {
    zeros(s, s.len() as int) + if psum(s, s.len() as int) != 0 { 1nat } else { 0nat }
}

/// Whether `j` cycles suffice for a walk of `n` steps: at least
/// `max(500, 0.005 * sqrt(n))`.
pub open spec fn enough_cycles(j: nat, n: nat) -> bool {
    j >= 500 && 40000 * j * j >= n
}

/// `max_psum` and `min_psum` are the highest and lowest positions reached.
pub proof fn lemma_extremes_reached(s: Seq<bool>, k: int)
    requires
        0 <= k <= s.len(),
    ensures
        forall|j: int| 0 <= j <= k ==> min_psum(s, k) <= #[trigger] psum(s, j) <= max_psum(s, k),
        exists|j: int| 0 <= j <= k && #[trigger] psum(s, j) == max_psum(s, k),
        exists|j: int| 0 <= j <= k && #[trigger] psum(s, j) == min_psum(s, k),
    decreases k,
{
    if k == 0 {
        assert(psum(s, 0) == max_psum(s, 0));
        assert(psum(s, 0) == min_psum(s, 0));
    } else {
        lemma_extremes_reached(s, k - 1);
        let a = choose|j: int| 0 <= j <= k - 1 && #[trigger] psum(s, j) == max_psum(s, k - 1);
        let b = choose|j: int| 0 <= j <= k - 1 && #[trigger] psum(s, j) == min_psum(s, k - 1);
        if max_psum(s, k) == psum(s, k) {
            assert(psum(s, k) == max_psum(s, k));
        } else {
            assert(psum(s, a) == max_psum(s, k));
        }
        if min_psum(s, k) == psum(s, k) {
            assert(psum(s, k) == min_psum(s, k));
        } else {
            assert(psum(s, b) == min_psum(s, k));
        }
    }
}

pub proof fn lemma_psum_bounds(s: Seq<bool>, k: int)
    requires
        0 <= k <= s.len(),
    ensures
        -k <= psum(s, k) <= k,
    decreases k,
{
    if k > 0 {
        lemma_psum_bounds(s, k - 1);
    }
}

/// Decides `enough_cycles` on machine integers.
pub fn has_enough_cycles(j: usize, n: usize) -> (r: bool)
    ensures
        r == enough_cycles(j as nat, n as nat),
{
    let jj: u128 = j as u128;
    if jj < 500 {
        false
    } else if jj >= 0x1_0000_0000 {
        assert(40000 * jj * jj >= 0x1_0000_0000u128 * 0x1_0000_0000u128) by (nonlinear_arith)
            requires jj >= 0x1_0000_0000;
        assert(n as u128 <= 0xffff_ffff_ffff_ffffu128);
        true
    } else {
        assert(40000 * jj * jj <= 40000 * 0x1_0000_0000u128 * 0x1_0000_0000u128) by (nonlinear_arith)
            requires jj < 0x1_0000_0000;
        40000 * jj * jj >= n as u128
    }
}

} // verus!
