//! Cumulative sums: the largest excursions of the walk, forward and backward.
use vstd::prelude::*;
use crate::BitsData;
use crate::TestError;
use crate::walk::{lemma_extremes_reached, max_psum, min_psum, psum};
use vstd::math::abs;

verus! {

/// Largest distance of the walk from its start: `max |S_k|` over `0 <= k <= n`.
pub open spec fn forward_range(s: Seq<bool>) -> int {
    vstd::math::max(max_psum(s, s.len() as int), -min_psum(s, s.len() as int))
}

/// Largest distance of the walk from its end, the walk of the reversed
/// sequence: `max |S_n - S_k|` over `0 <= k <= n`.
pub open spec fn reverse_range(s: Seq<bool>) -> int {
    let n = s.len() as int;
    vstd::math::max(max_psum(s, n) - psum(s, n), psum(s, n) - min_psum(s, n))
}

/// The forward range is the largest distance `|S_k|` of the walk from its
/// start, and the reverse range the largest distance `|S_n - S_k|` from its
/// end, each reached at some step `k`.
pub proof fn lemma_ranges_are_largest_distances(s: Seq<bool>)
    ensures
        forall|k: int| 0 <= k <= s.len() ==> #[trigger] abs(psum(s, k)) <= forward_range(s),
        exists|k: int| 0 <= k <= s.len() && #[trigger] abs(psum(s, k)) == forward_range(s),
        forall|k: int| 0 <= k <= s.len() ==> #[trigger] abs(psum(s, s.len() as int) - psum(s, k)) <= reverse_range(s),
        exists|k: int| 0 <= k <= s.len() && #[trigger] abs(psum(s, s.len() as int) - psum(s, k)) == reverse_range(s),
{
    let n = s.len() as int;
    lemma_extremes_reached(s, n);
    let a = choose|j: int| 0 <= j <= n && #[trigger] psum(s, j) == max_psum(s, n);
    let b = choose|j: int| 0 <= j <= n && #[trigger] psum(s, j) == min_psum(s, n);
    assert(max_psum(s, n) >= 0 && min_psum(s, n) <= 0) by {
        assert(psum(s, 0) == 0);
    }
    if max_psum(s, n) >= -min_psum(s, n) {
        assert(abs(psum(s, a)) == forward_range(s));
    } else {
        assert(abs(psum(s, b)) == forward_range(s));
    }
    if max_psum(s, n) - psum(s, n) >= psum(s, n) - min_psum(s, n) {
        assert(abs(psum(s, n) - psum(s, a)) == reverse_range(s));
    } else {
        assert(abs(psum(s, n) - psum(s, b)) == reverse_range(s));
    }
}

/// The forward and the reverse range of the walk, from which the two p-values
/// of the cumulative sums test follow. An empty sequence has no walk and fails
/// with `InsufficientData`.
pub fn cumulative_sums_ranges(data: &BitsData) -> (r: Result<(usize, usize), TestError>)
    ensures
        match r {
            Ok((z, zr)) => {
                &&& data@.len() > 0
                &&& z == forward_range(data@)
                &&& zr == reverse_range(data@)
                &&& z >= 1
                &&& zr >= 1
            },
            Err(e) => data@.len() == 0 && e == TestError::InsufficientData,
        },
{
    let ghost s = data@;
    let n = data.len();
    if n == 0 {
        return Err(TestError::InsufficientData);
    }
    let mut pos: i128 = 0;
    let mut sup: i128 = 0;
    let mut inf: i128 = 0;
    let mut k: usize = 0;
    while k < n
        invariant
            s == data@,
            n == s.len(),
            k <= n,
            pos == psum(s, k as int),
            sup == max_psum(s, k as int),
            inf == min_psum(s, k as int),
            -(k as int) <= inf <= pos <= sup <= k,
            sup - pos <= k,
            pos - inf <= k,
        decreases n - k,
    {
        let bit = data.get(k);
        pos = if bit { pos + 1 } else { pos - 1 };
        if pos > sup {
            sup = pos;
        }
        if pos < inf {
            inf = pos;
        }
        k = k + 1;
    }
    let z: i128 = if sup >= -inf { sup } else { -inf };
    let zr: i128 = if sup - pos >= pos - inf { sup - pos } else { pos - inf };
    proof {
        assert(sup - inf >= 1) by {
            reveal_with_fuel(psum, 2);
            reveal_with_fuel(max_psum, 2);
            reveal_with_fuel(min_psum, 2);
            assert(psum(s, 1) == 1 || psum(s, 1) == -1);
            lemma_range_grows(s, 1, n as int);
        }
    }
    Ok((z as usize, zr as usize))
}

proof fn lemma_range_grows(s: Seq<bool>, a: int, b: int)
    requires
        1 <= a <= b <= s.len(),
    ensures
        max_psum(s, b) >= max_psum(s, a),
        min_psum(s, b) <= min_psum(s, a),
        max_psum(s, a) >= psum(s, a),
        min_psum(s, a) <= psum(s, a),
    decreases b - a,
{
    if b > a {
        lemma_range_grows(s, a, b - 1);
    }
}

} // verus!
