//! Random excursions variant: total visits to the states -9..-1 and 1..9.
use vstd::prelude::*;
use crate::BitsData;
use crate::TestError;
use crate::counting::{count_upto, lemma_count_upto_le};
use crate::walk::{cycles, enough_cycles, has_enough_cycles, psum, zeros};

verus! {

/// Number of states that the variant test watches.
pub const VARIANT_STATES: usize = 18;

/// The state watched at index `i`: -9, ..., -1, 1, ..., 9.
pub open spec fn variant_state(i: int) -> int {
    if i < 9 { i - 9 } else { i - 8 }
}

/// Visits of the walk to `x` within its first `k` steps.
pub open spec fn state_visits(s: Seq<bool>, x: int, k: int) -> nat {
    count_upto(k, |j: int| psum(s, j + 1) == x)
}

/// The tally of the random excursions variant test.
pub struct VariantTally {
    /// Number of cycles of the walk.
    pub cycles: usize,
    /// `visits[i]`: visits of the whole walk to the state of index `i`.
    pub visits: Vec<usize>,
}

/// Counts the visits of the walk to each of the states -9..-1 and 1..9.
/// Fails with `NotApplicable` when the walk has fewer than
/// `max(500, 0.005 * sqrt(n))` cycles.
pub fn random_excursions_variant_counts(data: &BitsData) -> (r: Result<VariantTally, TestError>)
    ensures
        match r {
            Ok(t) => {
                &&& enough_cycles(cycles(data@), data@.len())
                &&& t.cycles == cycles(data@)
                &&& t.visits@.len() == 18
                &&& forall|i: int| 0 <= i < 18 ==>
                    #[trigger] t.visits@[i] == state_visits(data@, variant_state(i), data@.len() as int)
            },
            Err(e) => !enough_cycles(cycles(data@), data@.len()) && e == TestError::NotApplicable,
        },
{
    let ghost s = data@;
    let n = data.len();
    let mut visits: Vec<usize> = vec![0usize; 18];
    let mut pos: i128 = 0;
    let mut nz: usize = 0;
    let mut k: usize = 0;
    while k < n
        invariant
            s == data@,
            n == s.len(),
            k <= n,
            pos == psum(s, k as int),
            nz == zeros(s, k as int),
            k > 0 ==> nz < k,
            visits@.len() == 18,
            forall|i: int| 0 <= i < 18 ==> #[trigger] visits@[i] == state_visits(s, variant_state(i), k as int),
        decreases n - k,
    {
        proof {
            crate::walk::lemma_psum_bounds(s, k as int);
        }
        let bit = data.get(k);
        pos = if bit { pos + 1 } else { pos - 1 };
        assert(pos == psum(s, k + 1));
        if pos == 0 {
            nz = nz + 1;
        } else if -9 <= pos && pos <= 9 {
            let at: usize = if pos < 0 { (pos + 9) as usize } else { (pos + 8) as usize };
            proof {
                lemma_count_upto_le(k as int, |j: int| psum(s, j + 1) == variant_state(at as int));
            }
            visits.set(at, visits[at] + 1);
        }
        k = k + 1;
    }
    let total: usize = if pos != 0 { nz + 1 } else { nz };
    if !has_enough_cycles(total, n) {
        return Err(TestError::NotApplicable);
    }
    Ok(VariantTally { cycles: total, visits })
}

} // verus!
