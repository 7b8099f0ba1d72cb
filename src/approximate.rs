//! Approximate entropy: pattern frequencies of two consecutive lengths.
use vstd::prelude::*;
use crate::BitsData;
use crate::TestError;
use crate::counting::pow2;
use crate::serial::{pattern_count, pattern_counts, MAX_PATTERN_BITS};

verus! {

/// The pattern counts of the approximate entropy test for patterns of `m`
/// and `m + 1` bits, in that order. With `m == 0` the first holds one count,
/// the length of the sequence, whose entropy contribution is zero. Fails with
/// `InvalidParameter` when `m > 20`, and with `InsufficientData` on an empty
/// sequence.
pub fn approximate_entropy_counts(data: &BitsData, m: usize) -> (r: Result<Vec<Vec<usize>>, TestError>)
    ensures
        match r {
            Ok(c) => {
                &&& m <= 20
                &&& data@.len() > 0
                &&& c@.len() == 2
                &&& forall|i: int| 0 <= i < 2 ==> (#[trigger] c@[i])@.len() == pow2((m + i) as nat)
                &&& forall|i: int, v: int| 0 <= i < 2 && 0 <= v < pow2((m + i) as nat) ==>
                    #[trigger] c@[i]@[v] == pattern_count(data@, m + i, v as nat)
            },
            Err(e) => {
                &&& m > 20 ==> e == TestError::InvalidParameter
                &&& m <= 20 ==> e == TestError::InsufficientData && data@.len() == 0
            },
        },
{
    if m > MAX_PATTERN_BITS {
        return Err(TestError::InvalidParameter);
    }
    if data.is_empty() {
        return Err(TestError::InsufficientData);
    }
    let a = pattern_counts(data, m);
    let b = pattern_counts(data, m + 1);
    let mut all: Vec<Vec<usize>> = Vec::new();
    all.push(a);
    all.push(b);
    proof {
        assert(all@[0]@ == a@);
        assert(all@[1]@ == b@);
    }
    Ok(all)
}

} // verus!
