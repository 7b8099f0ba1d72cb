//! Frequency (monobit): the balance of ones and zeros.
use vstd::prelude::*;
use crate::BitsData;
use crate::counting::count_ones;

verus! {

/// `S_n = ones - zeros = 2 * ones - n`, the end point of the walk of the sequence.
pub fn frequency_sum(data: &BitsData) -> (r: i128)
    ensures
        r == 2 * count_ones(data@) - data@.len(),
{
    let n = data.len();
    let ones = data.ones();
    2 * (ones as i128) - (n as i128)
}

} // verus!
