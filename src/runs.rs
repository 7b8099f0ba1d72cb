//! Runs: the number of maximal runs of equal bits.
use vstd::prelude::*;
use crate::BitsData;
use crate::counting::{count_ones, count_upto, lemma_count_ones_le};

verus! {

/// Number of runs of `s`: one, plus one for each pair of neighbours that
/// differ; none for an empty sequence.
pub open spec fn runs(s: Seq<bool>) -> nat {
    if s.len() == 0 {
        0
    } else {
        1 + count_upto(s.len() - 1, |i: int| s[i] != s[i + 1])
    }
}

/// The prerequisite of the runs test: the fraction of ones `p` lies within
/// `2 / sqrt(n)` of one half, that is `(2 * ones - n)^2 < 16 n`.
pub open spec fn runs_prerequisite(s: Seq<bool>) -> bool {
    let d = 2 * count_ones(s) - s.len();
    d * d < 16 * s.len()
}

/// Decides `runs_prerequisite`; when it fails the runs test reports a
/// p-value of zero without counting runs.
pub fn runs_prerequisite_holds(data: &BitsData) -> (r: bool)
    ensures
        r == runs_prerequisite(data@),
{
    let n = data.len();
    let ones = data.ones();
    proof {
        lemma_count_ones_le(data@);
    }
    let d: i128 = 2 * (ones as i128) - (n as i128);
    let dd: u128 = (if d < 0 { -d } else { d }) as u128;
    assert(dd * dd == d * d) by (nonlinear_arith)
        requires dd == d || dd == -d;
    assert(dd * dd <= 0xffff_ffff_ffff_ffffu128 * 0xffff_ffff_ffff_ffffu128) by (nonlinear_arith)
        requires dd <= 0xffff_ffff_ffff_ffffu128;
    dd * dd < 16 * (n as u128)
}

/// The number of runs of the sequence.
pub fn runs_count(data: &BitsData) -> (r: usize)
    ensures
        r == runs(data@),
{
    let ghost s = data@;
    let n = data.len();
    if n == 0 {
        return 0;
    }
    let mut changes: usize = 0;
    let mut i: usize = 0;
    while i + 1 < n
        invariant
            s == data@,
            n == s.len(),
            n > 0,
            i + 1 <= n,
            changes == count_upto(i as int, |x: int| s[x] != s[x + 1]),
            changes <= i,
        decreases n - i,
    {
        if data.get(i) != data.get(i + 1) {
            changes = changes + 1;
        }
        i = i + 1;
    }
    changes + 1
}

} // verus!
