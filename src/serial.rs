//! Serial test: frequencies of all overlapping patterns of the circular sequence.
use vstd::prelude::*;
use crate::BitsData;
use crate::TestError;
use crate::counting::{bits_value, count_upto, lemma_count_upto_le, lemma_pow2_mono, pow2, pow2_exec};

verus! {

/// Longest pattern that the pattern tests accept.
pub const MAX_PATTERN_BITS: usize = 20;

/// The `k` bits from position `i` of `s` read as a circle.
pub open spec fn circular_window(s: Seq<bool>, i: int, k: int) -> Seq<bool> {
    Seq::new(k as nat, |j: int| s[(i + j) % (s.len() as int)])
}

/// Positions of the circular sequence from which the next `k` bits spell `v`.
pub open spec fn pattern_count(s: Seq<bool>, k: int, v: nat) -> nat {
    count_upto(s.len() as int, |i: int| bits_value(circular_window(s, i, k)) == v)
}

fn window_value(data: &BitsData, i: usize, k: usize) -> (r: usize)
    requires
        k <= 21,
        i < data@.len(),
    ensures
        r == bits_value(circular_window(data@, i as int, k as int)),
        r < pow2(k as nat),
{
    let ghost w = circular_window(data@, i as int, k as int);
    let n = data.len();
    let mut v: usize = 0;
    let mut j: usize = 0;
    let mut at: usize = i;
    proof {
        vstd::arithmetic::div_mod::lemma_small_mod(i as nat, n as nat);
    }
    while j < k
        invariant
            k <= 21,
            n == data@.len(),
            i < n,
            w == circular_window(data@, i as int, k as int),
            j <= k,
            at < n,
            at == (i + j) % (n as int),
            v == bits_value(w.subrange(0, j as int)),
            v < pow2(j as nat),
        decreases k - j,
    {
        proof {
            assert(w.subrange(0, j + 1).drop_last() == w.subrange(0, j as int));
            lemma_pow2_mono((j + 1) as nat, 21);
            crate::counting::lemma_pow2_facts();
        }
        let bit = data.get(at);
        v = 2 * v + if bit { 1 } else { 0 };
        proof {
            assert((i + j + 1) % (n as int) == if at + 1 == n { 0 } else { at + 1 }) by {
                vstd::arithmetic::div_mod::lemma_add_mod_noop((i + j) as int, 1, n as int);
                if n == 1 {
                    assert(at == 0);
                    vstd::arithmetic::div_mod::lemma_mod_self_0(1);
                } else {
                    vstd::arithmetic::div_mod::lemma_small_mod(1, n as nat);
                    if at + 1 < n {
                        vstd::arithmetic::div_mod::lemma_small_mod((at + 1) as nat, n as nat);
                    } else {
                        vstd::arithmetic::div_mod::lemma_mod_self_0(n as int);
                    }
                }
            }
        }
        at = if at + 1 == n { 0 } else { at + 1 };
        j = j + 1;
    }
    proof {
        assert(w.subrange(0, k as int) == w);
        crate::counting::lemma_bits_value_bound(w);
    }
    v
}

/// For each pattern `v` of `k` bits, the positions of the circular sequence
/// from which the next `k` bits spell `v`.
pub fn pattern_counts(data: &BitsData, k: usize) -> (r: Vec<usize>)
    requires
        k <= 21,
        data@.len() > 0,
    ensures
        r@.len() == pow2(k as nat),
        forall|v: int| 0 <= v < r@.len() ==> #[trigger] r@[v] == pattern_count(data@, k as int, v as nat),
{
    let ghost s = data@;
    let n = data.len();
    proof {
        lemma_pow2_mono(k as nat, 21);
        crate::counting::lemma_pow2_facts();
    }
    let p = pow2_exec(k as u32) as usize;
    let mut counts: Vec<usize> = vec![0usize; p];
    let mut i: usize = 0;
    while i < n
        invariant
            s == data@,
            n == s.len(),
            k <= 21,
            p == pow2(k as nat),
            i <= n,
            counts@.len() == p,
            forall|v: int| 0 <= v < p ==> #[trigger] counts@[v]
                == count_upto(i as int, |x: int| bits_value(circular_window(s, x, k as int)) == v as nat),
        decreases n - i,
    {
        let v = window_value(data, i, k);
        proof {
            lemma_count_upto_le(i as int, |x: int| bits_value(circular_window(s, x, k as int)) == v as nat);
        }
        counts.set(v, counts[v] + 1);
        i = i + 1;
    }
    counts
}

/// The pattern counts of the serial test for patterns of `m`, `m - 1` and
/// `m - 2` bits, in that order. Fails with `InvalidParameter` unless
/// `2 <= m <= 20`, and with `InsufficientData` on an empty sequence.
pub fn serial_counts(data: &BitsData, m: usize) -> (r: Result<Vec<Vec<usize>>, TestError>)
    ensures
        match r {
            Ok(c) => {
                &&& 2 <= m <= 20
                &&& data@.len() > 0
                &&& c@.len() == 3
                &&& forall|i: int| 0 <= i < 3 ==> (#[trigger] c@[i])@.len() == pow2((m - i) as nat)
                &&& forall|i: int, v: int| 0 <= i < 3 && 0 <= v < pow2((m - i) as nat) ==>
                    #[trigger] c@[i]@[v] == pattern_count(data@, m - i, v as nat)
            },
            Err(e) => {
                &&& !(2 <= m <= 20) ==> e == TestError::InvalidParameter
                &&& 2 <= m <= 20 ==> e == TestError::InsufficientData && data@.len() == 0
            },
        },
{
    if m < 2 || m > MAX_PATTERN_BITS {
        return Err(TestError::InvalidParameter);
    }
    if data.is_empty() {
        return Err(TestError::InsufficientData);
    }
    let a = pattern_counts(data, m);
    let b = pattern_counts(data, m - 1);
    let c = pattern_counts(data, m - 2);
    let mut all: Vec<Vec<usize>> = Vec::new();
    all.push(a);
    all.push(b);
    all.push(c);
    proof {
        assert(all@[0]@ == a@);
        assert(all@[1]@ == b@);
        assert(all@[2]@ == c@);
    }
    Ok(all)
}

} // verus!
