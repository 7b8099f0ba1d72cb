//! Longest run of ones in a block.
use vstd::prelude::*;
use crate::BitsData;
use crate::TestError;
use crate::counting::{block, count_upto, lemma_block_fits, lemma_classes_cover, lemma_count_upto_ext, lemma_count_upto_le, lemma_sum_ext, sum_upto};

verus! {

/// The fewest bits the test accepts.
pub const MINIMAL_BITS: usize = 128;

/// Length of the run of ones that ends just before position `k`.
pub open spec fn run_ending(s: Seq<bool>, k: int) -> nat
    decreases k,
{
    if k <= 0 || k > s.len() {
        0
    } else if s[k - 1] {
        run_ending(s, k - 1) + 1
    } else {
        0
    }
}

/// Longest run of ones among the first `k` bits.
pub open spec fn longest_run(s: Seq<bool>, k: int) -> nat
    decreases k,
{
    if k <= 0 {
        0
    } else {
        vstd::math::max(longest_run(s, k - 1) as int, run_ending(s, k) as int) as nat
    }
}

/// Block length for a sequence of `n` bits.
pub open spec fn run_block_len(n: nat) -> nat {
    if n < 6272 { 8 } else if n < 750000 { 128 } else { 10000 }
}

/// Run length of the first class: shorter runs fall in it too.
pub open spec fn run_first_class(n: nat) -> nat {
    if n < 6272 { 1 } else if n < 750000 { 4 } else { 10 }
}

/// Index of the last class: longer runs fall in it too.
pub open spec fn run_last_class(n: nat) -> nat {
    if n < 6272 { 3 } else if n < 750000 { 5 } else { 6 }
}

/// Class of a longest run `r`: `r - v0`, held within `0..=k`.
pub open spec fn run_class(r: nat, v0: nat, k: nat) -> nat {
    if r <= v0 { 0 } else if r - v0 >= k { k } else { (r - v0) as nat }
}

/// Blocks of the sequence whose longest run of ones falls in class `c`.
pub open spec fn run_class_count(s: Seq<bool>, c: nat) -> nat {
    let n = s.len();
    let m = run_block_len(n) as int;
    count_upto(n as int / m, |b: int| run_class(longest_run(block(s, m, b), m), run_first_class(n), run_last_class(n)) == c)
}

/// Every block falls in exactly one class: the class counts add up to the
/// number of blocks.
pub proof fn lemma_run_classes_cover(s: Seq<bool>)
    ensures
        sum_upto(run_last_class(s.len()) + 1int, |c: int| run_class_count(s, c as nat) as int)
            == s.len() as int / run_block_len(s.len()) as int,
{
    let n = s.len();
    let m = run_block_len(n) as int;
    let kk = run_last_class(n);
    let k = kk as int;
    let nb = n as int / m;
    let cls = |b: int| run_class(longest_run(block(s, m, b), m), run_first_class(n), kk) as int;
    lemma_classes_cover(nb, k + 1, cls);
    let f = |c: int| run_class_count(s, c as nat) as int;
    let g = |v: int| count_upto(nb, |b: int| cls(b) == v) as int;
    assert forall|c: int| 0 <= c < k + 1 implies #[trigger] f(c) == g(c) by {
        lemma_count_upto_ext(nb,
            |b: int| run_class(longest_run(block(s, m, b), m), run_first_class(n), kk) == c as nat,
            |b: int| cls(b) == c);
    }
    lemma_sum_ext(k + 1, f, g);
}

/// The tally of the longest run of ones test.
pub struct RunTally {
    /// Length of each block.
    pub block_len: usize,
    /// `counts[c]`: blocks whose longest run of ones falls in class `c`.
    pub counts: Vec<usize>,
}

fn longest_run_at(data: &BitsData, start: usize, m: usize) -> (r: usize)
    requires
        start + m <= data@.len(),
    ensures
        r == longest_run(data@.subrange(start as int, start + m), m as int),
{
    let ghost blk = data@.subrange(start as int, start + m);
    let n = data.len();
    let mut best: usize = 0;
    let mut cur: usize = 0;
    let mut j: usize = 0;
    while j < m
        invariant
            start + m <= data@.len(),
            n == data@.len(),
            blk == data@.subrange(start as int, start + m),
            j <= m,
            cur == run_ending(blk, j as int),
            best == longest_run(blk, j as int),
            cur <= j,
            best <= j,
        decreases m - j,
    {
        if data.get(start + j) {
            cur = cur + 1;
            if cur > best {
                best = cur;
            }
        } else {
            cur = 0;
        }
        j = j + 1;
    }
    best
}

/// Splits the sequence into blocks, of 8, 128 or 10000 bits as the sequence
/// grows, and counts the blocks by the class of their longest run of ones.
/// Fails with `InsufficientData` below 128 bits.
pub fn longest_run_counts(data: &BitsData) -> (r: Result<RunTally, TestError>)
    ensures
        match r {
            Ok(t) => {
                &&& data@.len() >= 128
                &&& t.block_len == run_block_len(data@.len())
                &&& t.counts@.len() == run_last_class(data@.len()) + 1
                &&& forall|c: int| 0 <= c < t.counts@.len() ==>
                    #[trigger] t.counts@[c] == run_class_count(data@, c as nat)
            },
            Err(e) => data@.len() < 128 && e == TestError::InsufficientData,
        },
{
    let ghost s = data@;
    let n = data.len();
    if n < MINIMAL_BITS {
        return Err(TestError::InsufficientData);
    }
    let (m, v0, k): (usize, usize, usize) = if n < 6272 {
        (8, 1, 3)
    } else if n < 750000 {
        (128, 4, 5)
    } else {
        (10000, 10, 6)
    };
    let blocks = n / m;
    let mut counts: Vec<usize> = vec![0usize; k + 1];
    let mut b: usize = 0;
    while b < blocks
        invariant
            s == data@,
            n == s.len(),
            n >= 128,
            m == run_block_len(n as nat),
            v0 == run_first_class(n as nat),
            k == run_last_class(n as nat),
            blocks == n / m,
            b <= blocks,
            counts@.len() == k + 1,
            forall|c: int| 0 <= c <= k ==> #[trigger] counts@[c] == count_upto(b as int,
                |x: int| run_class(longest_run(block(s, m as int, x), m as int), v0 as nat, k as nat) == c as nat),
        decreases blocks - b,
    {
        proof {
            lemma_block_fits(b as int, m as int, n as int);
        }
        let r = longest_run_at(data, b * m, m);
        let c: usize = if r <= v0 { 0 } else if r - v0 >= k { k } else { r - v0 };
        proof {
            lemma_count_upto_le(b as int,
                |x: int| run_class(longest_run(block(s, m as int, x), m as int), v0 as nat, k as nat) == c as nat);
        }
        counts.set(c, counts[c] + 1);
        b = b + 1;
    }
    Ok(RunTally { block_len: m, counts })
}

} // verus!
