//! Overlapping template matching with the template of all ones.
use vstd::prelude::*;
use crate::BitsData;
use crate::TestError;
use crate::counting::{block, count_upto, lemma_block_fits, lemma_classes_cover, lemma_count_upto_ext, lemma_count_upto_le, lemma_sum_ext, sum_upto};

verus! {

/// Length of each block.
pub const OVERLAPPING_BLOCK: usize = 1032;

/// Number of classes: 0 to 4 matches, and 5 or more.
pub const OVERLAPPING_CLASSES: usize = 6;

/// Every bit of `w` is a one.
pub open spec fn all_ones(w: Seq<bool>) -> bool {
    forall|j: int| 0 <= j < w.len() ==> #[trigger] w[j]
}

/// Windows of `m` bits within `b` that hold only ones, overlapping allowed.
pub open spec fn overlapping_matches(b: Seq<bool>, m: int) -> nat {
    count_upto(b.len() - m + 1, |k: int| all_ones(b.subrange(k, k + m)))
}

/// The class of a match count: the count itself, with 5 standing for 5 or more.
pub open spec fn match_class(c: nat) -> nat {
    if c >= 5 { 5 } else { c }
}

/// Blocks of 1032 bits whose matches of the template of `m` ones fall in class `c`.
pub open spec fn overlapping_class_count(s: Seq<bool>, m: int, c: nat) -> nat {
    count_upto(s.len() as int / 1032, |x: int| match_class(overlapping_matches(block(s, 1032, x), m)) == c)
}

/// Every block falls in exactly one of the six classes: the class counts add
/// up to the number of blocks.
pub proof fn lemma_overlapping_classes_cover(s: Seq<bool>, m: int)
    ensures
        sum_upto(6, |c: int| overlapping_class_count(s, m, c as nat) as int) == s.len() as int / 1032,
{
    let nb = s.len() as int / 1032;
    let cls = |x: int| match_class(overlapping_matches(block(s, 1032, x), m)) as int;
    lemma_classes_cover(nb, 6, cls);
    let f = |c: int| overlapping_class_count(s, m, c as nat) as int;
    let g = |v: int| count_upto(nb, |x: int| cls(x) == v) as int;
    assert forall|c: int| 0 <= c < 6 implies #[trigger] f(c) == g(c) by {
        lemma_count_upto_ext(nb, |x: int| match_class(overlapping_matches(block(s, 1032, x), m)) == c as nat, |x: int| cls(x) == c);
    }
    lemma_sum_ext(6, f, g);
}

fn ones_at(data: &BitsData, start: usize, m: usize) -> (r: bool)
    requires
        start + m <= data@.len(),
    ensures
        r == all_ones(data@.subrange(start as int, start + m)),
{
    let n = data.len();
    let mut j: usize = 0;
    while j < m
        invariant
            n == data@.len(),
            start + m <= n,
            j <= m,
            forall|x: int| 0 <= x < j ==> #[trigger] data@[start + x],
        decreases m - j,
    {
        if !data.get(start + j) {
            assert(!data@.subrange(start as int, start + m)[j as int]);
            return false;
        }
        j = j + 1;
    }
    assert forall|x: int| 0 <= x < m implies #[trigger] data@.subrange(start as int, start + m)[x] by {
        assert(data@[start + x]);
    }
    true
}

fn block_matches(data: &BitsData, start: usize, m: usize) -> (r: usize)
    requires
        1 <= m <= 1032,
        start + 1032 <= data@.len(),
    ensures
        r == overlapping_matches(data@.subrange(start as int, start + 1032), m as int),
{
    let ghost b = data@.subrange(start as int, start + 1032);
    let n = data.len();
    let windows = OVERLAPPING_BLOCK - m + 1;
    let mut count: usize = 0;
    let mut k: usize = 0;
    while k < windows
        invariant
            1 <= m <= 1032,
            start + 1032 <= data@.len(),
            n == data@.len(),
            b == data@.subrange(start as int, start + 1032),
            windows == 1032 - m + 1,
            k <= windows,
            count == count_upto(k as int, |x: int| all_ones(b.subrange(x, x + m))),
            count <= k,
        decreases windows - k,
    {
        let hit = ones_at(data, start + k, m);
        assert(b.subrange(k as int, k + m) == data@.subrange(start + k, start + k + m));
        if hit {
            count = count + 1;
        }
        k = k + 1;
    }
    count
}

/// Splits the sequence into blocks of 1032 bits, counts in each the
/// overlapping windows of `m` ones, and counts the blocks by class of that
/// count. Fails with `InvalidParameter` unless `1 <= m <= 1032`, and with
/// `InsufficientData` below one block.
pub fn overlapping_counts(data: &BitsData, m: usize) -> (r: Result<Vec<usize>, TestError>)
    ensures
        match r {
            Ok(c) => {
                &&& 1 <= m <= 1032
                &&& data@.len() >= 1032
                &&& c@.len() == 6
                &&& forall|v: int| 0 <= v < 6 ==> #[trigger] c@[v] == overlapping_class_count(data@, m as int, v as nat)
            },
            Err(e) => {
                &&& !(1 <= m <= 1032) ==> e == TestError::InvalidParameter
                &&& 1 <= m <= 1032 ==> e == TestError::InsufficientData && data@.len() < 1032
            },
        },
{
    let ghost s = data@;
    if m < 1 || m > OVERLAPPING_BLOCK {
        return Err(TestError::InvalidParameter);
    }
    let n = data.len();
    if n < OVERLAPPING_BLOCK {
        return Err(TestError::InsufficientData);
    }
    let blocks = n / OVERLAPPING_BLOCK;
    let mut counts: Vec<usize> = vec![0usize; 6];
    let mut x: usize = 0;
    while x < blocks
        invariant
            s == data@,
            n == s.len(),
            1 <= m <= 1032,
            blocks == n / 1032,
            x <= blocks,
            counts@.len() == 6,
            forall|v: int| 0 <= v < 6 ==> #[trigger] counts@[v] == count_upto(x as int,
                |y: int| match_class(overlapping_matches(block(s, 1032, y), m as int)) == v as nat),
        decreases blocks - x,
    {
        proof {
            lemma_block_fits(x as int, 1032, n as int);
        }
        let w = block_matches(data, x * OVERLAPPING_BLOCK, m);
        let v: usize = if w >= 5 { 5 } else { w };
        proof {
            lemma_count_upto_le(x as int,
                |y: int| match_class(overlapping_matches(block(s, 1032, y), m as int)) == v as nat);
        }
        counts.set(v, counts[v] + 1);
        x = x + 1;
    }
    Ok(counts)
}

} // verus!
