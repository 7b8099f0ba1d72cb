//! Frequency within a block: the number of ones in each block.
use vstd::prelude::*;
use crate::BitsData;
use crate::TestError;
use crate::counting::{block, count_ones, lemma_block_fits, lemma_count_ones_push};

verus! {

fn ones_in(data: &BitsData, start: usize, m: usize) -> (r: usize)
    requires
        start + m <= data@.len(),
    ensures
        r == count_ones(data@.subrange(start as int, start + m)),
{
    let ghost b = data@.subrange(start as int, start + m);
    let n = data.len();
    let mut c: usize = 0;
    let mut j: usize = 0;
    while j < m
        invariant
            n == data@.len(),
            start + m <= n,
            b == data@.subrange(start as int, start + m),
            j <= m,
            c == count_ones(b.subrange(0, j as int)),
            c <= j,
        decreases m - j,
    {
        proof {
            assert(b.subrange(0, j + 1) == b.subrange(0, j as int).push(b[j as int]));
            lemma_count_ones_push(b.subrange(0, j as int), b[j as int]);
        }
        if data.get(start + j) {
            c = c + 1;
        }
        j = j + 1;
    }
    proof {
        assert(b.subrange(0, m as int) == b);
    }
    c
}

/// The number of ones in each of the `n / m` blocks of `m` bits. Fails with
/// `InvalidParameter` for `m == 0` and with `InsufficientData` when no block fits.
pub fn block_frequency_counts(data: &BitsData, m: usize) -> (r: Result<Vec<usize>, TestError>)
    ensures
        match r {
            Ok(c) => {
                &&& m > 0
                &&& data@.len() >= m
                &&& c@.len() == data@.len() / (m as nat)
                &&& forall|i: int| 0 <= i < c@.len() ==> #[trigger] c@[i] == count_ones(block(data@, m as int, i))
            },
            Err(e) => {
                &&& m == 0 ==> e == TestError::InvalidParameter
                &&& m > 0 ==> e == TestError::InsufficientData && data@.len() < m
            },
        },
{
    if m == 0 {
        return Err(TestError::InvalidParameter);
    }
    let n = data.len();
    if n < m {
        return Err(TestError::InsufficientData);
    }
    let blocks = n / m;
    let mut counts: Vec<usize> = Vec::new();
    let mut i: usize = 0;
    while i < blocks
        invariant
            n == data@.len(),
            m > 0,
            blocks == n / m,
            i <= blocks,
            counts@.len() == i,
            forall|x: int| 0 <= x < i ==> #[trigger] counts@[x] == count_ones(block(data@, m as int, x)),
        decreases blocks - i,
    {
        proof {
            lemma_block_fits(i as int, m as int, n as int);
        }
        let c = ones_in(data, i * m, m);
        counts.push(c);
        i = i + 1;
    }
    Ok(counts)
}

} // verus!
