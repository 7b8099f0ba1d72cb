//! Maurer's universal statistical test: distances between repeated blocks.
use vstd::prelude::*;
use crate::BitsData;
use crate::TestError;
use crate::counting::{bits_value, block, lemma_block_fits, lemma_pow2_mono, pow2, pow2_exec};

verus! {

/// Block length for a sequence of `n` bits, from 5 to 16.
pub open spec fn universal_block_len(n: nat) -> nat {
    if n >= 1059061760 { 16 }
    else if n >= 496435200 { 15 }
    else if n >= 231669760 { 14 }
    else if n >= 107560960 { 13 }
    else if n >= 49643520 { 12 }
    else if n >= 22753280 { 11 }
    else if n >= 10342400 { 10 }
    else if n >= 4654080 { 9 }
    else if n >= 2068480 { 8 }
    else if n >= 904960 { 7 }
    else if n >= 387840 { 6 }
    else { 5 }
}

/// Number of initialisation blocks for block length `l`: `10 * 2^l`.
pub open spec fn universal_init_blocks(l: nat) -> nat {
    10 * pow2(l)
}

/// The number that block `i` (from 0) of length `l` spells.
pub open spec fn block_value(s: Seq<bool>, l: int, i: int) -> nat {
    bits_value(block(s, l, i))
}

/// Among the first `i` blocks, the position (from 1) of the last one worth
/// `v`, or 0 when none is.
pub open spec fn last_seen(s: Seq<bool>, l: int, i: int, v: nat) -> int
    decreases i,
{
    if i <= 0 {
        0
    } else if block_value(s, l, i - 1) == v {
        i
    } else {
        last_seen(s, l, i - 1, v)
    }
}

/// Distance from block `i` (from 1) back to the last earlier block of the
/// same value, or `i` when there is none.
pub open spec fn universal_gap(s: Seq<bool>, l: int, i: int) -> int {
    i - last_seen(s, l, i - 1, block_value(s, l, i - 1))
}

/// The tally of the universal test.
pub struct UniversalTally {
    /// Block length `L`.
    pub block_len: usize,
    /// Number of initialisation blocks `Q`.
    pub init_blocks: usize,
    /// `gaps[g]`: the distance of test block `Q + 1 + g`.
    pub gaps: Vec<usize>,
}

fn block_value_at(data: &BitsData, start: usize, l: usize) -> (r: usize)
    requires
        l <= 16,
        start + l <= data@.len(),
    ensures
        r == bits_value(data@.subrange(start as int, start + l)),
        r < pow2(l as nat),
{
    let ghost blk = data@.subrange(start as int, start + l);
    let len = data.len();
    let mut v: usize = 0;
    let mut j: usize = 0;
    while j < l
        invariant
            l <= 16,
            len == data@.len(),
            start + l <= len,
            blk == data@.subrange(start as int, start + l),
            j <= l,
            v == bits_value(blk.subrange(0, j as int)),
            v < pow2(j as nat),
        decreases l - j,
    {
        proof {
            assert(blk.subrange(0, j + 1).drop_last() == blk.subrange(0, j as int));
            lemma_pow2_mono((j + 1) as nat, 16);
            crate::counting::lemma_pow2_facts();
        }
        let bit = data.get(start + j);
        v = 2 * v + if bit { 1 } else { 0 };
        j = j + 1;
    }
    proof {
        assert(blk.subrange(0, l as int) == blk);
    }
    v
}

/// Chooses the block length from the sequence length, fills the table of
/// last positions with the first `Q = 10 * 2^L` blocks, then records for each
/// later block its distance to the last block of the same value. Fails with
/// `InsufficientData` when no block is left after the first `Q`.
pub fn universal_gaps(data: &BitsData) -> (r: Result<UniversalTally, TestError>)
    ensures
        ({
            let n = data@.len();
            let l = universal_block_len(n);
            let q = universal_init_blocks(l);
            match r {
                Ok(t) => {
                    &&& n / l > q
                    &&& t.block_len == l
                    &&& t.init_blocks == q
                    &&& t.gaps@.len() == n / l - q
                    &&& forall|g: int| 0 <= g < t.gaps@.len() ==>
                        #[trigger] t.gaps@[g] == universal_gap(data@, l as int, q + 1 + g)
                },
                Err(e) => n / l <= q && e == TestError::InsufficientData,
            }
        }),
{
    let ghost s = data@;
    let n = data.len();
    let l: usize = if n >= 1059061760 { 16 }
        else if n >= 496435200 { 15 }
        else if n >= 231669760 { 14 }
        else if n >= 107560960 { 13 }
        else if n >= 49643520 { 12 }
        else if n >= 22753280 { 11 }
        else if n >= 10342400 { 10 }
        else if n >= 4654080 { 9 }
        else if n >= 2068480 { 8 }
        else if n >= 904960 { 7 }
        else if n >= 387840 { 6 }
        else { 5 };
    proof {
        lemma_pow2_mono(l as nat, 16);
        crate::counting::lemma_pow2_facts();
    }
    let p = pow2_exec(l as u32) as usize;
    let q = 10 * p;
    let nb = n / l;
    if nb <= q {
        return Err(TestError::InsufficientData);
    }
    let mut table: Vec<usize> = vec![0usize; p];
    let mut gaps: Vec<usize> = Vec::new();
    let mut i: usize = 0;
    while i < nb
        invariant
            s == data@,
            n == s.len(),
            5 <= l <= 16,
            p == pow2(l as nat),
            q == 10 * p,
            nb == n / l,
            q < nb,
            i <= nb,
            table@.len() == p,
            forall|v: int| 0 <= v < p ==> #[trigger] table@[v] == last_seen(s, l as int, i as int, v as nat),
            forall|v: int| 0 <= v < p ==> #[trigger] table@[v] <= i,
            gaps@.len() == if i <= q { 0 } else { i - q },
            forall|g: int| 0 <= g < gaps@.len() ==> #[trigger] gaps@[g] == universal_gap(s, l as int, q + 1 + g),
        decreases nb - i,
    {
        proof {
            lemma_block_fits(i as int, l as int, n as int);
        }
        let v = block_value_at(data, i * l, l);
        if i >= q {
            gaps.push(i + 1 - table[v]);
        }
        table.set(v, i + 1);
        i = i + 1;
    }
    Ok(UniversalTally { block_len: l, init_blocks: q, gaps })
}

} // verus!
