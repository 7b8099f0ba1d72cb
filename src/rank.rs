//! Binary matrix rank: the ranks over GF(2) of disjoint 32 x 32 matrices.
use vstd::prelude::*;
use crate::BitsData;
use crate::TestError;
use crate::counting::{count_upto, lemma_block_fits};

verus! {

/// Rows and columns of each matrix.
pub const MATRIX_SIZE: usize = 32;

/// The fewest bits the test accepts: 38 matrices.
pub const MINIMAL_BITS: usize = 38912;

/// Entry `j` of a row.
pub open spec fn has_bit(r: u32, j: int) -> bool {
    (r >> (j as u32)) & 1u32 == 1u32
}

/// The row whose entry `j` is `bits[j]`.
pub open spec fn row_word(bits: Seq<bool>) -> u32
    decreases bits.len(),
{
    if bits.len() == 0 {
        0
    } else {
        row_word(bits.drop_last()) | if bits.last() { 1u32 << ((bits.len() - 1) as u32) } else { 0u32 }
    }
}

/// Matrix `k` of the sequence: row `i` holds bits `1024 k + 32 i ..` of it.
pub open spec fn matrix_rows(s: Seq<bool>, k: int) -> Seq<u32> {
    Seq::new(32, |i: int| row_word(s.subrange(k * 1024 + i * 32, k * 1024 + i * 32 + 32)))
}

/// Entry `j` of `row_word(bits)` is `bits[j]`, and the entries past the bits are zero.
pub proof fn lemma_row_word_entries(bits: Seq<bool>, j: int)
    requires
        bits.len() <= 32,
        0 <= j < 32,
    ensures
        has_bit(row_word(bits), j) == (j < bits.len() && bits[j]),
    decreases bits.len(),
{
    if bits.len() > 0 {
        let d = bits.drop_last();
        lemma_row_word_entries(d, j);
        let w = row_word(d);
        let p = (bits.len() - 1) as u32;
        let ju = j as u32;
        assert(((w | (1u32 << p)) >> ju) & 1u32 == 1u32 <==> ((w >> ju) & 1u32 == 1u32 || ju == p)) by (bit_vector)
            requires p < 32, ju < 32;
        assert((w | 0u32) == w) by (bit_vector);
    } else {
        let ju = j as u32;
        assert((0u32 >> ju) & 1u32 == 0u32) by (bit_vector);
    }
}

pub open spec fn swap_rows(rows: Seq<u32>, a: int, b: int) -> Seq<u32> {
    rows.update(a, rows[b]).update(b, rows[a])
}

/// First row from `j` down the matrix with a one in column `i`, or 32.
pub open spec fn first_pivot(rows: Seq<u32>, i: int, j: int) -> int
    decreases 32 - j,
{
    if j >= 32 || j < 0 {
        32
    } else if has_bit(rows[j], i) {
        j
    } else {
        first_pivot(rows, i, j + 1)
    }
}

/// Last row from `j` up the matrix with a one in column `i`, or -1.
pub open spec fn last_pivot(rows: Seq<u32>, i: int, j: int) -> int
    decreases j + 1,
{
    if j < 0 || j >= 32 {
        -1
    } else if has_bit(rows[j], i) {
        j
    } else {
        last_pivot(rows, i, j - 1)
    }
}

/// Adds row `i` to each row below it with a one in column `i`.
pub open spec fn clear_below(rows: Seq<u32>, i: int) -> Seq<u32> {
    Seq::new(32, |j: int| if j > i && has_bit(rows[j], i) { rows[j] ^ rows[i] } else { rows[j] })
}

/// Adds row `i` to each row above it with a one in column `i`.
pub open spec fn clear_above(rows: Seq<u32>, i: int) -> Seq<u32> {
    Seq::new(32, |j: int| if j < i && has_bit(rows[j], i) { rows[j] ^ rows[i] } else { rows[j] })
}

/// Column `i` of the forward pass: bring a pivot to row `i`, searching
/// downwards, then clear the column below it.
pub open spec fn forward_step(rows: Seq<u32>, i: int) -> Seq<u32> {
    let p = first_pivot(rows, i, i);
    if p < 32 { clear_below(swap_rows(rows, i, p), i) } else { rows }
}

/// Column `i` of the backward pass: bring a pivot to row `i`, searching
/// upwards, then clear the column above it.
pub open spec fn backward_step(rows: Seq<u32>, i: int) -> Seq<u32> {
    let p = last_pivot(rows, i, i);
    if p >= 0 { clear_above(swap_rows(rows, i, p), i) } else { rows }
}

/// The forward pass over columns `0..c`.
pub open spec fn forward_pass(rows: Seq<u32>, c: int) -> Seq<u32>
    decreases c,
{
    if c <= 0 { rows } else { forward_step(forward_pass(rows, c - 1), c - 1) }
}

/// The backward pass over columns `31` down to `c`.
pub open spec fn backward_pass(rows: Seq<u32>, c: int) -> Seq<u32>
    decreases 32 - c,
{
    if c >= 32 || c < 0 { rows } else { backward_step(backward_pass(rows, c + 1), c) }
}

/// Rank of a 32 x 32 matrix over GF(2): 32 less the rows that are zero
/// after the forward pass over columns 0 to 30 and the backward pass over
/// columns 31 to 0.
pub open spec fn gf2_rank(rows: Seq<u32>) -> int {
    let e = backward_pass(forward_pass(rows, 31), 0);
    32 - count_upto(32, |j: int| e[j] == 0u32)
}

/// Matrices among the first `nm` whose rank is `r`.
pub open spec fn rank_count(s: Seq<bool>, nm: int, r: int) -> nat {
    count_upto(nm, |k: int| gf2_rank(matrix_rows(s, k)) == r)
}

/// The tally of the rank test.
pub struct RankTally {
    /// Number of matrices.
    pub matrices: usize,
    /// Matrices of rank 32.
    pub full: usize,
    /// Matrices of rank 31.
    pub one_less: usize,
}

fn read_row(data: &BitsData, start: usize) -> (r: u32)
    requires
        start + 32 <= data@.len(),
    ensures
        r == row_word(data@.subrange(start as int, start + 32)),
{
    let ghost bits = data@.subrange(start as int, start + 32);
    let n = data.len();
    let mut w: u32 = 0;
    let mut j: usize = 0;
    while j < 32
        invariant
            n == data@.len(),
            start + 32 <= n,
            bits == data@.subrange(start as int, start + 32),
            j <= 32,
            w == row_word(bits.subrange(0, j as int)),
        decreases 32 - j,
    {
        proof {
            assert(bits.subrange(0, j + 1).drop_last() == bits.subrange(0, j as int));
        }
        if data.get(start + j) {
            w = w | (1u32 << (j as u32));
        } else {
            assert((w | 0u32) == w) by (bit_vector);
        }
        j = j + 1;
    }
    proof {
        assert(bits.subrange(0, 32) == bits);
    }
    w
}

fn swap_exec(rows: &mut Vec<u32>, a: usize, b: usize)
    requires
        a < old(rows)@.len(),
        b < old(rows)@.len(),
    ensures
        final(rows)@ == swap_rows(old(rows)@, a as int, b as int),
{
    let x = rows[a];
    let y = rows[b];
    rows.set(a, y);
    rows.set(b, x);
}

fn bit_exec(r: u32, j: usize) -> (b: bool)
    requires
        j < 32,
    ensures
        b == has_bit(r, j as int),
{
    (r >> (j as u32)) & 1u32 == 1u32
}

fn forward_step_exec(rows: &mut Vec<u32>, i: usize)
    requires
        old(rows)@.len() == 32,
        i < 32,
    ensures
        final(rows)@ == forward_step(old(rows)@, i as int),
{
    let ghost start = rows@;
    let mut p: usize = i;
    while p < 32 && !bit_exec(rows[p], i)
        invariant
            rows@ == start,
            rows@.len() == 32,
            i < 32,
            i <= p <= 32,
            first_pivot(start, i as int, i as int) == first_pivot(start, i as int, p as int),
        decreases 32 - p,
    {
        p = p + 1;
    }
    if p == 32 {
        return;
    }
    swap_exec(rows, i, p);
    let ghost swapped = rows@;
    let pivot = rows[i];
    let mut j: usize = i + 1;
    while j < 32
        invariant
            rows@.len() == 32,
            i < 32,
            i + 1 <= j <= 32,
            swapped.len() == 32,
            pivot == swapped[i as int],
            forall|x: int| 0 <= x < 32 ==> #[trigger] rows@[x] == if i < x < j && has_bit(swapped[x], i as int) {
                swapped[x] ^ swapped[i as int]
            } else {
                swapped[x]
            },
        decreases 32 - j,
    {
        if bit_exec(rows[j], i) {
            let v = rows[j] ^ pivot;
            rows.set(j, v);
        }
        j = j + 1;
    }
    proof {
        assert(rows@ == clear_below(swapped, i as int));
    }
}

fn backward_step_exec(rows: &mut Vec<u32>, i: usize)
    requires
        old(rows)@.len() == 32,
        i < 32,
    ensures
        final(rows)@ == backward_step(old(rows)@, i as int),
{
    let ghost start = rows@;
    let mut q: usize = i + 1;
    while q > 0 && !bit_exec(rows[q - 1], i)
        invariant
            rows@ == start,
            rows@.len() == 32,
            i < 32,
            q <= i + 1,
            last_pivot(start, i as int, i as int) == last_pivot(start, i as int, q - 1),
        decreases q,
    {
        q = q - 1;
    }
    if q == 0 {
        return;
    }
    let p = q - 1;
    swap_exec(rows, i, p);
    let ghost swapped = rows@;
    let pivot = rows[i];
    let mut j: usize = 0;
    while j < i
        invariant
            rows@.len() == 32,
            i < 32,
            j <= i,
            swapped.len() == 32,
            pivot == swapped[i as int],
            forall|x: int| 0 <= x < 32 ==> #[trigger] rows@[x] == if x < j && has_bit(swapped[x], i as int) {
                swapped[x] ^ swapped[i as int]
            } else {
                swapped[x]
            },
        decreases i - j,
    {
        if bit_exec(rows[j], i) {
            let v = rows[j] ^ pivot;
            rows.set(j, v);
        }
        j = j + 1;
    }
    proof {
        assert(rows@ == clear_above(swapped, i as int));
    }
}

/// Rank over GF(2) of a 32 x 32 matrix given by its rows.
pub fn compute_rank(rows: &mut Vec<u32>) -> (r: usize)
    requires
        old(rows)@.len() == 32,
    ensures
        r == gf2_rank(old(rows)@),
{
    let ghost start = rows@;
    let mut i: usize = 0;
    while i < 31
        invariant
            i <= 31,
            rows@.len() == 32,
            rows@ == forward_pass(start, i as int),
        decreases 31 - i,
    {
        forward_step_exec(rows, i);
        i = i + 1;
    }
    let ghost fwd = rows@;
    let mut c: usize = 32;
    while c > 0
        invariant
            c <= 32,
            rows@.len() == 32,
            fwd == forward_pass(start, 31),
            rows@ == backward_pass(fwd, c as int),
        decreases c,
    {
        backward_step_exec(rows, c - 1);
        c = c - 1;
    }
    let ghost fin = rows@;
    let mut zero: usize = 0;
    let mut j: usize = 0;
    while j < 32
        invariant
            j <= 32,
            rows@ == fin,
            fin.len() == 32,
            zero == count_upto(j as int, |x: int| fin[x] == 0u32),
            zero <= j,
        decreases 32 - j,
    {
        if rows[j] == 0 {
            zero = zero + 1;
        }
        j = j + 1;
    }
    32 - zero
}

/// Splits the sequence into 32 x 32 matrices, row by row, and counts those
/// of rank 32 and of rank 31. Fails with `InsufficientData` below 38912 bits.
pub fn rank_counts(data: &BitsData) -> (r: Result<RankTally, TestError>)
    ensures
        match r {
            Ok(t) => {
                &&& data@.len() >= 38912
                &&& t.matrices == data@.len() / 1024
                &&& t.full == rank_count(data@, t.matrices as int, 32)
                &&& t.one_less == rank_count(data@, t.matrices as int, 31)
            },
            Err(e) => data@.len() < 38912 && e == TestError::InsufficientData,
        },
{
    let ghost s = data@;
    let n = data.len();
    if n < MINIMAL_BITS {
        return Err(TestError::InsufficientData);
    }
    let nm = n / 1024;
    let mut full: usize = 0;
    let mut one_less: usize = 0;
    let mut k: usize = 0;
    while k < nm
        invariant
            s == data@,
            n == s.len(),
            nm == n / 1024,
            k <= nm,
            full == rank_count(s, k as int, 32),
            one_less == rank_count(s, k as int, 31),
            full <= k,
            one_less <= k,
        decreases nm - k,
    {
        proof {
            lemma_block_fits(k as int, 1024, n as int);
        }
        let mut rows: Vec<u32> = Vec::new();
        let mut i: usize = 0;
        while i < 32
            invariant
                s == data@,
                n == s.len(),
                k * 1024 + 1024 <= n,
                i <= 32,
                rows@.len() == i,
                forall|x: int| 0 <= x < i ==> #[trigger] rows@[x] == matrix_rows(s, k as int)[x],
            decreases 32 - i,
        {
            let w = read_row(data, k * 1024 + i * 32);
            rows.push(w);
            i = i + 1;
        }
        proof {
            assert(rows@ == matrix_rows(s, k as int));
        }
        let rank = compute_rank(&mut rows);
        if rank == 32 {
            full = full + 1;
        } else if rank == 31 {
            one_less = one_less + 1;
        }
        k = k + 1;
    }
    Ok(RankTally { matrices: nm, full, one_less })
}

} // verus!
