//! Linear complexity: Berlekamp-Massey synthesis over each block.
use vstd::prelude::*;
use crate::BitsData;
use crate::TestError;
use crate::counting::{block, count_upto, lemma_block_fits, lemma_classes_cover, lemma_count_upto_ext, lemma_count_upto_le, lemma_sum_ext, sum_upto};

verus! {

/// Number of classes of the linear complexity test.
pub const LINEAR_CLASSES: usize = 7;

/// State of the synthesis: connection polynomial `c`, the polynomial `b` saved
/// at the last length change, the register length `l`, and the position `mm`
/// of that change (-1 before any).
pub type LfsrState = (Seq<bool>, Seq<bool>, int, int);

/// The discrepancy at position `n`: `t[n]` plus the sum over GF(2) of
/// `c[j] * t[n - j]` for `1 <= j <= l`.
pub open spec fn discrepancy(t: Seq<bool>, c: Seq<bool>, n: int, l: int) -> bool
    decreases l,
{
    if l <= 0 {
        t[n]
    } else {
        discrepancy(t, c, n, l - 1) != (t[n - l] && c[l])
    }
}

/// `c` with `b`, shifted up by `shift`, added to it over GF(2).
pub open spec fn add_shifted(c: Seq<bool>, b: Seq<bool>, shift: int) -> Seq<bool> {
    Seq::new(c.len(), |k: int| if k >= shift { c[k] != b[k - shift] } else { c[k] })
}

/// One step of the synthesis at position `n`.
pub open spec fn lfsr_step(t: Seq<bool>, st: LfsrState, n: int) -> LfsrState {
    let (c, b, l, mm) = st;
    if !discrepancy(t, c, n, l) {
        st
    } else {
        let c2 = add_shifted(c, b, n - mm);
        if l <= n / 2 {
            (c2, c, n + 1 - l, n)
        } else {
            (c2, b, l, mm)
        }
    }
}

/// State of the synthesis after the first `k` bits of `t`.
pub open spec fn lfsr_state(t: Seq<bool>, k: int) -> LfsrState
    decreases k,
{
    if k <= 0 {
        let one = Seq::new(t.len(), |i: int| i == 0);
        (one, one, 0, -1)
    } else {
        lfsr_step(t, lfsr_state(t, k - 1), k - 1)
    }
}

/// Linear complexity of `t`: the register length that the synthesis ends
/// with. It is the length of the shortest linear feedback shift register that
/// generates `t` (`lemma_register_generates_block`, `lemma_linear_complexity_minimal`).
pub open spec fn linear_complexity(t: Seq<bool>) -> int {
    lfsr_state(t, t.len() as int).2
}

/// The register of length `l` with connection polynomial `c` produces `t`
/// from position `l` up to `n`: each such bit is the sum over GF(2) of the
/// `l` bits before it, weighted by `c`.
pub open spec fn generates(t: Seq<bool>, c: Seq<bool>, l: int, n: int) -> bool {
    forall|i: int| l <= i < n ==> !#[trigger] discrepancy(t, c, i, l)
}

/// Coefficients of `c` past `l` do not change the discrepancy while they are zero.
proof fn lemma_discrepancy_extend(t: Seq<bool>, c: Seq<bool>, i: int, l: int, big: int)
    requires
        0 <= l <= big,
        forall|j: int| l < j <= big ==> !#[trigger] c[j],
    ensures
        discrepancy(t, c, i, big) == discrepancy(t, c, i, l),
    decreases big,
{
    if big > l {
        lemma_discrepancy_extend(t, c, i, l, big - 1);
    }
}

/// The discrepancy is linear in the connection polynomial: adding `b`
/// shifted by `s` adds the discrepancy of `b` at `i - s`.
proof fn lemma_discrepancy_add(t: Seq<bool>, c: Seq<bool>, b: Seq<bool>, s: int, i: int, big: int)
    requires
        1 <= s <= big < c.len(),
        b.len() == c.len(),
        b[0],
    ensures
        discrepancy(t, add_shifted(c, b, s), i, big)
            == (discrepancy(t, c, i, big) != discrepancy(t, b, i - s, big - s)),
    decreases big,
{
    if big == s {
        lemma_discrepancy_low(t, c, b, s, i, s - 1);
        assert(discrepancy(t, b, i - s, 0) == t[i - s]);
    } else {
        lemma_discrepancy_add(t, c, b, s, i, big - 1);
        assert(t[(i - s) - (big - s)] == t[i - big]);
    }
}

/// Below the shift, adding `b` leaves the discrepancy as it was.
proof fn lemma_discrepancy_low(t: Seq<bool>, c: Seq<bool>, b: Seq<bool>, s: int, i: int, l: int)
    requires
        0 <= l < s,
        s < c.len(),
        b.len() == c.len(),
    ensures
        discrepancy(t, add_shifted(c, b, s), i, l) == discrepancy(t, c, i, l),
    decreases l,
{
    if l > 0 {
        lemma_discrepancy_low(t, c, b, s, i, l - 1);
    }
}

/// What holds of the synthesis after the first `n` bits.
pub open spec fn lfsr_invariant(t: Seq<bool>, st: LfsrState, n: int) -> bool {
    let (c, b, l, mm) = st;
    let lb = mm + 1 - l;
    &&& c.len() == t.len()
    &&& b.len() == t.len()
    &&& 0 <= l <= n
    &&& -1 <= mm < n
    &&& c[0]
    &&& b[0]
    &&& forall|j: int| l < j < t.len() ==> !#[trigger] c[j]
    &&& generates(t, c, l, n)
    &&& mm == -1 ==> l == 0 && forall|j: int| 0 < j < t.len() ==> !#[trigger] b[j]
    &&& mm >= 0 ==> {
        &&& 1 <= l
        &&& 0 <= lb
        &&& forall|j: int| lb < j < t.len() ==> !#[trigger] b[j]
        &&& generates(t, b, lb, mm)
        &&& discrepancy(t, b, mm, lb)
    }
}

proof fn lemma_lfsr_invariant(t: Seq<bool>, n: int)
    requires
        0 <= n <= t.len(),
        t.len() > 0,
    ensures
        lfsr_invariant(t, lfsr_state(t, n), n),
    decreases n,
{
    if n > 0 {
        lemma_lfsr_invariant(t, n - 1);
        let k = n - 1;
        let (c, b, l, mm) = lfsr_state(t, k);
        let lb = mm + 1 - l;
        let d = discrepancy(t, c, k, l);
        if d {
            let s = k - mm;
            let c2 = add_shifted(c, b, s);
            let big = if l <= k / 2 { k + 1 - l } else { l };
            if mm == -1 {
                assert forall|j: int| big < j < t.len() implies !#[trigger] c2[j] by {}
                assert(c2[0]);
            } else {
                assert(big >= s + lb && big >= l && big < t.len());
                assert forall|j: int| big < j < t.len() implies !#[trigger] c2[j] by {}
                assert(c2[0]);
                assert forall|i: int| big <= i < n implies !#[trigger] discrepancy(t, c2, i, big) by {
                    lemma_discrepancy_add(t, c, b, s, i, big);
                    lemma_discrepancy_extend(t, c, i, l, big);
                    lemma_discrepancy_extend(t, b, i - s, lb, big - s);
                    if i < k {
                        assert(!discrepancy(t, c, i, l));
                        assert(!discrepancy(t, b, i - s, lb));
                    }
                }
            }
        }
    }
}

/// The register that the synthesis ends with produces the whole block from
/// position `linear_complexity(t)` on: some register of that length
/// generates `t`.
pub proof fn lemma_register_generates_block(t: Seq<bool>)
    requires
        t.len() > 0,
    ensures
        generates(t, lfsr_state(t, t.len() as int).0, linear_complexity(t), t.len() as int),
        lfsr_state(t, t.len() as int).0[0],
        0 <= linear_complexity(t) <= t.len(),
{
    lemma_lfsr_invariant(t, t.len() as int);
}

/// Sum over GF(2) of `f(1), ..., f(k)`.
pub open spec fn xor_sum(k: int, f: spec_fn(int) -> bool) -> bool
    decreases k,
{
    if k <= 0 { false } else { xor_sum(k - 1, f) != f(k) }
}

proof fn lemma_xor_ext(k: int, f: spec_fn(int) -> bool, g: spec_fn(int) -> bool)
    requires
        forall|j: int| 1 <= j <= k ==> #[trigger] f(j) == g(j),
    ensures
        xor_sum(k, f) == xor_sum(k, g),
    decreases k,
{
    if k > 0 {
        lemma_xor_ext(k - 1, f, g);
    }
}

proof fn lemma_xor_and(k: int, a: bool, f: spec_fn(int) -> bool, h: spec_fn(int) -> bool)
    requires
        forall|j: int| 1 <= j <= k ==> #[trigger] h(j) == (a && f(j)),
    ensures
        (a && xor_sum(k, f)) == xor_sum(k, h),
    decreases k,
{
    if k > 0 {
        lemma_xor_and(k - 1, a, f, h);
    }
}

proof fn lemma_xor_add(k: int, f: spec_fn(int) -> bool, g: spec_fn(int) -> bool, h: spec_fn(int) -> bool)
    requires
        forall|j: int| 1 <= j <= k ==> #[trigger] h(j) == (f(j) != g(j)),
    ensures
        xor_sum(k, h) == (xor_sum(k, f) != xor_sum(k, g)),
    decreases k,
{
    if k > 0 {
        lemma_xor_add(k - 1, f, g, h);
    }
}

proof fn lemma_xor_zero(k: int, f: spec_fn(int) -> bool)
    requires
        forall|j: int| 1 <= j <= k ==> !#[trigger] f(j),
    ensures
        !xor_sum(k, f),
    decreases k,
{
    if k > 0 {
        lemma_xor_zero(k - 1, f);
    }
}

proof fn lemma_xor_swap(a: int, b: int, g: spec_fn(int, int) -> bool)
    ensures
        xor_sum(a, |x: int| xor_sum(b, |y: int| g(x, y))) == xor_sum(b, |y: int| xor_sum(a, |x: int| g(x, y))),
    decreases a,
{
    if a > 0 {
        lemma_xor_swap(a - 1, b, g);
        let prev = |y: int| xor_sum(a - 1, |x: int| g(x, y));
        let last = |y: int| g(a, y);
        let whole = |y: int| xor_sum(a, |x: int| g(x, y));
        lemma_xor_add(b, prev, last, whole);
    } else {
        lemma_xor_zero(b, |y: int| xor_sum(a, |x: int| g(x, y)));
    }
}

/// The discrepancy is `t[n]` plus the weighted sum of the `l` bits before it.
proof fn lemma_discrepancy_sum(t: Seq<bool>, c: Seq<bool>, n: int, l: int)
    ensures
        discrepancy(t, c, n, l) == (t[n] != xor_sum(l, |j: int| c[j] && t[n - j])),
    decreases l,
{
    if l > 0 {
        lemma_discrepancy_sum(t, c, n, l - 1);
    }
}

/// Massey's bound: when a register of length `l` produces the first `n`
/// bits but not bit `n`, no register of length at most `n - l` produces the
/// first `n + 1` bits.
proof fn lemma_massey(t: Seq<bool>, c: Seq<bool>, l: int, cp: Seq<bool>, lp: int, n: int)
    requires
        0 <= l,
        0 <= lp,
        generates(t, c, l, n),
        discrepancy(t, c, n, l),
        generates(t, cp, lp, n + 1),
    ensures
        lp > n - l,
{
    if l + lp <= n {
        lemma_massey_sums(t, c, l, cp, lp, n);
    }
}

/// Under the bound's premises with `l + lp <= n`, bit `n` would agree with
/// the first register after all.
proof fn lemma_massey_sums(t: Seq<bool>, c: Seq<bool>, l: int, cp: Seq<bool>, lp: int, n: int)
    requires
        0 <= l,
        0 <= lp,
        l + lp <= n,
        generates(t, c, l, n),
        generates(t, cp, lp, n + 1),
    ensures
        !discrepancy(t, c, n, l),
{
    let g = |x: int, y: int| c[x] && (cp[y] && t[n - x - y]);
    lemma_discrepancy_sum(t, c, n, l);
    let f1 = |x: int| c[x] && t[n - x];
    let f2 = |x: int| xor_sum(lp, |y: int| g(x, y));
    assert forall|x: int| 1 <= x <= l implies #[trigger] f1(x) == f2(x) by {
        assert(!discrepancy(t, cp, n - x, lp));
        lemma_discrepancy_sum(t, cp, n - x, lp);
        lemma_xor_and(lp, c[x], |y: int| cp[y] && t[n - x - y], |y: int| g(x, y));
    }
    lemma_xor_ext(l, f1, f2);
    assert(!discrepancy(t, cp, n, lp));
    lemma_discrepancy_sum(t, cp, n, lp);
    let h1 = |y: int| cp[y] && t[n - y];
    let h2 = |y: int| xor_sum(l, |x: int| g(x, y));
    assert forall|y: int| 1 <= y <= lp implies #[trigger] h1(y) == h2(y) by {
        assert(!discrepancy(t, c, n - y, l));
        lemma_discrepancy_sum(t, c, n - y, l);
        assert forall|x: int| 1 <= x <= l implies #[trigger] g(x, y) == (cp[y] && (c[x] && t[n - y - x])) by {
            assert(n - y - x == n - x - y);
        }
        lemma_xor_and(l, cp[y], |x: int| c[x] && t[n - y - x], |x: int| g(x, y));
    }
    lemma_xor_ext(lp, h1, h2);
    lemma_xor_swap(l, lp, g);
}

proof fn lemma_lfsr_minimal(t: Seq<bool>, n: int, cp: Seq<bool>, lp: int)
    requires
        t.len() > 0,
        0 <= n <= t.len(),
        0 <= lp,
        generates(t, cp, lp, n),
    ensures
        lp >= lfsr_state(t, n).2,
    decreases n,
{
    if n > 0 {
        let k = n - 1;
        assert(generates(t, cp, lp, k));
        lemma_lfsr_minimal(t, k, cp, lp);
        lemma_lfsr_invariant(t, k);
        let (c, b, l, mm) = lfsr_state(t, k);
        if discrepancy(t, c, k, l) && l <= k / 2 {
            lemma_massey(t, c, l, cp, lp, k);
        }
    }
}

/// No register shorter than `linear_complexity(t)` produces the block:
/// with `lemma_register_generates_block`, the linear complexity is the
/// length of the shortest register that generates `t`.
pub proof fn lemma_linear_complexity_minimal(t: Seq<bool>, c: Seq<bool>, l: int)
    requires
        t.len() > 0,
        0 <= l,
        generates(t, c, l, t.len() as int),
    ensures
        l >= linear_complexity(t),
{
    lemma_lfsr_minimal(t, t.len() as int, c, l);
}

/// Class of a block of length `m` with linear complexity `l`. With
/// `e = (-1)^m (2l - m)`, the classes are split at `e = -5, -3, -1, 1, 3, 5`;
/// these are the classes of the statistic `T = (-1)^m (l - mu) + 2/9`,
/// split at `T = -2.5, -1.5, ..., 2.5`, as `2T` lies strictly within one
/// unit of `e` on the side away from each split point.
pub open spec fn linear_class(l: int, m: int) -> nat {
    let e = if m % 2 == 0 { 2 * l - m } else { m - 2 * l };
    if e < -5 {
        0
    } else if e < -3 {
        1
    } else if e < -1 {
        2
    } else if e < 1 {
        3
    } else if e < 3 {
        4
    } else if e < 5 {
        5
    } else {
        6
    }
}

/// Blocks of length `m` whose linear complexity falls in class `c`.
pub open spec fn linear_class_count(s: Seq<bool>, m: int, c: nat) -> nat {
    count_upto(s.len() as int / m, |x: int| linear_class(linear_complexity(block(s, m, x)), m) == c)
}

/// Every block falls in exactly one of the seven classes: the class counts
/// add up to the number of blocks.
pub proof fn lemma_linear_classes_cover(s: Seq<bool>, m: int)
    requires
        m > 0,
    ensures
        sum_upto(7, |c: int| linear_class_count(s, m, c as nat) as int) == s.len() as int / m,
{
    let nb = s.len() as int / m;
    let cls = |x: int| linear_class(linear_complexity(block(s, m, x)), m) as int;
    lemma_classes_cover(nb, 7, cls);
    let f = |c: int| linear_class_count(s, m, c as nat) as int;
    let g = |v: int| count_upto(nb, |x: int| cls(x) == v) as int;
    assert forall|c: int| 0 <= c < 7 implies #[trigger] f(c) == g(c) by {
        lemma_count_upto_ext(nb, |x: int| linear_class(linear_complexity(block(s, m, x)), m) == c as nat, |x: int| cls(x) == c);
    }
    lemma_sum_ext(7, f, g);
}

fn linear_complexity_at(data: &BitsData, start: usize, m: usize) -> (r: usize)
    requires
        m > 0,
        start + m <= data@.len(),
    ensures
        r == linear_complexity(data@.subrange(start as int, start + m)),
{
    let ghost t = data@.subrange(start as int, start + m);
    let len = data.len();
    let mut c: Vec<bool> = vec![false; m];
    c.set(0, true);
    let mut b: Vec<bool> = vec![false; m];
    b.set(0, true);
    let mut l: usize = 0;
    let mut last: usize = 0;
    proof {
        let one = Seq::new(t.len(), |i: int| i == 0);
        assert(c@ == one);
        assert(b@ == one);
    }
    let mut n: usize = 0;
    while n < m
        invariant
            m > 0,
            len == data@.len(),
            start + m <= len,
            t == data@.subrange(start as int, start + m),
            n <= m,
            c@.len() == m,
            b@.len() == m,
            l <= n,
            last <= n,
            lfsr_state(t, n as int) == (c@, b@, l as int, last - 1),
        decreases m - n,
    {
        let mut d: bool = data.get(start + n);
        let mut j: usize = 1;
        while j <= l
            invariant
                start + m <= len,
                len == data@.len(),
                t == data@.subrange(start as int, start + m),
                n < m,
                c@.len() == m,
                l <= n,
                1 <= j <= l + 1,
                d == discrepancy(t, c@, n as int, j - 1),
            decreases l + 1 - j,
        {
            if data.get(start + n - j) && c[j] {
                d = !d;
            }
            j = j + 1;
        }
        if d {
            let saved = c.clone();
            assert(saved@ == c@);
            let shift = n + 1 - last;
            let mut k: usize = shift;
            while k < m
                invariant
                    m == c@.len(),
                    m == b@.len(),
                    1 <= shift <= k,
                    k <= m || k == shift,
                    saved@.len() == m,
                    forall|i: int| 0 <= i < m ==> #[trigger] c@[i] == if shift <= i < k {
                        saved@[i] != b@[i - shift]
                    } else {
                        saved@[i]
                    },
                decreases m - k,
            {
                let v = c[k] != b[k - shift];
                c.set(k, v);
                k = k + 1;
            }
            proof {
                assert(c@ == add_shifted(saved@, b@, shift as int));
            }
            if l <= n / 2 {
                l = n + 1 - l;
                last = n + 1;
                b = saved;
            }
        }
        n = n + 1;
    }
    l
}

/// Splits the sequence into blocks of `m` bits and counts the blocks by the
/// class of their linear complexity. Fails with `InvalidParameter` for
/// `m == 0` and with `InsufficientData` when no block fits.
pub fn linear_complexity_counts(data: &BitsData, m: usize) -> (r: Result<Vec<usize>, TestError>)
    ensures
        match r {
            Ok(counts) => {
                &&& m > 0
                &&& data@.len() >= m
                &&& counts@.len() == 7
                &&& forall|c: int| 0 <= c < 7 ==>
                    #[trigger] counts@[c] == linear_class_count(data@, m as int, c as nat)
            },
            Err(e) => {
                &&& m == 0 ==> e == TestError::InvalidParameter
                &&& m > 0 ==> e == TestError::InsufficientData && data@.len() < m
            },
        },
{
    let ghost s = data@;
    if m == 0 {
        return Err(TestError::InvalidParameter);
    }
    let n = data.len();
    if n < m {
        return Err(TestError::InsufficientData);
    }
    let blocks = n / m;
    let mut counts: Vec<usize> = vec![0usize; 7];
    let mut x: usize = 0;
    while x < blocks
        invariant
            s == data@,
            n == s.len(),
            m > 0,
            blocks == n / m,
            x <= blocks,
            counts@.len() == 7,
            forall|c: int| 0 <= c < 7 ==> #[trigger] counts@[c] == count_upto(x as int,
                |y: int| linear_class(linear_complexity(block(s, m as int, y)), m as int) == c as nat),
        decreases blocks - x,
    {
        proof {
            lemma_block_fits(x as int, m as int, n as int);
        }
        let l = linear_complexity_at(data, x * m, m);
        let e: i128 = if m % 2 == 0 { 2 * (l as i128) - (m as i128) } else { (m as i128) - 2 * (l as i128) };
        let c: usize = if e < -5 {
            0
        } else if e < -3 {
            1
        } else if e < -1 {
            2
        } else if e < 1 {
            3
        } else if e < 3 {
            4
        } else if e < 5 {
            5
        } else {
            6
        };
        proof {
            lemma_count_upto_le(x as int,
                |y: int| linear_class(linear_complexity(block(s, m as int, y)), m as int) == c as nat);
        }
        counts.set(c, counts[c] + 1);
        x = x + 1;
    }
    Ok(counts)
}

} // verus!
