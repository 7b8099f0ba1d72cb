//! Counting over sequences, shared by the tests.
use vstd::prelude::*;

verus! {

/// Number of `true` entries of a sequence of bits.
pub open spec fn count_ones(s: Seq<bool>) -> nat
    decreases s.len(),
{
    if s.len() == 0 {
        0
    } else {
        count_ones(s.drop_last()) + if s.last() { 1nat } else { 0nat }
    }
}

pub proof fn lemma_count_ones_push(s: Seq<bool>, b: bool)
    ensures
        count_ones(s.push(b)) == count_ones(s) + if b { 1nat } else { 0nat },
{
    assert(s.push(b).drop_last() == s);
}

pub proof fn lemma_count_ones_append(a: Seq<bool>, b: Seq<bool>)
    ensures
        count_ones(a + b) == count_ones(a) + count_ones(b),
    decreases b.len(),
{
    if b.len() == 0 {
        assert(a + b == a);
    } else {
        lemma_count_ones_append(a, b.drop_last());
        assert((a + b).drop_last() == a + b.drop_last());
    }
}

pub proof fn lemma_count_ones_le(s: Seq<bool>)
    ensures
        count_ones(s) <= s.len(),
    decreases s.len(),
{
    if s.len() > 0 {
        lemma_count_ones_le(s.drop_last());
    }
}

} // verus!

verus! {

/// Number of indices `i` in `0..n` at which `f` holds.
pub open spec fn count_upto(n: int, f: spec_fn(int) -> bool) -> nat
    decreases n,
{
    if n <= 0 {
        0
    } else {
        count_upto(n - 1, f) + if f(n - 1) { 1nat } else { 0nat }
    }
}

pub proof fn lemma_count_upto_le(n: int, f: spec_fn(int) -> bool)
    requires
        n >= 0,
    ensures
        count_upto(n, f) <= n,
    decreases n,
{
    if n > 0 {
        lemma_count_upto_le(n - 1, f);
    }
}

/// Two predicates that agree below `n` count the same.
pub proof fn lemma_count_upto_ext(n: int, f: spec_fn(int) -> bool, g: spec_fn(int) -> bool)
    requires
        forall|i: int| 0 <= i < n ==> #[trigger] f(i) == g(i),
    ensures
        count_upto(n, f) == count_upto(n, g),
    decreases n,
{
    if n > 0 {
        lemma_count_upto_ext(n - 1, f, g);
    }
}

} // verus!

verus! {

/// Block `b` of length `m` fits in a sequence of `n` bits when `b < n / m`.
pub proof fn lemma_block_fits(b: int, m: int, n: int)
    requires
        m > 0,
        n >= 0,
        0 <= b < n / m,
    ensures
        0 <= b * m,
        b * m + m <= n,
{
    assert(b * m + m <= (n / m) * m) by (nonlinear_arith)
        requires 0 <= b < n / m, m > 0;
    assert((n / m) * m <= n) by (nonlinear_arith)
        requires m > 0, n >= 0;
    assert(0 <= b * m) by (nonlinear_arith)
        requires 0 <= b, m > 0;
}

/// Bits `b * m .. b * m + m` of `s`.
pub open spec fn block(s: Seq<bool>, m: int, b: int) -> Seq<bool> {
    s.subrange(b * m, b * m + m)
}

} // verus!

verus! {

pub open spec fn pow2(e: nat) -> nat
    decreases e,
{
    if e == 0 { 1 } else { 2 * pow2((e - 1) as nat) }
}

pub proof fn lemma_pow2_mono(a: nat, b: nat)
    requires
        a <= b,
    ensures
        1 <= pow2(a) <= pow2(b),
    decreases b,
{
    if b > a {
        lemma_pow2_mono(a, (b - 1) as nat);
    } else {
        lemma_pow2_pos(a);
    }
}

pub proof fn lemma_pow2_pos(a: nat)
    ensures
        1 <= pow2(a),
    decreases a,
{
    if a > 0 {
        lemma_pow2_pos((a - 1) as nat);
    }
}

pub proof fn lemma_pow2_add(a: nat, b: nat)
    ensures
        pow2(a + b) == pow2(a) * pow2(b),
    decreases b,
{
    if b > 0 {
        let b1 = (b - 1) as nat;
        lemma_pow2_add(a, b1);
        let x = pow2(a);
        let y = pow2(b1);
        assert(pow2(a + b) == 2 * pow2(a + b1));
        assert(pow2(b) == 2 * y);
        assert(x * (2 * y) == 2 * (x * y)) by (nonlinear_arith);
    } else {
        assert(pow2(0) == 1);
        assert(a + b == a);
    }
}

/// The powers of two that bound the tables of the tests.
pub proof fn lemma_pow2_facts()
    ensures
        pow2(16) == 0x1_0000,
        pow2(21) == 0x20_0000,
        pow2(32) == 0x1_0000_0000,
{
    reveal_with_fuel(pow2, 6);
    assert(pow2(5) == 32);
    assert(pow2(1) == 2);
    lemma_pow2_add(5, 5);
    assert(pow2(10) == 1024);
    lemma_pow2_add(10, 5);
    assert(pow2(15) == 32768);
    lemma_pow2_add(15, 1);
    assert(pow2(16) == 65536);
    lemma_pow2_add(16, 5);
    lemma_pow2_add(16, 16);
    assert(65536 * 65536 == 0x1_0000_0000) by (nonlinear_arith);
}

/// `2^e` for `e <= 32`.
pub fn pow2_exec(e: u32) -> (r: u64)
    requires
        e <= 32,
    ensures
        r == pow2(e as nat),
{
    proof {
        lemma_pow2_mono(e as nat, 32);
        lemma_pow2_facts();
    }
    let mut r: u64 = 1;
    let mut i: u32 = 0;
    while i < e
        invariant
            i <= e <= 32,
            r == pow2(i as nat),
            pow2(e as nat) <= 0x1_0000_0000,
        decreases e - i,
    {
        proof {
            lemma_pow2_mono((i + 1) as nat, e as nat);
        }
        r = r * 2;
        i = i + 1;
    }
    r
}

/// The number that a sequence of bits spells, most significant bit first.
pub open spec fn bits_value(s: Seq<bool>) -> nat
    decreases s.len(),
{
    if s.len() == 0 {
        0
    } else {
        2 * bits_value(s.drop_last()) + if s.last() { 1nat } else { 0nat }
    }
}

pub proof fn lemma_bits_value_bound(s: Seq<bool>)
    ensures
        bits_value(s) < pow2(s.len()),
    decreases s.len(),
{
    if s.len() > 0 {
        lemma_bits_value_bound(s.drop_last());
    }
}

} // verus!

verus! {

/// `f(0) + f(1) + ... + f(k - 1)`.
pub open spec fn sum_upto(k: int, f: spec_fn(int) -> int) -> int
    decreases k,
{
    if k <= 0 { 0 } else { sum_upto(k - 1, f) + f(k - 1) }
}

pub proof fn lemma_sum_ext(k: int, f: spec_fn(int) -> int, g: spec_fn(int) -> int)
    requires
        forall|v: int| 0 <= v < k ==> #[trigger] f(v) == g(v),
    ensures
        sum_upto(k, f) == sum_upto(k, g),
    decreases k,
{
    if k > 0 {
        lemma_sum_ext(k - 1, f, g);
    }
}

proof fn lemma_sum_split(k: int, f: spec_fn(int) -> int, g: spec_fn(int) -> int, h: spec_fn(int) -> int)
    requires
        forall|v: int| 0 <= v < k ==> #[trigger] h(v) == f(v) + g(v),
    ensures
        sum_upto(k, h) == sum_upto(k, f) + sum_upto(k, g),
    decreases k,
{
    if k > 0 {
        lemma_sum_split(k - 1, f, g, h);
    }
}

proof fn lemma_sum_indicator(k: int, a: int)
    requires
        0 <= a < k,
    ensures
        sum_upto(k, |v: int| if v == a { 1int } else { 0int }) == 1,
    decreases k,
{
    if k - 1 > a {
        lemma_sum_indicator(k - 1, a);
    } else {
        lemma_sum_zero(k - 1, a);
    }
}

proof fn lemma_sum_zero(k: int, a: int)
    requires
        k <= a,
    ensures
        sum_upto(k, |v: int| if v == a { 1int } else { 0int }) == 0,
    decreases k,
{
    if k > 0 {
        lemma_sum_zero(k - 1, a);
    }
}

/// When each of `n` items falls in one of `k` classes, the class counts add up to `n`.
pub proof fn lemma_classes_cover(n: int, k: int, cls: spec_fn(int) -> int)
    requires
        n >= 0,
        forall|c: int| 0 <= c < n ==> 0 <= #[trigger] cls(c) < k,
    ensures
        sum_upto(k, |v: int| count_upto(n, |c: int| cls(c) == v) as int) == n,
    decreases n,
{
    if n > 0 {
        lemma_classes_cover(n - 1, k, cls);
        let a = cls(n - 1);
        let f = |v: int| count_upto(n - 1, |c: int| cls(c) == v) as int;
        let g = |v: int| if v == a { 1int } else { 0int };
        let h = |v: int| count_upto(n, |c: int| cls(c) == v) as int;
        assert forall|v: int| 0 <= v < k implies #[trigger] h(v) == f(v) + g(v) by {}
        lemma_sum_split(k, f, g, h);
        lemma_sum_indicator(k, a);
    } else {
        lemma_sum_of_zeros(k, |v: int| count_upto(n, |c: int| cls(c) == v) as int);
    }
}

proof fn lemma_sum_of_zeros(k: int, f: spec_fn(int) -> int)
    requires
        forall|v: int| 0 <= v < k ==> #[trigger] f(v) == 0,
    ensures
        sum_upto(k, f) == 0,
    decreases k,
{
    if k > 0 {
        lemma_sum_of_zeros(k - 1, f);
    }
}

} // verus!
