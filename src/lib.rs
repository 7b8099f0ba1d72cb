//! Statistical tests for the randomness of binary sequences.
//!
//! Every test of the battery is split into an exact, integer part, which
//! lives here and is verified, and a final p-value computed from the tallies
//! that this crate returns.
use vstd::prelude::*;

pub mod counting;
pub mod text;
pub mod walk;
pub mod random_excursions;
pub mod random_excursions_variant;
pub mod cusum;
pub mod longest_run_of_ones;
pub mod linear;
pub mod universal;
pub mod non_overlapping_template;
pub mod rank;
pub mod serial;
pub mod approximate;
pub mod overlapping_template;
pub mod block_freq;
pub mod freq;
pub mod runs;

verus! {

use crate::counting::count_ones;
use vstd::std_specs::iter::IteratorSpec;
use crate::text::{blank, broken_between, is_blank, is_digit, text_bits, text_is_binary};

/// Why a test could not be run on a sequence.
#[derive(Debug, Clone, Copy, PartialEq, Eq, Structural)]
pub enum TestError {
    /// A test parameter lies outside the test's domain.
    InvalidParameter,
    /// The sequence is shorter than the test needs.
    InsufficientData,
    /// The walk returns to the origin too rarely for the excursion tests.
    NotApplicable,
    /// A text holds a character that is not a binary digit.
    InvalidInput,
}

/// Bit `j` (0 is the most significant) of a byte.
pub open spec fn byte_bit(b: u8, j: int) -> bool {
    (b >> ((7 - j) as u8)) & 1u8 == 1u8
}

/// The bits of a byte buffer, eight per byte, most significant bit first.
pub open spec fn bits_of_bytes(s: Seq<u8>) -> Seq<bool> {
    Seq::new((8 * s.len()) as nat, |i: int| byte_bit(s[i / 8], i % 8))
}

/// Number of set bits of a byte.
pub open spec fn popcount(b: u8) -> nat {
    ((b & 1u8) + ((b >> 1u8) & 1u8) + ((b >> 2u8) & 1u8) + ((b >> 3u8) & 1u8)
        + ((b >> 4u8) & 1u8) + ((b >> 5u8) & 1u8) + ((b >> 6u8) & 1u8) + ((b >> 7u8) & 1u8)) as nat
}

/// Total number of set bits of a byte buffer.
pub open spec fn popcount_sum(s: Seq<u8>) -> nat
    decreases s.len(),
{
    if s.len() == 0 {
        0
    } else {
        popcount_sum(s.drop_last()) + popcount(s.last())
    }
}

/// An immutable sequence of bits together with its number of ones.
pub struct BitsData {
    ones: usize,
    data: Vec<bool>,
}

impl View for BitsData {
    type V = Seq<bool>;

    closed spec fn view(&self) -> Seq<bool> {
        self.data@
    }
}

impl BitsData {
    #[verifier::type_invariant]
    spec fn inv(self) -> bool {
        self.ones == count_ones(self.data@)
    }

    /// Expands a byte buffer into its bits, most significant bit first.
    pub fn from_binary(data: Vec<u8>) -> (r: BitsData)
        ensures
            r@ == bits_of_bytes(data@),
            r@.len() == 8 * data@.len(),
            count_ones(r@) == popcount_sum(data@),
    {
        let mut bits: Vec<bool> = Vec::new();
        let mut ones: usize = 0;
        let mut i: usize = 0;
        while i < data.len()
            invariant
                i <= data.len(),
                bits@ == bits_of_bytes(data@.subrange(0, i as int)),
                ones == count_ones(bits@),
                count_ones(bits@) == popcount_sum(data@.subrange(0, i as int)),
            decreases data.len() - i,
        {
            let b = data[i];
            let ghost before = bits@;
            let mut n: u8 = 8;
            while n > 0
                invariant
                    n <= 8,
                    bits@.len() == before.len() + (8 - n),
                    bits@.subrange(0, before.len() as int) == before,
                    forall|j: int| 0 <= j < 8 - n ==> bits@[before.len() + j] == byte_bit(b, j),
                    ones == count_ones(bits@),
                decreases n,
            {
                n = n - 1;
                let bit = (b >> n) & 1 == 1;
                proof {
                    crate::counting::lemma_count_ones_push(bits@, bit);
                }
                bits.push(bit);
                let pushed: usize = bits.len();
                proof {
                    crate::counting::lemma_count_ones_le(bits@);
                }
                if bit {
                    assert(ones + 1 <= pushed);
                    ones = ones + 1;
                }
            }
            proof {
                let next = data@.subrange(0, i + 1);
                assert(next.drop_last() == data@.subrange(0, i as int));
                let pre = data@.subrange(0, i as int);
                assert forall|k: int| 0 <= k < 8 * next.len() implies #[trigger] bits@[k] == byte_bit(next[k / 8], k % 8) by {
                    if k < 8 * i {
                        assert(k / 8 < i) by (nonlinear_arith) requires 0 <= k < 8 * i;
                        assert(before[k] == bits_of_bytes(pre)[k]);
                    } else {
                        assert(k / 8 == i && k % 8 == k - 8 * i) by (nonlinear_arith) requires 8 * i <= k < 8 * i + 8;
                        assert(bits@[before.len() + (k - 8 * i)] == byte_bit(b, k - 8 * i));
                    }
                }
                assert(bits@ =~= bits_of_bytes(next));
                crate::counting::lemma_count_ones_append(before, bits@.subrange(before.len() as int, bits@.len() as int));
                assert(before + bits@.subrange(before.len() as int, bits@.len() as int) == bits@);
                lemma_byte_ones(b, bits@.subrange(before.len() as int, bits@.len() as int));
            }
            i = i + 1;
        }
        proof {
            assert(data@.subrange(0, data@.len() as int) == data@);
        }
        BitsData { ones, data: bits }
    }

    /// Reads a text of lines of `0` and `1`; blanks that open or close a line
    /// are ignored. Any other character is refused.
    pub fn from_text(data: String) -> (r: Result<BitsData, TestError>)
        ensures
            match r {
                Ok(b) => text_is_binary(data@) && b@ == text_bits(data@),
                Err(e) => !text_is_binary(data@) && e == TestError::InvalidInput,
            },
    {
        let ghost s = data@;
        let mut bits: Vec<bool> = Vec::new();
        let mut ones: usize = 0;
        let mut seen = false;
        let mut gap = false;
        let ghost mut line_start: int = 0;
        let ghost mut w_digit: int = 0;
        let ghost mut w_blank: int = 0;
        let ghost mut i: int = 0;
        let mut chars = data.as_str().chars();
        loop
            invariant
                s == data@,
                0 <= line_start <= i <= s.len(),
                chars.remaining() == s.subrange(i, s.len() as int),
                chars.obeys_prophetic_iter_laws(),
                text_is_binary(s.subrange(0, i)),
                bits@ == text_bits(s.subrange(0, i)),
                ones == count_ones(bits@),
                line_start > 0 ==> s[line_start - 1] == '\n',
                forall|t: int| line_start <= t < i ==> s[t] != '\n',
                seen ==> line_start <= w_digit < i && is_digit(s[w_digit]),
                !seen ==> forall|t: int| line_start <= t < i ==> !is_digit(#[trigger] s[t]),
                gap ==> line_start <= w_digit < w_blank < i && is_digit(s[w_digit]) && is_blank(s[w_blank]),
                !gap ==> forall|t1: int, t2: int| line_start <= t1 < t2 < i && is_digit(#[trigger] s[t1]) ==> !is_blank(#[trigger] s[t2]),
            decreases s.len() - i,
        {
            let next = chars.next();
            match next {
                None => {
                    proof {
                        assert(i == s.len());
                        assert(s.subrange(0, i) == s);
                    }
                    return Ok(BitsData { ones, data: bits });
                },
                Some(c) => {
                    assert(c == s[i]);
                    let ghost pre = s.subrange(0, i);
                    let ghost post = s.subrange(0, i + 1);
                    assert(post.drop_last() == pre);
                    if c == '\n' {
                        proof {
                            assert forall|a: int, b: int, k: int|
                                0 <= a < b < k < post.len() && is_digit(#[trigger] post[a]) && is_blank(#[trigger] post[b])
                                    && is_digit(#[trigger] post[k]) implies broken_between(post, a, k) by {
                                assert(k < i);
                                assert(pre[a] == post[a] && pre[b] == post[b] && pre[k] == post[k]);
                                let t = choose|t: int| a < t < k && pre[t] == '\n';
                                assert(post[t] == '\n');
                            }
                            line_start = i + 1;
                        }
                        seen = false;
                        gap = false;
                    } else if blank(c) {
                        proof {
                            assert forall|a: int, b: int, k: int|
                                0 <= a < b < k < post.len() && is_digit(#[trigger] post[a]) && is_blank(#[trigger] post[b])
                                    && is_digit(#[trigger] post[k]) implies broken_between(post, a, k) by {
                                assert(k < i);
                                assert(pre[a] == post[a] && pre[b] == post[b] && pre[k] == post[k]);
                                let t = choose|t: int| a < t < k && pre[t] == '\n';
                                assert(post[t] == '\n');
                            }
                        }
                        if seen {
                            gap = true;
                            proof { w_blank = i; }
                        }
                    } else if c == '0' || c == '1' {
                        if gap {
                            proof {
                                let ghost wd = w_digit;
                                let ghost wb = w_blank;
                                assert(is_digit(s[wd]) && is_blank(s[wb]) && is_digit(s[i]));
                                if text_is_binary(s) {
                                    assert(broken_between(s, wd, i));
                                    let t = choose|t: int| wd < t < i && s[t] == '\n';
                                    assert(false);
                                }
                            }
                            return Err(TestError::InvalidInput);
                        }
                        proof {
                            assert forall|a: int, b: int, k: int|
                                0 <= a < b < k < post.len() && is_digit(#[trigger] post[a]) && is_blank(#[trigger] post[b])
                                    && is_digit(#[trigger] post[k]) implies broken_between(post, a, k) by {
                                assert(pre[a] == post[a] && pre[b] == post[b]);
                                if k < i {
                                    assert(pre[k] == post[k]);
                                    let t = choose|t: int| a < t < k && pre[t] == '\n';
                                    assert(post[t] == '\n');
                                } else {
                                    if a < line_start {
                                        assert(post[line_start - 1] == '\n');
                                    } else {
                                        assert(is_digit(s[a]) && is_blank(s[b]));
                                        assert(false);
                                    }
                                }
                            }
                            crate::counting::lemma_count_ones_push(bits@, c == '1');
                        }
                        bits.push(c == '1');
                        let pushed: usize = bits.len();
                        proof {
                            crate::counting::lemma_count_ones_le(bits@);
                        }
                        if c == '1' {
                            assert(ones + 1 <= pushed);
                            ones = ones + 1;
                        }
                        seen = true;
                        proof { w_digit = i; }
                    } else {
                        proof {
                            assert(!is_digit(s[i]) && !is_blank(s[i]));
                            assert(!text_is_binary(s));
                        }
                        return Err(TestError::InvalidInput);
                    }
                    proof { i = i + 1; }
                },
            }
        }
    }

    /// Number of bits in the sequence.
    pub fn len(&self) -> (r: usize)
        ensures
            r == self@.len(),
    {
        self.data.len()
    }

    /// Whether the sequence holds no bit.
    pub fn is_empty(&self) -> (r: bool)
        ensures
            r == (self@.len() == 0),
    {
        self.data.len() == 0
    }

    /// Number of ones in the sequence.
    pub fn ones(&self) -> (r: usize)
        ensures
            r == count_ones(self@),
    {
        proof {
            use_type_invariant(self);
        }
        self.ones
    }

    /// The bits at positions `start..end`.
    pub fn range(&self, start: usize, end: usize) -> (r: &[bool])
        requires
            start <= end <= self@.len(),
        ensures
            r@ == self@.subrange(start as int, end as int),
    {
        vstd::slice::slice_subrange(self.data.as_slice(), start, end)
    }

    /// The bits of the sequence, first to last.
    pub fn iter(&self) -> (r: std::slice::Iter<'_, bool>)
        ensures
            r.remaining().map_values(|b: &bool| *b) == self@,
    {
        let r = self.data.as_slice().iter();
        proof {
            assert(r.remaining().map_values(|b: &bool| *b) =~= self@);
        }
        r
    }

    /// The bit at position `i`.
    pub fn get(&self, i: usize) -> (r: bool)
        requires
            i < self@.len(),
        ensures
            r == self@[i as int],
    {
        self.data[i]
    }
}

proof fn lemma_byte_ones(b: u8, s: Seq<bool>)
    requires
        s.len() == 8,
        forall|j: int| 0 <= j < 8 ==> s[j] == byte_bit(b, j),
    ensures
        count_ones(s) == popcount(b),
{
    reveal_with_fuel(count_ones, 9);
    assert(byte_bit(b, 0) == ((b >> 7u8) & 1u8 == 1u8));
    assert(byte_bit(b, 7) == ((b >> 0u8) & 1u8 == 1u8));
    assert((b >> 0u8) == b) by (bit_vector);
    assert(forall|k: u8| k < 8 ==> #[trigger] ((b >> k) & 1u8) == 0u8 || ((b >> k) & 1u8) == 1u8) by (bit_vector);
}

} // verus!
