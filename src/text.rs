//! The textual form of a bit sequence: lines of `0` and `1`.
use vstd::prelude::*;

verus! {

/// The characters of Unicode's White_Space property, those that trimming removes.
pub open spec fn is_blank(c: char) -> bool {
    ('\u{9}' <= c && c <= '\u{d}') || c == ' ' || c == '\u{85}' || c == '\u{a0}'
        || c == '\u{1680}' || ('\u{2000}' <= c && c <= '\u{200a}') || c == '\u{2028}'
        || c == '\u{2029}' || c == '\u{202f}' || c == '\u{205f}' || c == '\u{3000}'
}

/// A binary digit.
pub open spec fn is_digit(c: char) -> bool {
    c == '0' || c == '1'
}

/// Some line break lies strictly between positions `i` and `k`.
pub open spec fn broken_between(s: Seq<char>, i: int, k: int) -> bool {
    exists|t: int| i < t < k && s[t] == '\n'
}

/// Each line of `s`, once trimmed of blanks at both ends, holds only `0` and `1`:
/// every character is a digit or a blank, and no blank stands between two
/// digits of the same line.
pub open spec fn text_is_binary(s: Seq<char>) -> bool {
    &&& forall|i: int| 0 <= i < s.len() ==> is_digit(#[trigger] s[i]) || is_blank(s[i])
    &&& forall|i: int, j: int, k: int|
        0 <= i < j < k < s.len() && is_digit(#[trigger] s[i]) && is_blank(#[trigger] s[j])
            && is_digit(#[trigger] s[k]) ==> broken_between(s, i, k)
}

/// The bits that the digits of `s` spell, in order.
pub open spec fn text_bits(s: Seq<char>) -> Seq<bool>
    decreases s.len(),
{
    if s.len() == 0 {
        Seq::empty()
    } else if is_digit(s.last()) {
        text_bits(s.drop_last()).push(s.last() == '1')
    } else {
        text_bits(s.drop_last())
    }
}

/// Relies on char::is_whitespace: true exactly on the White_Space characters.
#[verifier::external_body]
pub(crate) fn blank(c: char) -> (r: bool)
    ensures
        r == is_blank(c),
{
    c.is_whitespace()
}

} // verus!
