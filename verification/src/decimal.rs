//! The decimal text of an integer.

use vstd::prelude::*;

verus! {

/// The ASCII digit that stands for `d`.
pub open spec fn digit_byte(d: nat) -> u8
    recommends
        d < 10,
{
    (0x30 + d) as u8
}

/// The digits of `n` in base ten, most significant first, without leading
/// zeros; zero is the single digit `0`.
pub open spec fn digits_text(n: nat) -> Seq<u8>
    decreases n,
{
    if n < 10 {
        seq![digit_byte(n)]
    } else {
        digits_text(n / 10).push(digit_byte(n % 10))
    }
}

/// The canonical decimal text of `n`: its digits, after a minus sign where
/// `n` is negative.
pub open spec fn decimal_text(n: int) -> Seq<u8> {
    if n < 0 {
        seq![0x2du8] + digits_text((-n) as nat)
    } else {
        digits_text(n as nat)
    }
}

/// Appends the digits of `n` to `buf`.
pub fn push_digits(buf: &mut Vec<u8>, n: u64)
    ensures
        final(buf)@ == old(buf)@ + digits_text(n as nat),
    decreases n,
{
    if n >= 10 {
        push_digits(buf, n / 10);
    }
    let d: u8 = (n % 10) as u8;
    buf.push(0x30 + d);
}

/// The decimal text of `n`.
pub fn format_integer(n: i64) -> (text: Vec<u8>)
    ensures
        text@ == decimal_text(n as int),
{
    let mut text: Vec<u8> = Vec::new();
    if n < 0 {
        text.push(0x2d);
        // `-(n + 1) + 1` is the magnitude of `n`, also where `-n` has no `i64`.
        let magnitude: u64 = (-(n + 1)) as u64 + 1;
        push_digits(&mut text, magnitude);
    } else {
        push_digits(&mut text, n as u64);
    }
    text
}

/// The decimal text is never empty, and holds nothing but digits after its
/// sign.
pub proof fn lemma_digits_are_digits(n: nat)
    ensures
        digits_text(n).len() > 0,
        forall|i: int| 0 <= i < digits_text(n).len() ==> 0x30 <= #[trigger] digits_text(n)[i] <= 0x39,
    decreases n,
{
    if n >= 10 {
        lemma_digits_are_digits(n / 10);
    }
}

/// The number that the digits `text` stand for.
pub open spec fn digits_value(text: Seq<u8>) -> nat
    decreases text.len(),
{
    if text.len() == 0 {
        0
    } else {
        digits_value(text.drop_last()) * 10 + (text.last() - 0x30) as nat
    }
}

/// The digits of `n` stand for `n`.
pub proof fn law_digits_value(n: nat)
    ensures
        digits_value(digits_text(n)) == n,
    decreases n,
{
    if n < 10 {
        assert(seq![digit_byte(n)].drop_last() == Seq::<u8>::empty());
        assert(digits_value(seq![digit_byte(n)].drop_last()) == 0);
    } else {
        law_digits_value(n / 10);
        assert(digits_text(n).drop_last() == digits_text(n / 10));
    }
}

/// The digits of a number other than zero do not begin with a zero.
pub proof fn law_no_leading_zero(n: nat)
    requires
        n > 0,
    ensures
        digits_text(n)[0] != 0x30,
    decreases n,
{
    if n >= 10 {
        law_no_leading_zero(n / 10);
        lemma_digits_are_digits(n / 10);
    }
}

} // verus!
