//! Decimal text of signed 64-bit integers, as it appears on the wire.

use vstd::prelude::*;

verus! {

/// Whether `b` is an ASCII decimal digit.
pub open spec fn is_digit(b: u8) -> bool {
    48 <= b <= 57
}

/// Whether every byte of `s` is a decimal digit.
pub open spec fn all_digits(s: Seq<u8>) -> bool {
    forall|i: int| 0 <= i < s.len() ==> is_digit(#[trigger] s[i])
}

/// The number that a sequence of decimal digits denotes, most significant first.
pub open spec fn digits_value(s: Seq<u8>) -> nat
    decreases s.len(),
{
    if s.len() == 0 {
        0
    } else {
        (digits_value(s.drop_last()) * 10 + (s.last() - 48)) as nat
    }
}

/// Whether `s` starts with a minus sign.
pub open spec fn has_minus(s: Seq<u8>) -> bool {
    s.len() > 0 && s[0] == 45
}

/// The digits of a decimal text: everything after the optional minus sign.
pub open spec fn magnitude_digits(s: Seq<u8>) -> Seq<u8> {
    if has_minus(s) {
        s.subrange(1, s.len() as int)
    } else {
        s
    }
}

/// Well-formed decimal text: an optional minus sign, then one or more digits
/// and nothing else.
pub open spec fn is_decimal_text(s: Seq<u8>) -> bool {
    magnitude_digits(s).len() >= 1 && all_digits(magnitude_digits(s))
}

/// The integer that a decimal text denotes.
pub open spec fn decimal_value(s: Seq<u8>) -> int {
    if has_minus(s) {
        -(digits_value(magnitude_digits(s)) as int)
    } else {
        digits_value(magnitude_digits(s)) as int
    }
}

/// What reading `s` as a signed 64-bit decimal gives: the value, for
/// well-formed text whose value fits; nothing otherwise.
pub open spec fn spec_parse_decimal(s: Seq<u8>) -> Option<i64> {
    if is_decimal_text(s) && i64::MIN <= decimal_value(s) <= i64::MAX {
        Some(decimal_value(s) as i64)
    } else {
        None
    }
}

/// The decimal digits of a natural number, without leading zeros.
pub open spec fn nat_digits(n: nat) -> Seq<u8>
    decreases n,
{
    if n < 10 {
        seq![(48 + n) as u8]
    } else {
        nat_digits(n / 10).push((48 + n % 10) as u8)
    }
}

/// The decimal text of an integer: a minus sign for negative numbers, then the
/// digits of the magnitude.
pub open spec fn decimal_text(n: int) -> Seq<u8> {
    if n < 0 {
        seq![45u8] + nat_digits((-n) as nat)
    } else {
        nat_digits(n as nat)
    }
}

/// The digits of a number are digits, at least one of them, and denote it.
pub proof fn lemma_nat_digits(n: nat)
    ensures
        nat_digits(n).len() >= 1,
        all_digits(nat_digits(n)),
        digits_value(nat_digits(n)) == n,
    decreases n,
{
    if n < 10 {
        let s = nat_digits(n);
        assert(s.drop_last() =~= Seq::<u8>::empty());
        assert(digits_value(s.drop_last()) == 0);
    } else {
        lemma_nat_digits(n / 10);
        let s = nat_digits(n);
        assert(s.drop_last() =~= nat_digits(n / 10));
    }
}

/// Reading back the decimal text of an integer gives that integer.
pub proof fn lemma_decimal_text_value(n: int)
    ensures
        is_decimal_text(decimal_text(n)),
        decimal_value(decimal_text(n)) == n,
{
    if n < 0 {
        lemma_nat_digits((-n) as nat);
        let s = decimal_text(n);
        assert(s[0] == 45);
        assert(magnitude_digits(s) =~= nat_digits((-n) as nat));
    } else {
        lemma_nat_digits(n as nat);
        let s = decimal_text(n);
        assert(is_digit(s[0]));
        assert(magnitude_digits(s) =~= s);
    }
}

/// `atoi::atoi::<i64>`. On well-formed decimal text (an optional minus sign
/// followed only by digits, at least one) it yields the denoted value when
/// that fits in 64 bits, and nothing when it overflows.
#[verifier::external_body]
pub(crate) fn atoi_i64(text: &[u8]) -> (r: Option<i64>)
    requires
        is_decimal_text(text@),
    ensures
        r == spec_parse_decimal(text@),
{
    atoi::atoi::<i64>(text)
}

/// Reads a whole byte string as a signed 64-bit decimal number.
///
/// Text with anything but an optional leading minus and digits is refused here,
/// before the conversion, which would otherwise stop at the first stray byte.
pub fn parse_decimal(text: &[u8]) -> (r: Option<i64>)
    ensures
        r == spec_parse_decimal(text@),
{
    let start: usize = if text.len() > 0 && text[0] == 45 { 1 } else { 0 };
    if text.len() <= start {
        return None;
    }
    let mut i: usize = start;
    while i < text.len()
        invariant
            start <= i <= text@.len(),
            start == (if has_minus(text@) { 1usize } else { 0usize }),
            forall|j: int| start <= j < i ==> is_digit(#[trigger] text@[j]),
        decreases text@.len() - i,
    {
        if text[i] < 48 || text[i] > 57 {
            assert(magnitude_digits(text@)[i - start] == text@[i as int]);
            return None;
        }
        i += 1;
    }
    assert forall|j: int| 0 <= j < magnitude_digits(text@).len() implies is_digit(
        #[trigger] magnitude_digits(text@)[j],
    ) by {
        assert(magnitude_digits(text@)[j] == text@[j + start]);
    }
    atoi_i64(text)
}

/// Appends the decimal digits of `n` to `out`.
pub fn push_digits(n: u64, out: &mut Vec<u8>)
    ensures
        final(out)@ == old(out)@ + nat_digits(n as nat),
    decreases n,
{
    if n >= 10 {
        push_digits(n / 10, out);
    }
    let d: u8 = (n % 10) as u8;
    out.push(48 + d);
    assert(out@ =~= old(out)@ + nat_digits(n as nat));
}

/// Appends the decimal text of `n` to `out`.
pub fn push_decimal(n: i64, out: &mut Vec<u8>)
    ensures
        final(out)@ == old(out)@ + decimal_text(n as int),
{
    if n < 0 {
        out.push(45);
        let magnitude: u64 = (-(n as i128)) as u64;
        push_digits(magnitude, out);
        assert(out@ =~= old(out)@ + decimal_text(n as int));
    } else {
        push_digits(n as u64, out);
    }
}

} // verus!
