//! Signed 64-bit integers as decimal text, both ways.

use vstd::prelude::*;
use vstd::string::*;
use vstd::utf8::*;
use crate::text::lemma_ascii_is_utf8;

verus! {

/// An ASCII decimal digit.
pub open spec fn is_digit(b: u8) -> bool {
    48 <= b <= 57
}

/// The number that a run of decimal digits denotes; the empty run denotes 0.
pub open spec fn digits_value(d: Seq<u8>) -> int
    decreases d.len(),
{
    if d.len() == 0 {
        0
    } else {
        digits_value(d.drop_last()) * 10 + (d.last() - 48)
    }
}

/// The value of a sign flag and a run of digits: the digits' number, negated
/// under the flag, where there is at least one digit, nothing but digits,
/// and the value fits 64 bits; otherwise none.
pub open spec fn signed_digits_value(negative: bool, digits: Seq<u8>) -> Option<i64> {
    let magnitude = digits_value(digits);
    let value = if negative {
        -magnitude
    } else {
        magnitude
    };
    if digits.len() > 0 && (forall|i: int| 0 <= i < digits.len() ==> is_digit(#[trigger] digits[i]))
        && i64::MIN <= value <= i64::MAX {
        Some(value as i64)
    } else {
        None
    }
}

/// What a literal denotes as a signed 64-bit integer: an optional `-`, then
/// one or more decimal digits and nothing else, with a value in range.
/// Anything else denotes no integer: a leading `+`, a lone sign, an
/// out-of-range value.
pub open spec fn int_literal_value(b: Seq<u8>) -> Option<i64> {
    if b.len() > 0 && b[0] == 45 {
        signed_digits_value(true, b.subrange(1, b.len() as int))
    } else {
        signed_digits_value(false, b)
    }
}

/// What the standard library's parser makes of a string: as
/// [`int_literal_value`], but a leading `+` is taken as a sign too.
pub open spec fn std_int_value(b: Seq<u8>) -> Option<i64> {
    if b.len() > 0 && b[0] == 43 {
        signed_digits_value(false, b.subrange(1, b.len() as int))
    } else {
        int_literal_value(b)
    }
}

/// `str::parse::<i64>` with the error dropped. The standard library reads
/// an optional sign, `+` or `-`, and then decimal digits only, and fails on
/// an empty string, a lone sign, any other character, and a value outside
/// `i64`.
#[verifier::external_body]
pub(crate) fn parse_i64(lit: &str) -> (r: Option<i64>)
    ensures
        r == std_int_value(lit.spec_bytes()),
{
    lit.parse::<i64>().ok()
}

/// Reads a literal as an integer. A literal that starts with `+` is none,
/// whatever follows; any other goes to the standard library's parser.
pub fn read_int(lit: &str) -> (r: Option<i64>)
    ensures
        r == int_literal_value(lit.spec_bytes()),
{
    let bytes = lit.as_bytes();
    if bytes.len() > 0 && bytes[0] == 43 {
        assert(!is_digit(lit.spec_bytes()[0]));
        None
    } else {
        parse_i64(lit)
    }
}

/// The decimal digits of a natural number, most significant first, without
/// leading zeros.
pub open spec fn decimal_digits(n: nat) -> Seq<u8>
    decreases n,
{
    if n < 10 {
        seq![(48 + n) as u8]
    } else {
        decimal_digits(n / 10).push((48 + n % 10) as u8)
    }
}

/// The decimal text of an integer: a minus sign for a negative one, then
/// the digits of its magnitude.
pub open spec fn decimal_text(v: int) -> Seq<u8> {
    if v < 0 {
        seq![45u8] + decimal_digits((-v) as nat)
    } else {
        decimal_digits(v as nat)
    }
}

/// Every byte of a number's decimal digits is a digit.
pub proof fn lemma_decimal_digits_are_digits(n: nat)
    ensures
        decimal_digits(n).len() > 0,
        forall|i: int| 0 <= i < decimal_digits(n).len() ==> is_digit(#[trigger] decimal_digits(n)[i]),
    decreases n,
{
    if n >= 10 {
        lemma_decimal_digits_are_digits(n / 10);
    }
}

/// Every byte of an integer's decimal text is a one-byte character.
pub proof fn lemma_decimal_text_is_ascii(v: int)
    ensures
        decimal_text(v).len() > 0,
        forall|i: int| 0 <= i < decimal_text(v).len() ==> #[trigger] decimal_text(v)[i] <= 0x7f,
{
    if v < 0 {
        lemma_decimal_digits_are_digits((-v) as nat);
    } else {
        lemma_decimal_digits_are_digits(v as nat);
    }
}

/// Appends the decimal digits of `n` to `out`.
pub fn push_decimal(out: &mut Vec<u8>, n: u64)
    ensures
        final(out)@ == old(out)@ + decimal_digits(n as nat),
    decreases n,
{
    if n >= 10 {
        push_decimal(out, n / 10);
    }
    let d: u8 = (n % 10) as u8;
    out.push(48 + d);
    assert(out@ =~= old(out)@ + decimal_digits(n as nat));
}

/// Appends the decimal text of `v` to `out`, which stays valid UTF-8 if it
/// was.
pub fn push_int(out: &mut Vec<u8>, v: i64)
    ensures
        final(out)@ == old(out)@ + decimal_text(v as int),
        valid_utf8(old(out)@) ==> valid_utf8(final(out)@),
{
    proof {
        lemma_decimal_text_is_ascii(v as int);
        lemma_ascii_is_utf8(decimal_text(v as int));
        if valid_utf8(out@) {
            valid_utf8_concat(out@, decimal_text(v as int));
        }
    }
    if v < 0 {
        out.push(45);
        let m: u64 = ((-(v + 1)) as u64) + 1;
        push_decimal(out, m);
        assert(out@ =~= old(out)@ + decimal_text(v as int));
    } else {
        push_decimal(out, v as u64);
    }
}

} // verus!
