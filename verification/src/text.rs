//! Byte classes of the surface syntax and facts about UTF-8 boundaries.

use vstd::prelude::*;
use vstd::string::*;
use vstd::utf8::*;

verus! {

/// The five bytes that separate tokens without being one: tab, line feed,
/// form feed, carriage return and space.
pub open spec fn is_space(b: u8) -> bool {
    b == 9 || b == 10 || b == 12 || b == 13 || b == 32
}

/// A byte that ends a literal: whitespace or a parenthesis.
pub open spec fn is_delim(b: u8) -> bool {
    is_space(b) || b == 40 || b == 41
}

/// Executable test for [`is_space`].
pub fn byte_is_space(b: u8) -> (r: bool)
    ensures
        r == is_space(b),
{
    b == 9 || b == 10 || b == 12 || b == 13 || b == 32
}

/// Executable test for [`is_delim`].
pub fn byte_is_delim(b: u8) -> (r: bool)
    ensures
        r == is_delim(b),
{
    byte_is_space(b) || b == 40 || b == 41
}

/// In valid UTF-8 the position right after a one-byte character starts a
/// character or ends the text.
pub proof fn lemma_boundary_after_ascii(b: Seq<u8>, p: int)
    requires
        valid_utf8(b),
        0 <= p < b.len(),
        b[p] <= 0x7f,
    ensures
        is_char_boundary(b, p + 1),
{
    is_char_boundary_iff_not_is_continuation_byte(b, p);
    if p + 1 == b.len() {
        is_char_boundary_start_end_of_seq(b);
    } else {
        valid_utf8_split(b, p);
        let suffix = b.subrange(p, b.len() as int);
        assert(suffix[0] == b[p]);
        assert(valid_utf8(suffix));
        assert(length_of_first_scalar(suffix) == 1);
        assert(valid_utf8(pop_first_scalar(suffix)));
        assert(is_char_boundary(suffix, 1)) by {
            reveal_with_fuel(is_char_boundary, 2);
        }
        is_char_boundary_iff_not_is_continuation_byte(suffix, 1);
        assert(suffix[1] == b[p + 1]);
        is_char_boundary_iff_not_is_continuation_byte(b, p + 1);
    }
}

/// A sequence of one-byte characters is valid UTF-8.
pub proof fn lemma_ascii_is_utf8(s: Seq<u8>)
    requires
        forall|i: int| 0 <= i < s.len() ==> #[trigger] s[i] <= 0x7f,
    ensures
        valid_utf8(s),
{
    assert(s.subrange(0, 0) =~= Seq::<u8>::empty());
    assert(partial_valid_utf8(s, 0));
    assert forall|i: int| 0 <= i < s.len() implies #[trigger] is_leading_byte_width_1(s[i]) by {
        assert(s[i] <= 0x7f);
    }
    partial_valid_utf8_extend_ascii_block(s, 0, s.len() as int);
    assert(s.subrange(0, s.len() as int) =~= s);
}

/// Appends every byte of `src` to `out`.
pub fn push_all(out: &mut Vec<u8>, src: &[u8])
    ensures
        final(out)@ == old(out)@ + src@,
{
    let n: usize = src.len();
    let mut i: usize = 0;
    while i < n
        invariant
            n == src@.len(),
            i <= n,
            out@ == old(out)@ + src@.subrange(0, i as int),
        decreases n - i,
    {
        out.push(src[i]);
        i += 1;
        assert(out@ =~= old(out)@ + src@.subrange(0, i as int));
    }
    assert(src@.subrange(0, n as int) =~= src@);
}

/// Appends one one-byte character to valid UTF-8.
pub fn push_ascii(out: &mut Vec<u8>, b: u8)
    requires
        b <= 0x7f,
        valid_utf8(old(out)@),
    ensures
        final(out)@ == old(out)@ + seq![b],
        valid_utf8(final(out)@),
{
    proof {
        lemma_ascii_is_utf8(seq![b]);
        valid_utf8_concat(out@, seq![b]);
    }
    out.push(b);
    assert(out@ =~= old(out)@ + seq![b]);
}

/// Appends the bytes of a string to valid UTF-8.
pub fn push_str(out: &mut Vec<u8>, s: &str)
    requires
        valid_utf8(old(out)@),
    ensures
        final(out)@ == old(out)@ + s.spec_bytes(),
        valid_utf8(final(out)@),
{
    proof {
        encode_utf8_valid_utf8(s@);
        valid_utf8_concat(out@, s.spec_bytes());
    }
    push_all(out, s.as_bytes());
}

/// `String::from_utf8` on bytes known to be valid UTF-8: the string that
/// comes back encodes to exactly the bytes handed in. The standard library
/// fails only on invalid UTF-8, which the precondition leaves out.
#[verifier::external_body]
pub(crate) fn string_from_utf8(bytes: Vec<u8>) -> (r: String)
    requires
        valid_utf8(bytes@),
    ensures
        encode_utf8(r@) == bytes@,
{
    String::from_utf8(bytes).unwrap()
}

} // verus!
