//! How the characters of a text lie in its UTF-8 encoding.
//!
//! The parser walks over the bytes of a `&str`, while its contract speaks of
//! the characters. The lemmas here carry facts from one to the other.

use vstd::prelude::*;
use vstd::utf8::*;

verus! {

/// Number of bytes that the UTF-8 encoding of `c` takes.
pub open spec fn utf8_width(c: char) -> nat {
    encode_scalar(c as u32).len()
}

/// Number of bytes of the character whose encoding starts with `lead`.
pub open spec fn width_of_lead(lead: u8) -> nat {
    if lead < 0x80 {
        1
    } else if lead < 0xE0 {
        2
    } else if lead < 0xF0 {
        3
    } else {
        4
    }
}

/// A character below U+0080 is encoded as the one byte of the same value.
pub proof fn lemma_encode_ascii(c: char)
    requires
        (c as u32) < 0x80,
    ensures
        encode_scalar(c as u32) == seq![c as u8],
        (c as u8) < 0x80,
        (c as u8) as u32 == c as u32,
{
    let v = c as u32;
    assert((v & 0x7F) as u8 == v as u8 && (v as u8) < 0x80 && (v as u8) as u32 == v)
        by (bit_vector)
        requires
            v < 0x80,
    ;
}

/// Every character takes at least one byte.
pub proof fn lemma_encode_len(s: Seq<char>)
    ensures
        encode_utf8(s).len() >= s.len(),
    decreases s.len(),
{
    if s.len() > 0 {
        lemma_encode_len(s.drop_first());
    }
}

/// The encoding of two texts, one after the other, is the encoding of the
/// first and then that of the second.
pub proof fn lemma_encode_concat(first: Seq<char>, second: Seq<char>)
    ensures
        encode_utf8(first + second) == encode_utf8(first) + encode_utf8(second),
    decreases first.len(),
{
    if first.len() == 0 {
        assert(first + second =~= second);
        assert(encode_utf8(first) + encode_utf8(second) =~= encode_utf8(second));
    } else {
        lemma_encode_concat(first.drop_first(), second);
        assert((first + second).drop_first() =~= first.drop_first() + second);
        assert(encode_scalar(first[0] as u32) + (encode_utf8(first.drop_first()) + encode_utf8(
            second,
        )) =~= (encode_scalar(first[0] as u32) + encode_utf8(first.drop_first())) + encode_utf8(
            second,
        ));
    }
}

/// The encoding of a text starts with the encoding of its first character,
/// whose leading byte tells how long it is, and goes on with the encoding of
/// the other characters.
pub proof fn lemma_encode_first(s: Seq<char>)
    requires
        s.len() > 0,
    ensures
        1 <= utf8_width(s[0]) <= 4,
        utf8_width(s[0]) <= encode_utf8(s).len(),
        utf8_width(s[0]) == width_of_lead(encode_utf8(s)[0]),
        encode_utf8(s).take(utf8_width(s[0]) as int) == encode_scalar(s[0] as u32),
        encode_utf8(s).skip(utf8_width(s[0]) as int) == encode_utf8(s.skip(1)),
        encode_utf8(s)[0] < 0x80 <==> (s[0] as u32) < 0x80,
        encode_utf8(s)[0] < 0x80 ==> encode_utf8(s)[0] as u32 == s[0] as u32,
{
    let e = encode_utf8(s);
    let head = encode_scalar(s[0] as u32);
    assert(s.skip(1) =~= s.drop_first());
    assert(e == head + encode_utf8(s.drop_first()));
    assert(e.take(head.len() as int) =~= head);
    assert(e.skip(head.len() as int) =~= encode_utf8(s.drop_first()));
    encode_utf8_first_scalar(s);
    let lead = e[0];
    assert(lead <= 0x7f ==> (lead & 0x7F) as u32 == lead as u32) by (bit_vector);
    if (s[0] as u32) < 0x80 {
        lemma_encode_ascii(s[0]);
    }
}

/// Number of bytes of the character whose encoding starts with `lead`.
pub(crate) fn lead_width(lead: u8) -> (width: usize)
    ensures
        width == width_of_lead(lead),
{
    if lead < 0x80 {
        1
    } else if lead < 0xE0 {
        2
    } else if lead < 0xF0 {
        3
    } else {
        4
    }
}

/// Appends the UTF-8 encoding of the scalar value `v` to `out`.
pub(crate) fn push_scalar(out: &mut Vec<u8>, v: u32)
    requires
        is_scalar(v),
    ensures
        final(out)@ == old(out)@ + encode_scalar(v),
{
    proof {
        assert(((v >> 18) & 0x7) < 0x100 && ((v >> 12) & 0x0F) < 0x100 && ((v >> 12) & 0x3F)
            < 0x100 && ((v >> 6) & 0x1F) < 0x100 && ((v >> 6) & 0x3F) < 0x100 && (v & 0x3F)
            < 0x100 && (v & 0x7F) < 0x100) by (bit_vector);
    }
    if v < 0x80 {
        out.push((v & 0x7F) as u8);
    } else if v < 0x800 {
        out.push(0xC0 | ((v >> 6) & 0x1F) as u8);
        out.push(0x80 | (v & 0x3F) as u8);
    } else if v < 0x10000 {
        out.push(0xE0 | ((v >> 12) & 0x0F) as u8);
        out.push(0x80 | ((v >> 6) & 0x3F) as u8);
        out.push(0x80 | (v & 0x3F) as u8);
    } else {
        out.push(0xF0 | ((v >> 18) & 0x7) as u8);
        out.push(0x80 | ((v >> 12) & 0x3F) as u8);
        out.push(0x80 | ((v >> 6) & 0x3F) as u8);
        out.push(0x80 | (v & 0x3F) as u8);
    }
    assert(out@ =~= old(out)@ + encode_scalar(v));
}

/// Appends the bytes of `bytes` from `from` up to `to` to `out`.
pub(crate) fn push_range(out: &mut Vec<u8>, bytes: &[u8], from: usize, to: usize)
    requires
        from <= to <= bytes.len(),
    ensures
        final(out)@ == old(out)@ + bytes@.subrange(from as int, to as int),
{
    let mut i: usize = from;
    while i < to
        invariant
            from <= i <= to <= bytes.len(),
            out@ == old(out)@ + bytes@.subrange(from as int, i as int),
        decreases to - i,
    {
        out.push(bytes[i]);
        i = i + 1;
    }
}

} // verus!
