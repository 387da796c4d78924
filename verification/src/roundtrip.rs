//! What holds of `escape` and `unescape` together.

use crate::digits::{
    digit_run, digits_value, is_digit, is_hex_digit_byte, lemma_digit_run_is_maximal,
    lemma_digit_run_unique,
};
use crate::error::UnescapeError;
use crate::escape::{
    escape_spec, hex_digit, is_hex_escaped, is_plain, is_printable, lemma_escape_is_printable,
    lemma_escape_marks, lemma_escape_plain, upper_hex,
};
use crate::text::lemma_encode_ascii;
use crate::unescape::{unescape_from, unescape_spec};
use vstd::prelude::*;
use vstd::utf8::*;

verus! {

/// Whether no byte that is written in hexadecimal digits stands directly
/// before a byte that is itself a hexadecimal digit.
///
/// Where one does, the digit is written as itself behind the digits of the
/// escape sequence, and reading the text back takes it for one of them: the
/// bytes 0x07 0x41 are written `\x7A`, which stands for the one byte 0x7A.
pub open spec fn keeps_digits_apart(bytes: Seq<u8>) -> bool {
    forall|i: int|
        #![trigger bytes[i]]
        0 <= i && i + 1 < bytes.len() ==> !(is_hex_escaped(bytes[i]) && is_hex_digit_byte(
            bytes[i + 1],
        ))
}

/// The hexadecimal digits that `upper_hex` writes spell the byte.
pub proof fn lemma_upper_hex_spells(b: u8)
    ensures
        1 <= upper_hex(b).len() <= 2,
        forall|j: int| 0 <= j < upper_hex(b).len() ==> is_digit(#[trigger] upper_hex(b)[j], 16),
        digits_value(upper_hex(b), 16) == b,
{
    let digits = upper_hex(b);
    reveal_with_fuel(digits_value, 3);
    if b < 16 {
        assert(digits.drop_last() =~= Seq::<char>::empty());
    } else {
        assert(digits.drop_last() =~= seq![hex_digit(b as int / 16)]);
        assert(digits.drop_last().drop_last() =~= Seq::<char>::empty());
    }
}

/// A text that `escape_spec` writes starts with a hexadecimal digit only
/// where the bytes do.
pub proof fn lemma_escape_first_char(bytes: Seq<u8>)
    requires
        bytes.len() > 0,
    ensures
        escape_spec(bytes).len() > 0,
        is_digit(escape_spec(bytes)[0], 16) ==> is_hex_digit_byte(bytes[0]),
{
}

/// Digits are kept apart in a sequence exactly where they are behind its
/// first byte and the first byte is not written in hexadecimal digits in
/// front of a digit.
proof fn lemma_keeps_digits_apart_unfolds(bytes: Seq<u8>)
    requires
        bytes.len() > 0,
    ensures
        keeps_digits_apart(bytes) <==> keeps_digits_apart(bytes.skip(1)) && !(bytes.len() > 1
            && is_hex_escaped(bytes[0]) && is_hex_digit_byte(bytes[1])),
{
    let others = bytes.skip(1);
    if keeps_digits_apart(bytes) {
        assert forall|i: int| 0 <= i && i + 1 < others.len() implies !(is_hex_escaped(
            #[trigger] others[i],
        ) && is_hex_digit_byte(others[i + 1])) by {
            assert(others[i] == bytes[i + 1]);
            assert(others[i + 1] == bytes[i + 2]);
        }
    }
    if keeps_digits_apart(others) && !(bytes.len() > 1 && is_hex_escaped(bytes[0])
        && is_hex_digit_byte(bytes[1])) {
        assert forall|i: int| 0 <= i && i + 1 < bytes.len() implies !(is_hex_escaped(
            #[trigger] bytes[i],
        ) && is_hex_digit_byte(bytes[i + 1])) by {
            if i > 0 {
                assert(others[i - 1] == bytes[i]);
                assert(others[i] == bytes[i + 1]);
            }
        }
    }
}

/// Reading back, from any offset, what `escape_spec` wrote gives the bytes.
proof fn lemma_unescape_from_escaped(bytes: Seq<u8>, at: int)
    requires
        keeps_digits_apart(bytes),
    ensures
        unescape_from(escape_spec(bytes), at) == Ok::<Seq<u8>, UnescapeError>(bytes),
    decreases bytes.len(),
{
    let text = escape_spec(bytes);
    if bytes.len() == 0 {
        assert(bytes =~= Seq::<u8>::empty());
    } else {
        let b = bytes[0];
        let others = bytes.skip(1);
        let tail = escape_spec(others);
        lemma_keeps_digits_apart_unfolds(bytes);
        assert(seq![b] + others =~= bytes);
        if is_hex_escaped(b) {
            let digits = upper_hex(b);
            let payload = text.skip(2);
            lemma_upper_hex_spells(b);
            assert(payload =~= digits + tail);
            if others.len() > 0 {
                lemma_escape_first_char(others);
                assert(payload[digits.len() as int] == tail[0]);
                assert(bytes[1] == others[0]);
            }
            lemma_digit_run_unique(payload, 16, payload.len(), digits.len());
            assert(payload.take(digits.len() as int) =~= digits);
            lemma_unescape_from_escaped(others, at + 2 + digits.len());
            assert(text.skip(2 + digits.len() as int) =~= tail);
        } else if is_plain(b) {
            lemma_encode_ascii(b as char);
            lemma_unescape_from_escaped(others, at + 1);
            assert(text.skip(1) =~= tail);
        } else {
            lemma_unescape_from_escaped(others, at + 2);
            assert(text.skip(2) =~= tail);
        }
    }
}

/// Reading back what `escape` wrote gives the bytes again, as long as no
/// byte written in hexadecimal digits stands directly before a byte that is
/// a hexadecimal digit.
pub proof fn lemma_unescape_escape(bytes: Seq<u8>)
    requires
        keeps_digits_apart(bytes),
    ensures
        unescape_spec(escape_spec(bytes)) == Ok::<Seq<u8>, UnescapeError>(bytes),
{
    lemma_unescape_from_escaped(bytes, 0);
}

/// The hexadecimal digits at the front of a text that `escape_spec` wrote
/// are bytes that were written as themselves, and what follows them is what
/// the other bytes were written as.
proof fn lemma_leading_digits(bytes: Seq<u8>)
    ensures
        ({
            let text = escape_spec(bytes);
            let m = digit_run(text, 16, text.len());
            &&& m <= bytes.len()
            &&& text.skip(m as int) == escape_spec(bytes.skip(m as int))
            &&& m == 0 <==> bytes.len() == 0 || !is_hex_digit_byte(bytes[0])
        }),
    decreases bytes.len(),
{
    let text = escape_spec(bytes);
    if bytes.len() == 0 {
        assert(text.skip(0) =~= text);
        assert(bytes.skip(0) =~= bytes);
    } else if is_hex_digit_byte(bytes[0]) {
        let others = bytes.skip(1);
        let tail = escape_spec(others);
        assert(text.skip(1) =~= tail);
        lemma_leading_digits(others);
        let m = digit_run(tail, 16, tail.len());
        lemma_digit_run_is_maximal(tail, 16, tail.len());
        assert(text.skip(1 + m as int) =~= tail.skip(m as int));
        assert(others.skip(m as int) =~= bytes.skip(1 + m as int));
    } else {
        lemma_escape_first_char(bytes);
        assert(text.skip(0) =~= text);
        assert(bytes.skip(0) =~= bytes);
    }
}

/// Reading back what `escape_spec` wrote gives no more bytes than were
/// written, and as many only where the digits were kept apart.
proof fn lemma_read_back_is_no_longer(bytes: Seq<u8>, at: int)
    ensures
        match unescape_from(escape_spec(bytes), at) {
            Ok(back) => back.len() <= bytes.len() && (back.len() == bytes.len()
                ==> keeps_digits_apart(bytes)),
            Err(_) => true,
        },
    decreases bytes.len(),
{
    let text = escape_spec(bytes);
    if bytes.len() > 0 {
        let b = bytes[0];
        let others = bytes.skip(1);
        let tail = escape_spec(others);
        lemma_keeps_digits_apart_unfolds(bytes);
        if is_hex_escaped(b) {
            // The escape sequence takes its own digits and those that the
            // text behind it starts with.
            let digits = upper_hex(b);
            let payload = text.skip(2);
            let m = digit_run(tail, 16, tail.len());
            let n = digits.len() + m;
            lemma_upper_hex_spells(b);
            lemma_leading_digits(others);
            lemma_digit_run_is_maximal(tail, 16, tail.len());
            assert(payload =~= digits + tail);
            assert forall|j: int| 0 <= j < n implies is_digit(#[trigger] payload[j], 16) by {
                if j >= digits.len() {
                    assert(payload[j] == tail[j - digits.len()]);
                }
            }
            if n < payload.len() {
                assert(payload[n as int] == tail[m as int]);
            }
            lemma_digit_run_unique(payload, 16, payload.len(), n);
            assert(text.skip(2 + n as int) =~= tail.skip(m as int));
            lemma_read_back_is_no_longer(others.skip(m as int), at + 2 + n);
            if m == 0 {
                assert(others.skip(0) =~= others);
                if others.len() > 0 {
                    assert(others[0] == bytes[1]);
                }
            }
        } else {
            let width: int = if is_plain(b) {
                1
            } else {
                2
            };
            if is_plain(b) {
                lemma_encode_ascii(b as char);
            }
            assert(text.skip(width) =~= tail);
            lemma_read_back_is_no_longer(others, at + width);
        }
    }
}

/// A single byte always comes back.
pub proof fn lemma_single_byte_round_trips(b: u8)
    ensures
        unescape_spec(escape_spec(seq![b])) == Ok::<Seq<u8>, UnescapeError>(seq![b]),
{
    lemma_unescape_escape(seq![b]);
}

/// Reading back what `escape` wrote gives the bytes again exactly where no
/// byte written in hexadecimal digits stands directly before a byte that is
/// a hexadecimal digit.
pub proof fn lemma_round_trip_exactly(bytes: Seq<u8>)
    ensures
        unescape_spec(escape_spec(bytes)) == Ok::<Seq<u8>, UnescapeError>(bytes)
            <==> keeps_digits_apart(bytes),
{
    if keeps_digits_apart(bytes) {
        lemma_unescape_escape(bytes);
    } else {
        lemma_read_back_is_no_longer(bytes, 0);
    }
}

/// The bytes of a text that `escape_spec` wrote are its characters, one
/// printable byte each.
pub proof fn lemma_escaped_bytes(bytes: Seq<u8>)
    ensures
        encode_utf8(escape_spec(bytes)).len() == escape_spec(bytes).len(),
        forall|j: int|
            0 <= j < escape_spec(bytes).len() ==> #[trigger] encode_utf8(escape_spec(bytes))[j]
                == escape_spec(bytes)[j] as u8 && is_printable(encode_utf8(escape_spec(bytes))[j])
                && (encode_utf8(escape_spec(bytes))[j] == 0x5c <==> escape_spec(bytes)[j]
                == '\\'),
{
    let text = escape_spec(bytes);
    lemma_escape_is_printable(bytes);
    assert(is_ascii_chars(text)) by {
        assert forall|j: int| 0 <= j < text.len() implies '\0' <= #[trigger] text[j]
            <= '\u{7f}' by {}
    }
    is_ascii_chars_encode_utf8(text);
    assert forall|j: int| 0 <= j < text.len() implies #[trigger] encode_utf8(text)[j]
        == text[j] as u8 && is_printable(encode_utf8(text)[j]) && (encode_utf8(text)[j] == 0x5c
        <==> text[j] == '\\') by {
        let c = text[j];
        assert(' ' <= c <= '~');
        let v = c as u32;
        assert(v as u8 == v) by (bit_vector)
            requires
                v < 0x80,
        ;
    }
}

/// Escaping the text that `escape` wrote gives that text again exactly where
/// every byte was written as itself: `escape` is not idempotent.
pub proof fn lemma_escape_twice(bytes: Seq<u8>)
    ensures
        escape_spec(encode_utf8(escape_spec(bytes))) == escape_spec(bytes) <==> forall|i: int|
            0 <= i < bytes.len() ==> is_plain(#[trigger] bytes[i]),
{
    let text = escape_spec(bytes);
    let written = encode_utf8(text);
    lemma_escaped_bytes(bytes);
    if forall|i: int| 0 <= i < bytes.len() ==> is_plain(#[trigger] bytes[i]) {
        lemma_escape_plain(bytes);
        assert(written =~= bytes);
    } else {
        let i = choose|i: int| 0 <= i < bytes.len() && !is_plain(#[trigger] bytes[i]);
        let j = lemma_escape_marks(bytes, i);
        assert(written[j] == 0x5c);
        lemma_escape_marks(written, j);
    }
}

/// Reading back the escaped form of a text that `escape` wrote gives the
/// bytes of that text, whatever the bytes behind it were.
pub proof fn lemma_escaped_text_round_trips(bytes: Seq<u8>)
    ensures
        unescape_spec(escape_spec(encode_utf8(escape_spec(bytes)))) == Ok::<
            Seq<u8>,
            UnescapeError,
        >(encode_utf8(escape_spec(bytes))),
{
    lemma_escaped_bytes(bytes);
    lemma_unescape_escape(encode_utf8(escape_spec(bytes)));
}

} // verus!
