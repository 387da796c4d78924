//! Where the errors of `unescape` point.

use crate::digits::{digit_run, is_digit, is_hex_digit_byte, lemma_digit_run_is_maximal};
use crate::error::UnescapeError;
use crate::text::{lemma_encode_concat, lemma_encode_first, lemma_encode_len};
use crate::unescape::{escape_at, unescape_from, unescape_spec};
use vstd::prelude::*;
use vstd::utf8::*;

verus! {

/// Whether the error points into `bytes` as it should.
///
/// An unmatched escape is a backslash at the very end. A fault in a
/// universal character name is found at the end of the text, which cuts the
/// name short, or before a byte that is no hexadecimal digit. Every other
/// offset is that of the backslash of the malformed escape sequence.
pub open spec fn points_into(e: UnescapeError, bytes: Seq<u8>) -> bool {
    match e {
        UnescapeError::UnmatchEscape => bytes.len() > 0 && bytes.last() == 0x5c,
        UnescapeError::UnivCharError(at) => at == bytes.len() || (at < bytes.len()
            && !is_hex_digit_byte(bytes[at as int])),
        UnescapeError::NotEscapeSequence(at)
        | UnescapeError::UnicodeError(at)
        | UnescapeError::Overflow(at) => at < bytes.len() && bytes[at as int] == 0x5c,
    }
}

/// The characters of a well-formed escape sequence are ASCII characters, so
/// that it takes as many bytes as it has characters.
proof fn lemma_escape_is_ascii(rest: Seq<char>, at: int)
    requires
        rest.len() > 0,
        rest[0] == '\\',
    ensures
        match escape_at(rest, at) {
            Ok((_, n)) => 2 <= n <= rest.len() && encode_utf8(rest.take(n as int)).len() == n,
            Err(_) => true,
        },
{
    if let Ok((_, n)) = escape_at(rest, at) {
        let payload = rest.skip(2);
        let taken = rest.take(n as int);
        lemma_digit_run_is_maximal(payload, 16, payload.len());
        lemma_digit_run_is_maximal(payload, 16, 4);
        lemma_digit_run_is_maximal(payload, 16, 8);
        lemma_digit_run_is_maximal(rest.skip(1), 8, 3);
        assert forall|j: int| 0 <= j < taken.len() implies '\0' <= #[trigger] taken[j]
            <= '\u{7f}' by {
            if j >= 2 {
                assert(taken[j] == payload[j - 2]);
                assert(taken[j] == rest.skip(1)[j - 1]);
                assert(is_digit(taken[j], 16) || is_digit(taken[j], 8));
            }
        }
        is_ascii_chars_encode_utf8(taken);
    }
}

/// Behind the hexadecimal digits that a universal character name has, where
/// it has too few, the text ends or a byte stands that is no hexadecimal
/// digit.
proof fn lemma_fault_in_name(rest: Seq<char>, width: nat)
    requires
        rest.len() >= 2,
        rest[0] == '\\',
        rest[1] == 'u' || rest[1] == 'U',
        digit_run(rest.skip(2), 16, width) < width,
    ensures
        ({
            let at = 2 + digit_run(rest.skip(2), 16, width) as int;
            at == encode_utf8(rest).len() || (at < encode_utf8(rest).len() && !is_hex_digit_byte(
                encode_utf8(rest)[at],
            ))
        }),
{
    let payload = rest.skip(2);
    let n = digit_run(payload, 16, width) as int;
    let seen = rest.take(2 + n);
    let coming = rest.skip(2 + n);
    lemma_digit_run_is_maximal(payload, 16, width);
    assert forall|j: int| 0 <= j < seen.len() implies '\0' <= #[trigger] seen[j] <= '\u{7f}' by {
        if j >= 2 {
            assert(seen[j] == payload[j - 2]);
        }
    }
    is_ascii_chars_encode_utf8(seen);
    assert(seen + coming =~= rest);
    lemma_encode_concat(seen, coming);
    lemma_encode_len(coming);
    if coming.len() > 0 {
        lemma_encode_first(coming);
        let lead = encode_utf8(coming)[0];
        assert(coming[0] == payload[n]);
        assert(encode_utf8(rest)[2 + n] == lead);
        if lead < 0x80 {
            char_u32_cast(coming[0], lead as u32);
        }
    }
}

/// An error of a text that ends in `rest`, which starts at byte offset `at`
/// behind `before`, points into the encoding of the whole text.
proof fn lemma_error_points_into(before: Seq<char>, rest: Seq<char>, at: int)
    requires
        at == encode_utf8(before).len(),
        encode_utf8(before + rest).len() <= usize::MAX,
    ensures
        match unescape_from(rest, at) {
            Ok(_) => true,
            Err(e) => points_into(e, encode_utf8(before + rest)),
        },
    decreases rest.len(),
{
    let text = before + rest;
    let bytes = encode_utf8(text);
    lemma_encode_concat(before, rest);
    lemma_encode_len(rest);
    if rest.len() > 0 {
        lemma_encode_first(rest);
        assert(bytes[at] == encode_utf8(rest)[0]);
        if rest[0] != '\\' {
            let own = encode_scalar(rest[0] as u32);
            let seen = before + rest.take(1);
            lemma_encode_concat(before, rest.take(1));
            assert(encode_utf8(rest.take(1)) =~= own) by {
                assert(rest.take(1).drop_first() =~= Seq::<char>::empty());
                assert(encode_utf8(Seq::<char>::empty()) =~= Seq::<u8>::empty());
                assert(rest.take(1)[0] == rest[0]);
            }
            assert(seen + rest.skip(1) =~= text);
            lemma_error_points_into(seen, rest.skip(1), at + own.len());
        } else {
            lemma_escape_is_ascii(rest, at);
            match escape_at(rest, at) {
                Ok((_, n)) => {
                    let seen = before + rest.take(n as int);
                    lemma_encode_concat(before, rest.take(n as int));
                    assert(seen + rest.skip(n as int) =~= text);
                    lemma_error_points_into(seen, rest.skip(n as int), at + n);
                },
                Err(e) => {
                    if rest.len() < 2 {
                        assert(bytes.last() == encode_utf8(rest)[0]);
                    } else if e is UnivCharError {
                        let width: nat = if rest[1] == 'u' {
                            4
                        } else {
                            8
                        };
                        let n = digit_run(rest.skip(2), 16, width) as int;
                        lemma_fault_in_name(rest, width);
                        lemma_digit_run_is_maximal(rest.skip(2), 16, width);
                        if 2 + n < encode_utf8(rest).len() {
                            assert(bytes[at + 2 + n] == encode_utf8(rest)[2 + n]);
                        }
                    }
                },
            }
        }
    }
}

/// Every error of `unescape` points into the text: at the backslash of the
/// malformed escape sequence or, in a universal character name, at the
/// character that does not belong there or at the end of the text.
pub proof fn lemma_error_offset(text: Seq<char>)
    requires
        encode_utf8(text).len() <= usize::MAX,
    ensures
        match unescape_spec(text) {
            Ok(_) => true,
            Err(e) => points_into(e, encode_utf8(text)),
        },
{
    assert(Seq::<char>::empty() + text =~= text);
    lemma_error_points_into(Seq::empty(), text, 0);
}

} // verus!
