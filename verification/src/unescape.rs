//! From escaped text back to the bytes it stands for.

use crate::ascii::{
    BACKSLASH, DIGIT_0, DIGIT_7, DOUBLE_QUOTE, LOWER_A, LOWER_B, LOWER_F, LOWER_N, LOWER_R,
    LOWER_T, LOWER_U, LOWER_V, LOWER_X, QUESTION_MARK, QUOTE, UPPER_U,
};
use crate::digits::{
    digit_run, digits_value, is_digit, lemma_digit_run_is_maximal, lemma_digit_run_unique,
    scan_number,
};
use crate::error::UnescapeError;
use crate::text::{lead_width, lemma_encode_first, lemma_encode_len, push_range, push_scalar};
use vstd::prelude::*;
use vstd::utf8::*;

verus! {

/// The byte that a backslash and `kind` stand for, where `kind` alone makes
/// the escape sequence.
pub open spec fn simple_escape(kind: char) -> Option<u8> {
    match kind {
        '\'' => Some(0x27u8),
        '"' => Some(0x22u8),
        '?' => Some(0x3fu8),
        '\\' => Some(0x5cu8),
        'a' => Some(0x07u8),
        'b' => Some(0x08u8),
        'f' => Some(0x0cu8),
        'n' => Some(0x0au8),
        'r' => Some(0x0du8),
        't' => Some(0x09u8),
        'v' => Some(0x0bu8),
        _ => None,
    }
}

/// Whether `v` is a Unicode scalar value: a code point that is no surrogate.
pub open spec fn is_scalar_value(v: nat) -> bool {
    v <= 0x10FFFF && !(0xD800 <= v <= 0xDFFF)
}

/// What the escape sequence at the front of `rest` decodes to, and how many
/// characters it takes.
///
/// `rest` starts with a backslash, which stands at byte offset `at` of the
/// whole text. All characters of an escape sequence are one byte long, so
/// the character `i` of `rest` that belongs to it stands at offset `at + i`.
pub open spec fn escape_at(rest: Seq<char>, at: int) -> Result<(Seq<u8>, nat), UnescapeError> {
    if rest.len() < 2 {
        Err(UnescapeError::UnmatchEscape)
    } else {
        let kind = rest[1];
        let payload = rest.skip(2);
        if let Some(byte) = simple_escape(kind) {
            Ok((seq![byte], 2))
        } else if kind == 'x' {
            // Every hexadecimal digit that follows belongs to the sequence.
            let n = digit_run(payload, 16, payload.len());
            let v = digits_value(payload.take(n as int), 16);
            if n == 0 || v > 255 {
                Err(UnescapeError::Overflow(at as usize))
            } else {
                Ok((seq![v as u8], 2 + n))
            }
        } else if is_digit(kind, 8) {
            // `kind` is the first of up to three octal digits.
            let digits = rest.skip(1);
            let n = digit_run(digits, 8, 3);
            let v = digits_value(digits.take(n as int), 8);
            if v > 255 {
                Err(UnescapeError::Overflow(at as usize))
            } else {
                Ok((seq![v as u8], 1 + n))
            }
        } else if kind == 'u' || kind == 'U' {
            // A universal character name of exactly four or eight digits.
            let width: nat = if kind == 'u' { 4 } else { 8 };
            let n = digit_run(payload, 16, width);
            let v = digits_value(payload.take(n as int), 16);
            if n < width {
                Err(UnescapeError::UnivCharError((at + 2 + n) as usize))
            } else if !is_scalar_value(v) {
                Err(UnescapeError::UnicodeError(at as usize))
            } else {
                Ok((encode_scalar(v as u32), 2 + n))
            }
        } else {
            Err(UnescapeError::NotEscapeSequence(at as usize))
        }
    }
}

/// `head` in front of the bytes of `tail`, where there are any.
pub open spec fn followed_by(head: Seq<u8>, tail: Result<Seq<u8>, UnescapeError>) -> Result<
    Seq<u8>,
    UnescapeError,
> {
    match tail {
        Ok(bytes) => Ok(head + bytes),
        Err(e) => Err(e),
    }
}

/// What `rest` decodes to, where it is the end of a text and starts at byte
/// offset `at` of that text.
///
/// A character other than a backslash stands for its own UTF-8 encoding, a
/// backslash starts an escape sequence, and the first malformed escape
/// sequence is the error of the whole.
pub open spec fn unescape_from(rest: Seq<char>, at: int) -> Result<Seq<u8>, UnescapeError>
    decreases rest.len(),
    via unescape_from_decreases
{
    if rest.len() == 0 {
        Ok(Seq::empty())
    } else if rest[0] != '\\' {
        let own = encode_scalar(rest[0] as u32);
        followed_by(own, unescape_from(rest.skip(1), at + own.len()))
    } else {
        match escape_at(rest, at) {
            Ok((bytes, n)) => followed_by(bytes, unescape_from(rest.skip(n as int), at + n)),
            Err(e) => Err(e),
        }
    }
}

#[via_fn]
proof fn unescape_from_decreases(rest: Seq<char>, at: int) {
    if rest.len() > 0 && rest[0] == '\\' {
        lemma_escape_at_advances(rest, at);
    }
}

/// The bytes that the escaped text `text` stands for, or what is wrong with
/// its first malformed escape sequence.
pub open spec fn unescape_spec(text: Seq<char>) -> Result<Seq<u8>, UnescapeError> {
    unescape_from(text, 0)
}

/// An escape sequence takes at least its backslash and the character after
/// it, and no more than there is.
pub proof fn lemma_escape_at_advances(rest: Seq<char>, at: int)
    ensures
        match escape_at(rest, at) {
            Ok((bytes, n)) => 2 <= n <= rest.len(),
            Err(_) => true,
        },
{
    if rest.len() >= 2 {
        let payload = rest.skip(2);
        lemma_digit_run_is_maximal(payload, 16, payload.len());
        lemma_digit_run_is_maximal(payload, 16, 4);
        lemma_digit_run_is_maximal(payload, 16, 8);
        lemma_digit_run_is_maximal(rest.skip(1), 8, 3);
    }
}

/// A text without a backslash stands for its own UTF-8 encoding.
pub proof fn lemma_unescape_plain(text: Seq<char>)
    requires
        forall|i: int| 0 <= i < text.len() ==> #[trigger] text[i] != '\\',
    ensures
        unescape_spec(text) == Ok::<Seq<u8>, UnescapeError>(encode_utf8(text)),
{
    lemma_unescape_from_plain(text, 0);
}

/// A text without a backslash stands for its own UTF-8 encoding, wherever
/// it starts.
proof fn lemma_unescape_from_plain(rest: Seq<char>, at: int)
    requires
        forall|i: int| 0 <= i < rest.len() ==> #[trigger] rest[i] != '\\',
    ensures
        unescape_from(rest, at) == Ok::<Seq<u8>, UnescapeError>(encode_utf8(rest)),
    decreases rest.len(),
{
    if rest.len() == 0 {
        assert(encode_utf8(rest) =~= Seq::<u8>::empty());
    } else {
        let tail = rest.skip(1);
        assert(tail =~= rest.drop_first());
        assert forall|i: int| 0 <= i < tail.len() implies #[trigger] tail[i] != '\\' by {
            assert(tail[i] == rest[i + 1]);
        }
        lemma_unescape_from_plain(tail, at + encode_scalar(rest[0] as u32).len());
    }
}

/// Nothing in front of a decoded text leaves it as it is.
pub proof fn lemma_followed_by_nothing(tail: Result<Seq<u8>, UnescapeError>)
    ensures
        followed_by(Seq::empty(), tail) == tail,
{
    if let Ok(bytes) = tail {
        assert(Seq::<u8>::empty() + bytes =~= bytes);
    }
}

/// What comes out in front of a decoded text comes out in front of its end.
pub proof fn lemma_followed_by_twice(
    first: Seq<u8>,
    second: Seq<u8>,
    tail: Result<Seq<u8>, UnescapeError>,
)
    ensures
        followed_by(first, followed_by(second, tail)) == followed_by(first + second, tail),
{
    if let Ok(bytes) = tail {
        assert(first + (second + bytes) =~= (first + second) + bytes);
    }
}

/// The byte that a backslash and the character encoded as `kind` stand for,
/// where that character alone makes the escape sequence.
fn simple_escape_byte(kind: u8) -> (r: Option<u8>)
    ensures
        r == simple_escape(kind as char),
{
    if kind == QUOTE || kind == DOUBLE_QUOTE || kind == QUESTION_MARK || kind == BACKSLASH {
        Some(kind)
    } else if kind == LOWER_A {
        Some(0x07)
    } else if kind == LOWER_B {
        Some(0x08)
    } else if kind == LOWER_F {
        Some(0x0c)
    } else if kind == LOWER_N {
        Some(0x0a)
    } else if kind == LOWER_R {
        Some(0x0d)
    } else if kind == LOWER_T {
        Some(0x09)
    } else if kind == LOWER_V {
        Some(0x0b)
    } else {
        None
    }
}

/// Decodes the escape sequence whose backslash stands at `at` in `bytes`,
/// appends what it stands for to `out` and returns the offset after it.
///
/// `bytes` from `at` on are the UTF-8 encoding of `rest`.
fn decode_escape(bytes: &[u8], at: usize, out: &mut Vec<u8>, Ghost(rest): Ghost<Seq<char>>) -> (r:
    Result<usize, UnescapeError>)
    requires
        at < bytes.len(),
        bytes@.skip(at as int) == encode_utf8(rest),
        rest.len() > 0,
        rest[0] == '\\',
    ensures
        match r {
            Ok(next) => {
                &&& escape_at(rest, at as int) matches Ok((decoded, n))
                &&& next == at + n
                &&& next <= bytes.len()
                &&& final(out)@ == old(out)@ + decoded
                &&& bytes@.skip(next as int) == encode_utf8(rest.skip(n as int))
            },
            Err(e) => escape_at(rest, at as int) == Err::<(Seq<u8>, nat), UnescapeError>(e),
        },
{
    let ghost after = rest.skip(1);
    let ghost payload = rest.skip(2);
    proof {
        lemma_encode_first(rest);
        assert(bytes@.skip(at as int).skip(1) =~= bytes@.skip(at + 1));
        lemma_encode_len(after);
    }
    if at + 1 >= bytes.len() {
        return Err(UnescapeError::UnmatchEscape);
    }
    let kind = bytes[at + 1];
    proof {
        assert(bytes@.skip(at + 1)[0] == kind);
        lemma_encode_first(after);
        assert(after[0] == rest[1]);
        if kind < 0x80 {
            char_u32_cast(rest[1], kind as u32);
            assert(bytes@.skip(at + 1).skip(1) =~= bytes@.skip(at + 2));
            assert(after.skip(1) =~= payload);
        }
    }
    if kind >= 0x80 {
        return Err(UnescapeError::NotEscapeSequence(at));
    }
    if let Some(byte) = simple_escape_byte(kind) {
        out.push(byte);
        proof {
            assert(out@ =~= old(out)@ + seq![byte]);
        }
        Ok(at + 2)
    } else if kind == LOWER_X {
        let (n, value) = scan_number(bytes, at + 2, 16, bytes.len() - at - 2, Ghost(payload));
        proof {
            lemma_encode_len(payload);
            lemma_digit_run_is_maximal(payload, 16, (bytes.len() - at - 2) as nat);
            lemma_digit_run_unique(payload, 16, payload.len(), n as nat);
            assert(payload.skip(n as int) =~= rest.skip(2 + n));
        }
        match value {
            Some(v) => if n > 0 && v <= 255 {
                out.push(v as u8);
                proof {
                    assert(out@ =~= old(out)@ + seq![v as u8]);
                }
                Ok(at + 2 + n)
            } else {
                Err(UnescapeError::Overflow(at))
            },
            None => Err(UnescapeError::Overflow(at)),
        }
    } else if DIGIT_0 <= kind && kind <= DIGIT_7 {
        let (n, value) = scan_number(bytes, at + 1, 8, 3, Ghost(after));
        proof {
            lemma_digit_run_is_maximal(after, 8, 3);
            assert(after.skip(n as int) =~= rest.skip(1 + n));
        }
        match value {
            Some(v) => if v <= 255 {
                out.push(v as u8);
                proof {
                    assert(out@ =~= old(out)@ + seq![v as u8]);
                }
                Ok(at + 1 + n)
            } else {
                Err(UnescapeError::Overflow(at))
            },
            None => Err(UnescapeError::Overflow(at)),
        }
    } else if kind == LOWER_U || kind == UPPER_U {
        let width: usize = if kind == LOWER_U {
            4
        } else {
            8
        };
        let (n, value) = scan_number(bytes, at + 2, 16, width, Ghost(payload));
        proof {
            lemma_digit_run_is_maximal(payload, 16, width as nat);
            assert(payload.skip(n as int) =~= rest.skip(2 + n));
        }
        if n < width {
            return Err(UnescapeError::UnivCharError(at + 2 + n));
        }
        match value {
            Some(v) => if v <= 0x10FFFF && !(0xD800 <= v && v <= 0xDFFF) {
                push_scalar(out, v);
                Ok(at + 2 + n)
            } else {
                Err(UnescapeError::UnicodeError(at))
            },
            None => Err(UnescapeError::UnicodeError(at)),
        }
    } else {
        Err(UnescapeError::NotEscapeSequence(at))
    }
}

/// Turns escaped text back into the bytes it stands for.
///
/// A character other than a backslash stands for its own UTF-8 encoding.
/// A backslash starts an escape sequence, and the first malformed one is
/// returned as the error, with its byte offset in `input`.
pub fn unescape(input: &str) -> (r: Result<Vec<u8>, UnescapeError>)
    ensures
        match r {
            Ok(bytes) => unescape_spec(input@) == Ok::<Seq<u8>, UnescapeError>(bytes@),
            Err(e) => unescape_spec(input@) == Err::<Seq<u8>, UnescapeError>(e),
        },
{
    let bytes = input.as_bytes();
    let mut out: Vec<u8> = Vec::new();
    let mut at: usize = 0;
    let ghost mut rest = input@;
    proof {
        assert(bytes@.skip(0) =~= bytes@);
        lemma_followed_by_nothing(unescape_from(rest, 0));
    }
    while at < bytes.len()
        invariant
            at <= bytes.len(),
            bytes@.skip(at as int) == encode_utf8(rest),
            unescape_spec(input@) == followed_by(out@, unescape_from(rest, at as int)),
        decreases bytes.len() - at,
    {
        let lead = bytes[at];
        proof {
            assert(bytes@.skip(at as int)[0] == lead);
            lemma_encode_len(rest);
            lemma_encode_first(rest);
        }
        if lead == BACKSLASH {
            proof {
                char_u32_cast(rest[0], lead as u32);
            }
            let ghost before = out@;
            match decode_escape(bytes, at, &mut out, Ghost(rest)) {
                Ok(next) => {
                    proof {
                        let n = (next - at) as nat;
                        let decoded = escape_at(rest, at as int)->Ok_0.0;
                        lemma_followed_by_twice(
                            before,
                            decoded,
                            unescape_from(rest.skip(n as int), at + n),
                        );
                        rest = rest.skip(n as int);
                    }
                    at = next;
                },
                Err(e) => {
                    return Err(e);
                },
            }
        } else {
            let width = lead_width(lead);
            let ghost before = out@;
            push_range(&mut out, bytes, at, at + width);
            proof {
                let own = encode_scalar(rest[0] as u32);
                assert(bytes@.subrange(at as int, at + width) =~= bytes@.skip(at as int).take(
                    width as int,
                ));
                assert(bytes@.skip(at as int).skip(width as int) =~= bytes@.skip(at + width));
                lemma_followed_by_twice(
                    before,
                    own,
                    unescape_from(rest.skip(1), at + own.len()),
                );
                rest = rest.skip(1);
            }
            at = at + width;
        }
    }
    proof {
        lemma_encode_len(rest);
        assert(out@ + Seq::<u8>::empty() =~= out@);
    }
    Ok(out)
}

} // verus!
