//! From bytes to printable escaped text.

use crate::ascii::{
    BACKSLASH, CARRIAGE_RETURN, DIGIT_0, DOUBLE_QUOTE, LINE_FEED, QUESTION_MARK, QUOTE, UPPER_A,
};
use vstd::prelude::*;

verus! {

/// `String::push` puts the given character at the end of the string and
/// leaves the characters before it as they were.
pub assume_specification[ String::push ](s: &mut String, ch: char)
    ensures
        final(s)@ == old(s)@.push(ch),
;

/// Whether the byte is written as a backslash and the byte itself.
pub open spec fn is_quoted(b: u8) -> bool {
    b == 0x5c || b == 0x27 || b == 0x22 || b == 0x3f
}

/// Whether the byte is a printable ASCII character, the space included.
pub open spec fn is_printable(b: u8) -> bool {
    0x20 <= b < 0x7f
}

/// Whether the byte is written as itself.
pub open spec fn is_plain(b: u8) -> bool {
    is_printable(b) && !is_quoted(b)
}

/// Whether the byte is written as `\x` and its value in hexadecimal digits.
pub open spec fn is_hex_escaped(b: u8) -> bool {
    !is_printable(b) && b != 0x0a && b != 0x0d
}

/// The upper-case hexadecimal digit of value `d`, for `d` below 16.
pub open spec fn hex_digit(d: int) -> char {
    if d < 10 {
        ('0' as int + d) as char
    } else {
        ('A' as int + d - 10) as char
    }
}

/// The value of `b` in upper-case hexadecimal digits, as few as spell it.
pub open spec fn upper_hex(b: u8) -> Seq<char> {
    if b < 16 {
        seq![hex_digit(b as int)]
    } else {
        seq![hex_digit(b as int / 16), hex_digit(b as int % 16)]
    }
}

/// How one byte is written.
pub open spec fn escape_byte(b: u8) -> Seq<char> {
    if is_quoted(b) {
        seq!['\\', b as char]
    } else if b == 0x0a {
        seq!['\\', 'n']
    } else if b == 0x0d {
        seq!['\\', 'r']
    } else if is_plain(b) {
        seq![b as char]
    } else {
        seq!['\\', 'x'] + upper_hex(b)
    }
}

/// How a sequence of bytes is written: each byte as `escape_byte` says, one
/// after the other.
pub open spec fn escape_spec(bytes: Seq<u8>) -> Seq<char>
    decreases bytes.len(),
{
    if bytes.len() == 0 {
        Seq::empty()
    } else {
        escape_byte(bytes[0]) + escape_spec(bytes.skip(1))
    }
}

/// Writing two sequences one after the other is writing their concatenation.
pub proof fn lemma_escape_concat(first: Seq<u8>, second: Seq<u8>)
    ensures
        escape_spec(first + second) == escape_spec(first) + escape_spec(second),
    decreases first.len(),
{
    if first.len() == 0 {
        assert(first + second =~= second);
        assert(escape_spec(first) + escape_spec(second) =~= escape_spec(second));
    } else {
        lemma_escape_concat(first.skip(1), second);
        assert((first + second).skip(1) =~= first.skip(1) + second);
        assert(escape_byte(first[0]) + (escape_spec(first.skip(1)) + escape_spec(second))
            =~= (escape_byte(first[0]) + escape_spec(first.skip(1))) + escape_spec(second));
    }
}

/// A byte is written in one to four characters.
pub proof fn lemma_escape_byte_len(b: u8)
    ensures
        1 <= escape_byte(b).len() <= 4,
{
}

/// The text is at least as long as the bytes and at most four times as long.
pub proof fn lemma_escape_len(bytes: Seq<u8>)
    ensures
        bytes.len() <= escape_spec(bytes).len() <= 4 * bytes.len(),
    decreases bytes.len(),
{
    if bytes.len() > 0 {
        lemma_escape_byte_len(bytes[0]);
        lemma_escape_len(bytes.skip(1));
    }
}

/// Every character of the text is a printable ASCII character.
pub proof fn lemma_escape_is_printable(bytes: Seq<u8>)
    ensures
        forall|j: int|
            0 <= j < escape_spec(bytes).len() ==> ' ' <= #[trigger] escape_spec(bytes)[j] <= '~',
    decreases bytes.len(),
{
    if bytes.len() > 0 {
        let head = escape_byte(bytes[0]);
        let tail = escape_spec(bytes.skip(1));
        lemma_escape_is_printable(bytes.skip(1));
        assert forall|j: int| 0 <= j < escape_spec(bytes).len() implies ' '
            <= #[trigger] escape_spec(bytes)[j] <= '~' by {
            if j >= head.len() {
                assert(escape_spec(bytes)[j] == tail[j - head.len()]);
            } else {
                assert(escape_spec(bytes)[j] == head[j]);
            }
        }
    }
}

/// Bytes that are all written as themselves make a text of as many
/// characters, each with the code of its byte.
pub proof fn lemma_escape_plain(bytes: Seq<u8>)
    requires
        forall|i: int| 0 <= i < bytes.len() ==> is_plain(#[trigger] bytes[i]),
    ensures
        escape_spec(bytes).len() == bytes.len(),
        forall|i: int| 0 <= i < bytes.len() ==> #[trigger] escape_spec(bytes)[i] == bytes[i] as char,
    decreases bytes.len(),
{
    if bytes.len() > 0 {
        let others = bytes.skip(1);
        assert forall|i: int| 0 <= i < others.len() implies is_plain(#[trigger] others[i]) by {
            assert(others[i] == bytes[i + 1]);
        }
        lemma_escape_plain(others);
        assert forall|i: int| 0 <= i < bytes.len() implies #[trigger] escape_spec(bytes)[i]
            == bytes[i] as char by {
            if i > 0 {
                assert(escape_spec(bytes)[i] == escape_spec(others)[i - 1]);
                assert(others[i - 1] == bytes[i]);
            }
        }
    }
}

/// A byte that is not written as itself puts a backslash into the text and
/// makes the text longer than the bytes.
pub proof fn lemma_escape_marks(bytes: Seq<u8>, i: int) -> (j: int)
    requires
        0 <= i < bytes.len(),
        !is_plain(bytes[i]),
    ensures
        0 <= j < escape_spec(bytes).len(),
        escape_spec(bytes)[j] == '\\',
        escape_spec(bytes).len() > bytes.len(),
    decreases i,
{
    let head = escape_byte(bytes[0]);
    let others = bytes.skip(1);
    lemma_escape_len(others);
    if i == 0 {
        0
    } else {
        assert(others[i - 1] == bytes[i]);
        let k = lemma_escape_marks(others, i - 1);
        assert(escape_spec(bytes)[head.len() + k] == escape_spec(others)[k]);
        head.len() + k
    }
}

/// The upper-case hexadecimal digit of value `d`.
fn hex_digit_of(d: u8) -> (c: char)
    requires
        d < 16,
    ensures
        c == hex_digit(d as int),
{
    if d < 10 {
        (DIGIT_0 + d) as char
    } else {
        (UPPER_A + (d - 10)) as char
    }
}

/// Writes `input` as printable text.
///
/// A printable ASCII byte is written as itself, but for the backslash, the
/// two quotes and the question mark, which get a backslash in front. Line
/// feed and carriage return are written `\n` and `\r`, and every other byte
/// as `\x` and its value in upper-case hexadecimal digits, without padding.
pub fn escape(input: &[u8]) -> (text: String)
    ensures
        text@ == escape_spec(input@),
        input@.len() <= text@.len() <= 4 * input@.len(),
        forall|j: int| 0 <= j < text@.len() ==> ' ' <= #[trigger] text@[j] <= '~',
{
    let mut text = String::new();
    let mut i: usize = 0;
    proof {
        assert(input@.take(0) =~= Seq::<u8>::empty());
    }
    while i < input.len()
        invariant
            i <= input.len(),
            text@ == escape_spec(input@.take(i as int)),
        decreases input.len() - i,
    {
        let b = input[i];
        let ghost before = text@;
        if b == BACKSLASH || b == QUOTE || b == DOUBLE_QUOTE || b == QUESTION_MARK {
            text.push('\\');
            text.push(b as char);
        } else if b == LINE_FEED {
            text.push('\\');
            text.push('n');
        } else if b == CARRIAGE_RETURN {
            text.push('\\');
            text.push('r');
        } else if 0x20 <= b && b < 0x7f {
            text.push(b as char);
        } else {
            text.push('\\');
            text.push('x');
            if b >= 16 {
                text.push(hex_digit_of(b / 16));
            }
            text.push(hex_digit_of(b % 16));
        }
        proof {
            assert(text@ =~= before + escape_byte(b));
            lemma_escape_concat(input@.take(i as int), seq![b]);
            assert(escape_spec(seq![b]) =~= escape_byte(b)) by {
                assert(seq![b].skip(1) =~= Seq::<u8>::empty());
                assert(escape_spec(Seq::<u8>::empty()) =~= Seq::<char>::empty());
            }
            assert(input@.take(i + 1) =~= input@.take(i as int) + seq![b]);
        }
        i = i + 1;
    }
    proof {
        assert(input@.take(i as int) =~= input@);
        lemma_escape_len(input@);
        lemma_escape_is_printable(input@);
    }
    text
}

} // verus!
