//! Digits and the numbers they spell, in any radix up to 16.

use crate::ascii::{DIGIT_0, DIGIT_9, LOWER_A, LOWER_F, UPPER_A, UPPER_F};
use crate::text::{lemma_encode_first, lemma_encode_len};
use vstd::prelude::*;
use vstd::utf8::*;

verus! {

/// The value of `c` as a digit: `0` to `9` count 0 to 9, and the letters `a`
/// to `f`, in either case, count 10 to 15. No other character is a digit.
pub open spec fn digit_value(c: char) -> Option<nat> {
    if '0' <= c <= '9' {
        Some((c as int - '0' as int) as nat)
    } else if 'a' <= c <= 'f' {
        Some((c as int - 'a' as int + 10) as nat)
    } else if 'A' <= c <= 'F' {
        Some((c as int - 'A' as int + 10) as nat)
    } else {
        None
    }
}

/// Whether `c` is a digit of the given radix.
pub open spec fn is_digit(c: char, radix: nat) -> bool {
    match digit_value(c) {
        Some(d) => d < radix,
        None => false,
    }
}

/// Whether the byte is the ASCII code of a hexadecimal digit.
pub open spec fn is_hex_digit_byte(b: u8) -> bool {
    is_digit(b as char, 16)
}

/// How many digits of the given radix stand at the front of `s`, counting no
/// more than `limit` of them.
pub open spec fn digit_run(s: Seq<char>, radix: nat, limit: nat) -> nat
    decreases limit,
{
    if limit == 0 || s.len() == 0 || !is_digit(s[0], radix) {
        0
    } else {
        1 + digit_run(s.skip(1), radix, (limit - 1) as nat)
    }
}

/// The number that the digits `s` spell in the given radix, most significant
/// digit first. The empty sequence spells 0.
pub open spec fn digits_value(s: Seq<char>, radix: nat) -> nat
    decreases s.len(),
{
    if s.len() == 0 {
        0
    } else {
        digits_value(s.drop_last(), radix) * radix + match digit_value(s.last()) {
            Some(d) => d,
            None => 0,
        }
    }
}

/// A run of digits is as long as it can be: it lies within the sequence and
/// the limit, holds digits only, and ends at the limit, at the end of the
/// sequence or before a character that is no digit.
pub proof fn lemma_digit_run_is_maximal(s: Seq<char>, radix: nat, limit: nat)
    ensures
        digit_run(s, radix, limit) <= limit,
        digit_run(s, radix, limit) <= s.len(),
        forall|j: int| 0 <= j < digit_run(s, radix, limit) ==> is_digit(#[trigger] s[j], radix),
        digit_run(s, radix, limit) == limit || digit_run(s, radix, limit) == s.len() || !is_digit(
            s[digit_run(s, radix, limit) as int],
            radix,
        ),
    decreases limit,
{
    if limit == 0 || s.len() == 0 || !is_digit(s[0], radix) {
    } else {
        let tail = s.skip(1);
        lemma_digit_run_is_maximal(tail, radix, (limit - 1) as nat);
        let n = digit_run(tail, radix, (limit - 1) as nat);
        assert forall|j: int| 0 <= j < n + 1 implies is_digit(#[trigger] s[j], radix) by {
            if j > 0 {
                assert(s[j] == tail[j - 1]);
            }
        }
        if n < tail.len() {
            assert(s[n as int + 1] == tail[n as int]);
        }
    }
}

/// The only count that is maximal in that sense is the length of the run.
pub proof fn lemma_digit_run_unique(s: Seq<char>, radix: nat, limit: nat, n: nat)
    requires
        n <= limit,
        n <= s.len(),
        forall|j: int| 0 <= j < n ==> is_digit(#[trigger] s[j], radix),
        n == limit || n == s.len() || !is_digit(s[n as int], radix),
    ensures
        digit_run(s, radix, limit) == n,
    decreases limit,
{
    if limit == 0 || s.len() == 0 || !is_digit(s[0], radix) {
    } else {
        let tail = s.skip(1);
        assert forall|j: int| 0 <= j < n - 1 implies is_digit(#[trigger] tail[j], radix) by {
            assert(tail[j] == s[j + 1]);
        }
        if n < s.len() {
            assert(tail[n - 1] == s[n as int]);
        }
        lemma_digit_run_unique(tail, radix, (limit - 1) as nat, (n - 1) as nat);
    }
}

/// One more digit at the end multiplies the number by the radix and adds the
/// digit.
pub proof fn lemma_digits_value_step(s: Seq<char>, radix: nat, n: int)
    requires
        0 <= n < s.len(),
    ensures
        digits_value(s.take(n + 1), radix) == digits_value(s.take(n), radix) * radix
            + match digit_value(s[n]) {
            Some(d) => d,
            None => 0,
        },
{
    assert(s.take(n + 1).drop_last() =~= s.take(n));
}

/// `value`, where a `u32` can hold it.
pub open spec fn fits_u32(value: nat) -> Option<u32> {
    if value <= u32::MAX {
        Some(value as u32)
    } else {
        None
    }
}

/// The value of the byte `b` where it is the one-byte encoding of a digit.
pub(crate) fn byte_digit(b: u8) -> (r: Option<u32>)
    ensures
        r == match digit_value(b as char) {
            Some(d) => Some(d as u32),
            None => None,
        },
        r matches Some(d) ==> d < 16 && b < 0x80,
{
    if DIGIT_0 <= b && b <= DIGIT_9 {
        Some((b - DIGIT_0) as u32)
    } else if LOWER_A <= b && b <= LOWER_F {
        Some((b - LOWER_A) as u32 + 10)
    } else if UPPER_A <= b && b <= UPPER_F {
        Some((b - UPPER_A) as u32 + 10)
    } else {
        None
    }
}

/// Reads the digits of the given radix that stand at `start` in `bytes`, no
/// more than `limit` of them, and returns how many there are and the number
/// they spell, where a `u32` can hold it.
///
/// `bytes` from `start` on are the UTF-8 encoding of `rest`.
pub(crate) fn scan_number(
    bytes: &[u8],
    start: usize,
    radix: u32,
    limit: usize,
    Ghost(rest): Ghost<Seq<char>>,
) -> (r: (usize, Option<u32>))
    requires
        start <= bytes.len(),
        bytes@.skip(start as int) == encode_utf8(rest),
        2 <= radix <= 16,
    ensures
        r.0 == digit_run(rest, radix as nat, limit as nat),
        start + r.0 <= bytes.len(),
        bytes@.skip(start + r.0) == encode_utf8(rest.skip(r.0 as int)),
        r.1 == fits_u32(digits_value(rest.take(r.0 as int), radix as nat)),
{
    let mut n: usize = 0;
    let mut value: Option<u32> = Some(0);
    proof {
        assert(rest.skip(0) =~= rest);
        assert(rest.take(0) =~= Seq::<char>::empty());
    }
    loop
        invariant
            start + n <= bytes.len(),
            n <= limit,
            n <= rest.len(),
            2 <= radix <= 16,
            bytes@.skip(start + n) == encode_utf8(rest.skip(n as int)),
            forall|j: int| 0 <= j < n ==> is_digit(#[trigger] rest[j], radix as nat),
            value == fits_u32(digits_value(rest.take(n as int), radix as nat)),
        ensures
            n == digit_run(rest, radix as nat, limit as nat),
        decreases bytes.len() - start - n,
    {
        let ghost tail = rest.skip(n as int);
        if n >= limit || start + n >= bytes.len() {
            proof {
                if n < limit {
                    assert(bytes@.skip(start + n).len() == 0);
                    lemma_encode_len(tail);
                }
                lemma_digit_run_unique(rest, radix as nat, limit as nat, n as nat);
            }
            break;
        }
        let b = bytes[start + n];
        proof {
            assert(bytes@.skip(start + n)[0] == b);
            assert(tail.len() > 0);
            lemma_encode_first(tail);
            assert(tail[0] == rest[n as int]);
        }
        let digit = match byte_digit(b) {
            Some(d) => if d < radix {
                Some(d)
            } else {
                None
            },
            None => None,
        };
        match digit {
            Some(d) => {
                proof {
                    assert(b as char == rest[n as int]) by {
                        char_u32_cast(rest[n as int], b as u32);
                    }
                    lemma_digits_value_step(rest, radix as nat, n as int);
                    let before = digits_value(rest.take(n as int), radix as nat);
                    assert(before <= before * radix) by (nonlinear_arith)
                        requires
                            radix >= 1,
                    ;
                    assert(bytes@.skip(start + n).skip(1) =~= bytes@.skip(start + n + 1));
                    assert(tail.skip(1) =~= rest.skip(n + 1));
                }
                value = match value {
                    Some(v) => match v.checked_mul(radix) {
                        Some(shifted) => shifted.checked_add(d),
                        None => None,
                    },
                    None => None,
                };
                n = n + 1;
            },
            None => {
                proof {
                    assert(!is_digit(rest[n as int], radix as nat));
                    lemma_digit_run_unique(rest, radix as nat, limit as nat, n as nat);
                }
                break;
            },
        }
    }
    (n, value)
}

} // verus!
