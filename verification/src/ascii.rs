//! The ASCII codes that the grammar of escape sequences names.

use vstd::prelude::*;

verus! {

/// `\`, which starts every escape sequence.
pub const BACKSLASH: u8 = 0x5c;

/// `'`
pub const QUOTE: u8 = 0x27;

/// `"`
pub const DOUBLE_QUOTE: u8 = 0x22;

/// `?`
pub const QUESTION_MARK: u8 = 0x3f;

/// The line feed, written `\n`.
pub const LINE_FEED: u8 = 0x0a;

/// The carriage return, written `\r`.
pub const CARRIAGE_RETURN: u8 = 0x0d;

/// `0`
pub const DIGIT_0: u8 = 0x30;

/// `7`, the last octal digit.
pub const DIGIT_7: u8 = 0x37;

/// `9`
pub const DIGIT_9: u8 = 0x39;

/// `A`
pub const UPPER_A: u8 = 0x41;

/// `F`, the last hexadecimal digit.
pub const UPPER_F: u8 = 0x46;

/// `U`, which starts a universal character name of eight digits.
pub const UPPER_U: u8 = 0x55;

/// `a`
pub const LOWER_A: u8 = 0x61;

/// `b`
pub const LOWER_B: u8 = 0x62;

/// `f`
pub const LOWER_F: u8 = 0x66;

/// `n`
pub const LOWER_N: u8 = 0x6e;

/// `r`
pub const LOWER_R: u8 = 0x72;

/// `t`
pub const LOWER_T: u8 = 0x74;

/// `u`, which starts a universal character name of four digits.
pub const LOWER_U: u8 = 0x75;

/// `v`
pub const LOWER_V: u8 = 0x76;

/// `x`, which starts a hexadecimal escape.
pub const LOWER_X: u8 = 0x78;

} // verus!
