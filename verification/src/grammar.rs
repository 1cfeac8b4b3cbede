//! What the text of a body denotes: the grammar, as functions from bytes to values.
//!
//! Each function reads the text `s` from a position and gives the value that stands
//! there together with the position after it, or `None` where no value stands there.
//! Lists are read with the items found so far carried along.

use vstd::prelude::*;
use vstd::utf8::encode_scalar;
use crate::wire::{NumberView, Wire};

verus! {

pub const QUOTE: u8 = 0x22;

pub const BACKSLASH: u8 = 0x5c;

pub const COMMA: u8 = 0x2c;

pub const COLON: u8 = 0x3a;

pub const MINUS: u8 = 0x2d;

pub const OPEN_BRACKET: u8 = 0x5b;

pub const CLOSE_BRACKET: u8 = 0x5d;

pub const OPEN_BRACE: u8 = 0x7b;

pub const CLOSE_BRACE: u8 = 0x7d;

/// Space, tab, line feed and carriage return separate the parts of a text.
pub open spec fn is_space(b: u8) -> bool {
    b == 0x20 || b == 0x09 || b == 0x0a || b == 0x0d
}

pub open spec fn is_digit(b: u8) -> bool {
    0x30 <= b <= 0x39
}

/// The first position at or after `pos` that holds no separator.
pub open spec fn skip_space(s: Seq<u8>, pos: int) -> int
    decreases s.len() - pos,
{
    if 0 <= pos < s.len() && is_space(s[pos]) {
        skip_space(s, pos + 1)
    } else {
        pos
    }
}

/// The first position at or after `pos` that holds no digit.
pub open spec fn skip_digits(s: Seq<u8>, pos: int) -> int
    decreases s.len() - pos,
{
    if 0 <= pos < s.len() && is_digit(s[pos]) {
        skip_digits(s, pos + 1)
    } else {
        pos
    }
}

/// The number that the decimal digits in `s[from..to]` spell.
pub open spec fn digits_value(s: Seq<u8>, from: int, to: int) -> nat
    decreases to - from,
{
    if to <= from {
        0
    } else {
        digits_value(s, from, to - 1) * 10 + (s[to - 1] - 0x30) as nat
    }
}

/// Whether the word `word` stands in `s` at `pos`.
pub open spec fn has_at(s: Seq<u8>, pos: int, word: Seq<u8>) -> bool {
    0 <= pos && pos + word.len() <= s.len() && s.subrange(pos, pos + word.len()) == word
}

pub open spec fn word_null() -> Seq<u8> {
    seq![0x6eu8, 0x75u8, 0x6cu8, 0x6cu8]
}

pub open spec fn word_true() -> Seq<u8> {
    seq![0x74u8, 0x72u8, 0x75u8, 0x65u8]
}

pub open spec fn word_false() -> Seq<u8> {
    seq![0x66u8, 0x61u8, 0x6cu8, 0x73u8, 0x65u8]
}

/// The number that stands at `pos`: an optional minus sign, an integer part without a
/// leading zero, and optionally a fraction and an exponent. An integer outside
/// `i64::MIN ..= u64::MAX` denotes nothing. A number with a fraction or an exponent
/// is kept as its text.
pub open spec fn parse_number(s: Seq<u8>, pos: int) -> Option<(NumberView, int)> {
    let negative = 0 <= pos < s.len() && s[pos] == MINUS;
    let start = if negative {
        pos + 1
    } else {
        pos
    };
    if !(0 <= start < s.len() && is_digit(s[start])) {
        None
    } else {
        let int_end = if s[start] == 0x30 {
            start + 1
        } else {
            skip_digits(s, start)
        };
        let has_fraction = 0 <= int_end < s.len() && s[int_end] == 0x2e;
        if has_fraction && !(int_end + 1 < s.len() && is_digit(s[int_end + 1])) {
            None
        } else {
            let fraction_end = if has_fraction {
                skip_digits(s, int_end + 1)
            } else {
                int_end
            };
            let has_exponent = 0 <= fraction_end < s.len() && (s[fraction_end] == 0x65
                || s[fraction_end] == 0x45);
            let signed = has_exponent && 0 <= fraction_end + 1 < s.len() && (s[fraction_end + 1]
                == 0x2b || s[fraction_end + 1] == MINUS);
            let exponent_start = if signed {
                fraction_end + 2
            } else {
                fraction_end + 1
            };
            if has_exponent && !(0 <= exponent_start < s.len() && is_digit(s[exponent_start])) {
                None
            } else {
                let end = if has_exponent {
                    skip_digits(s, exponent_start)
                } else {
                    fraction_end
                };
                if has_fraction || has_exponent {
                    if 0 <= pos <= end <= s.len() {
                        Some((NumberView::Decimal(s.subrange(pos, end)), end))
                    } else {
                        None
                    }
                } else {
                    let magnitude = digits_value(s, start, int_end);
                    let value: int = if negative {
                        -magnitude
                    } else {
                        magnitude as int
                    };
                    if i64::MIN <= value <= u64::MAX {
                        Some((NumberView::Integer(value), end))
                    } else {
                        None
                    }
                }
            }
        }
    }
}

/// The value of a hexadecimal digit.
pub open spec fn hex_value(b: u8) -> Option<nat> {
    if 0x30 <= b <= 0x39 {
        Some((b - 0x30) as nat)
    } else if 0x61 <= b <= 0x66 {
        Some((b - 0x61 + 10) as nat)
    } else if 0x41 <= b <= 0x46 {
        Some((b - 0x41 + 10) as nat)
    } else {
        None
    }
}

/// The value of the four hexadecimal digits at `pos`.
pub open spec fn hex4(s: Seq<u8>, pos: int) -> Option<nat> {
    if 0 <= pos && pos + 4 <= s.len() && hex_value(s[pos]) is Some && hex_value(s[pos + 1]) is Some
        && hex_value(s[pos + 2]) is Some && hex_value(s[pos + 3]) is Some {
        Some(
            ((hex_value(s[pos])->0 * 16 + hex_value(s[pos + 1])->0) * 16 + hex_value(
                s[pos + 2],
            )->0) * 16 + hex_value(s[pos + 3])->0,
        )
    } else {
        None
    }
}

/// The byte that a one-letter escape stands for.
pub open spec fn simple_escape(b: u8) -> Option<u8> {
    if b == QUOTE {
        Some(QUOTE)
    } else if b == BACKSLASH {
        Some(BACKSLASH)
    } else if b == 0x2f {
        Some(0x2fu8)
    } else if b == 0x62 {
        Some(0x08u8)
    } else if b == 0x66 {
        Some(0x0cu8)
    } else if b == 0x6e {
        Some(0x0au8)
    } else if b == 0x72 {
        Some(0x0du8)
    } else if b == 0x74 {
        Some(0x09u8)
    } else {
        None
    }
}

/// The bytes that the escape after a backslash stands for; `pos` is just after the
/// backslash. `u` and four hexadecimal digits name a code point, which stands for its
/// UTF-8 bytes; a code point above `0xFFFF` is written as a high and a low surrogate,
/// and a surrogate alone denotes nothing.
pub open spec fn parse_escape(s: Seq<u8>, pos: int) -> Option<(Seq<u8>, int)> {
    if !(0 <= pos < s.len()) {
        None
    } else if s[pos] == 0x75 {
        match hex4(s, pos + 1) {
            None => None,
            Some(unit) => {
                if 0xD800 <= unit <= 0xDBFF {
                    if pos + 6 < s.len() && s[pos + 5] == BACKSLASH && s[pos + 6] == 0x75 {
                        match hex4(s, pos + 7) {
                            None => None,
                            Some(low) => {
                                if 0xDC00 <= low <= 0xDFFF {
                                    Some(
                                        (
                                            encode_scalar(
                                                (0x10000 + (unit - 0xD800) * 0x400 + (low
                                                    - 0xDC00)) as u32,
                                            ),
                                            pos + 11,
                                        ),
                                    )
                                } else {
                                    None
                                }
                            },
                        }
                    } else {
                        None
                    }
                } else if 0xDC00 <= unit <= 0xDFFF {
                    None
                } else {
                    Some((encode_scalar(unit as u32), pos + 5))
                }
            },
        }
    } else {
        match simple_escape(s[pos]) {
            None => None,
            Some(b) => Some((seq![b], pos + 1)),
        }
    }
}

/// The text that ends at the first unescaped quote at or after `pos`, appended to
/// `acc`. A byte below `0x20` may not stand in a text unescaped; every other byte
/// stands for itself.
pub open spec fn parse_text(s: Seq<u8>, pos: int, acc: Seq<u8>) -> Option<(Seq<u8>, int)>
    decreases s.len() - pos,
{
    if !(0 <= pos < s.len()) {
        None
    } else if s[pos] == QUOTE {
        Some((acc, pos + 1))
    } else if s[pos] == BACKSLASH {
        match parse_escape(s, pos + 1) {
            None => None,
            Some((bytes, next)) => {
                if pos < next <= s.len() {
                    parse_text(s, next, acc + bytes)
                } else {
                    None
                }
            },
        }
    } else if s[pos] < 0x20 {
        None
    } else {
        parse_text(s, pos + 1, acc.push(s[pos]))
    }
}

/// Whether one of `entries` has the key `key`.
pub open spec fn has_key(entries: Seq<(Seq<u8>, Wire)>, key: Seq<u8>) -> bool {
    exists|i: int| 0 <= i < entries.len() && (#[trigger] entries[i]).0 == key
}

/// The value that starts at `pos`, where `depth` more levels of sequences and mappings
/// may be opened.
pub open spec fn parse_value(s: Seq<u8>, pos: int, depth: nat) -> Option<(Wire, int)>
    decreases s.len() - pos, 0nat,
{
    if !(0 <= pos < s.len()) {
        None
    } else if s[pos] == 0x6e {
        if has_at(s, pos, word_null()) {
            Some((Wire::Null, pos + 4))
        } else {
            None
        }
    } else if s[pos] == 0x74 {
        if has_at(s, pos, word_true()) {
            Some((Wire::Bool(true), pos + 4))
        } else {
            None
        }
    } else if s[pos] == 0x66 {
        if has_at(s, pos, word_false()) {
            Some((Wire::Bool(false), pos + 5))
        } else {
            None
        }
    } else if s[pos] == QUOTE {
        match parse_text(s, pos + 1, Seq::empty()) {
            None => None,
            Some((text, next)) => Some((Wire::String(text), next)),
        }
    } else if s[pos] == OPEN_BRACKET {
        let first = skip_space(s, pos + 1);
        if depth == 0 || !(pos < first <= s.len()) {
            None
        } else if first < s.len() && s[first] == CLOSE_BRACKET {
            Some((Wire::Sequence(Seq::empty()), first + 1))
        } else {
            parse_items(s, first, (depth - 1) as nat, Seq::empty())
        }
    } else if s[pos] == OPEN_BRACE {
        let first = skip_space(s, pos + 1);
        if depth == 0 || !(pos < first <= s.len()) {
            None
        } else if first < s.len() && s[first] == CLOSE_BRACE {
            Some((Wire::Mapping(Seq::empty()), first + 1))
        } else {
            parse_entries(s, first, (depth - 1) as nat, Seq::empty())
        }
    } else if s[pos] == MINUS || is_digit(s[pos]) {
        match parse_number(s, pos) {
            None => None,
            Some((n, next)) => Some((Wire::Number(n), next)),
        }
    } else {
        None
    }
}

/// The sequence whose first items are `acc` and whose next item starts at `pos`.
/// Items are separated by commas and the sequence ends with a closing bracket.
pub open spec fn parse_items(s: Seq<u8>, pos: int, depth: nat, acc: Seq<Wire>) -> Option<
    (Wire, int),
>
    decreases s.len() - pos, 1nat,
{
    match parse_value(s, pos, depth) {
        None => None,
        Some((item, after)) => {
            let end = skip_space(s, after);
            if !(0 <= end < s.len()) {
                None
            } else if s[end] == CLOSE_BRACKET {
                Some((Wire::Sequence(acc.push(item)), end + 1))
            } else if s[end] == COMMA {
                let next = skip_space(s, end + 1);
                if pos < next <= s.len() {
                    parse_items(s, next, depth, acc.push(item))
                } else {
                    None
                }
            } else {
                None
            }
        },
    }
}

/// The mapping whose first entries are `acc` and whose next key starts at `pos`.
/// An entry is a text, a colon and a value; entries are separated by commas and the
/// mapping ends with a closing brace. A mapping that names a key twice denotes nothing.
pub open spec fn parse_entries(
    s: Seq<u8>,
    pos: int,
    depth: nat,
    acc: Seq<(Seq<u8>, Wire)>,
) -> Option<(Wire, int)>
    decreases s.len() - pos, 1nat,
{
    if !(0 <= pos < s.len() && s[pos] == QUOTE) {
        None
    } else {
        match parse_text(s, pos + 1, Seq::empty()) {
            None => None,
            Some((key, after_key)) => {
                let colon = skip_space(s, after_key);
                let start = skip_space(s, colon + 1);
                if !(0 <= colon < s.len() && s[colon] == COLON && pos < start <= s.len()) {
                    None
                } else {
                    match parse_value(s, start, depth) {
                        None => None,
                        Some((value, after)) => {
                            let end = skip_space(s, after);
                            if has_key(acc, key) || !(0 <= end < s.len()) {
                                None
                            } else if s[end] == CLOSE_BRACE {
                                Some((Wire::Mapping(acc.push((key, value))), end + 1))
                            } else if s[end] == COMMA {
                                let next = skip_space(s, end + 1);
                                if pos < next <= s.len() {
                                    parse_entries(s, next, depth, acc.push((key, value)))
                                } else {
                                    None
                                }
                            } else {
                                None
                            }
                        },
                    }
                }
            },
        }
    }
}

/// The value that the whole text denotes: one value, with separators allowed before
/// and after it and nothing else.
pub open spec fn parse_document(s: Seq<u8>, depth: nat) -> Option<Wire> {
    match parse_value(s, skip_space(s, 0), depth) {
        None => None,
        Some((value, after)) => {
            if skip_space(s, after) == s.len() {
                Some(value)
            } else {
                None
            }
        },
    }
}

} // verus!
