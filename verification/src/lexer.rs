//! Reading the flat parts of a body: separators, texts and numbers.

use vstd::prelude::*;
use vstd::slice::slice_subrange;
use vstd::utf8::{encode_scalar, is_scalar};
use crate::bytes::copy_bytes;
use crate::grammar;
use crate::grammar::{BACKSLASH, MINUS, QUOTE};
use crate::wire::Number;

verus! {

/// Moves past the separators at `pos`.
pub fn skip_space(bytes: &[u8], pos: usize) -> (next: usize)
    requires
        pos <= bytes@.len(),
    ensures
        next == grammar::skip_space(bytes@, pos as int),
        pos <= next <= bytes@.len(),
{
    let mut i: usize = pos;
    while i < bytes.len()
        invariant
            pos <= i <= bytes@.len(),
            grammar::skip_space(bytes@, pos as int) == grammar::skip_space(bytes@, i as int),
        decreases bytes@.len() - i,
    {
        let b: u8 = bytes[i];
        if !(b == 0x20 || b == 0x09 || b == 0x0a || b == 0x0d) {
            return i;
        }
        i += 1;
    }
    i
}

/// Moves past the digits at `pos` and gives the number they spell, if it fits.
pub fn read_digits(bytes: &[u8], pos: usize) -> (r: (usize, Option<u64>))
    requires
        pos <= bytes@.len(),
    ensures
        r.0 == grammar::skip_digits(bytes@, pos as int),
        pos <= r.0 <= bytes@.len(),
        pos < bytes@.len() && grammar::is_digit(bytes@[pos as int]) ==> pos < r.0,
        match r.1 {
            Some(v) => v == grammar::digits_value(bytes@, pos as int, r.0 as int),
            None => grammar::digits_value(bytes@, pos as int, r.0 as int) > u64::MAX,
        },
{
    let mut i: usize = pos;
    let mut value: Option<u64> = Some(0);
    while i < bytes.len()
        invariant
            pos <= i <= bytes@.len(),
            grammar::skip_digits(bytes@, pos as int) == grammar::skip_digits(bytes@, i as int),
            match value {
                Some(v) => v == grammar::digits_value(bytes@, pos as int, i as int),
                None => grammar::digits_value(bytes@, pos as int, i as int) > u64::MAX,
            },
        decreases bytes@.len() - i,
    {
        let b: u8 = bytes[i];
        if !(0x30 <= b && b <= 0x39) {
            return (i, value);
        }
        let d: u64 = (b - 0x30) as u64;
        value =
        match value {
            Some(v) => {
                if v > 1844674407370955161 || v * 10 > u64::MAX - d {
                    None
                } else {
                    Some(v * 10 + d)
                }
            },
            None => None,
        };
        i += 1;
    }
    (i, value)
}

/// The value of a hexadecimal digit.
pub fn hex_digit(b: u8) -> (v: Option<u32>)
    ensures
        match v {
            Some(x) => grammar::hex_value(b) == Some(x as nat) && x < 16,
            None => grammar::hex_value(b) is None,
        },
{
    if 0x30 <= b && b <= 0x39 {
        Some((b - 0x30) as u32)
    } else if 0x61 <= b && b <= 0x66 {
        Some((b - 0x61 + 10) as u32)
    } else if 0x41 <= b && b <= 0x46 {
        Some((b - 0x41 + 10) as u32)
    } else {
        None
    }
}

/// The value of the four hexadecimal digits at `pos`.
pub fn read_hex4(bytes: &[u8], pos: usize) -> (v: Option<u32>)
    requires
        pos <= bytes@.len(),
    ensures
        match v {
            Some(x) => grammar::hex4(bytes@, pos as int) == Some(x as nat) && x <= 0xFFFF && pos
                + 4 <= bytes@.len(),
            None => grammar::hex4(bytes@, pos as int) is None,
        },
{
    if bytes.len() - pos < 4 {
        return None;
    }
    let h0 = hex_digit(bytes[pos]);
    let h1 = hex_digit(bytes[pos + 1]);
    let h2 = hex_digit(bytes[pos + 2]);
    let h3 = hex_digit(bytes[pos + 3]);
    match (h0, h1, h2, h3) {
        (Some(a), Some(b), Some(c), Some(d)) => Some(((a * 16 + b) * 16 + c) * 16 + d),
        _ => None,
    }
}

/// Appends the UTF-8 bytes of a code point.
pub fn push_scalar(out: &mut Vec<u8>, scalar: u32)
    requires
        is_scalar(scalar),
    ensures
        final(out)@ == old(out)@ + encode_scalar(scalar),
{
    assert((scalar & 0x7F) <= 0x7F) by (bit_vector);
    assert(((scalar >> 6) & 0x1F) <= 0x1F) by (bit_vector);
    assert(((scalar >> 12) & 0x0F) <= 0x0F) by (bit_vector);
    assert(((scalar >> 18) & 0x7) <= 0x7) by (bit_vector);
    assert((scalar & 0x3F) <= 0x3F) by (bit_vector);
    assert(((scalar >> 6) & 0x3F) <= 0x3F) by (bit_vector);
    assert(((scalar >> 12) & 0x3F) <= 0x3F) by (bit_vector);
    let last: u8 = 0x80 | (scalar & 0x3F) as u8;
    let second_last: u8 = 0x80 | ((scalar >> 6) & 0x3F) as u8;
    let third_last: u8 = 0x80 | ((scalar >> 12) & 0x3F) as u8;
    if scalar <= 0x7F {
        out.push((scalar & 0x7F) as u8);
        assert(final(out)@ =~= old(out)@ + encode_scalar(scalar));
    } else if scalar <= 0x7FF {
        out.push(0xC0 | ((scalar >> 6) & 0x1F) as u8);
        out.push(last);
        assert(final(out)@ =~= old(out)@ + encode_scalar(scalar));
    } else if scalar <= 0xFFFF {
        out.push(0xE0 | ((scalar >> 12) & 0x0F) as u8);
        out.push(second_last);
        out.push(last);
        assert(final(out)@ =~= old(out)@ + encode_scalar(scalar));
    } else {
        out.push(0xF0 | ((scalar >> 18) & 0x7) as u8);
        out.push(third_last);
        out.push(second_last);
        out.push(last);
        assert(final(out)@ =~= old(out)@ + encode_scalar(scalar));
    }
}

/// Reads the escape after a backslash and appends the bytes it stands for.
pub fn read_escape(bytes: &[u8], pos: usize, out: &mut Vec<u8>) -> (next: Option<usize>)
    requires
        pos <= bytes@.len(),
    ensures
        match next {
            Some(n) => {
                &&& pos < n <= bytes@.len()
                &&& grammar::parse_escape(bytes@, pos as int) matches Some((b, m))
                &&& m == n
                &&& final(out)@ == old(out)@ + b
            },
            None => grammar::parse_escape(bytes@, pos as int) is None && final(out)@ == old(out)@,
        },
{
    if pos >= bytes.len() {
        return None;
    }
    let b: u8 = bytes[pos];
    if b == 0x75 {
        let unit: u32 = match read_hex4(bytes, pos + 1) {
            None => { return None; },
            Some(unit) => unit,
        };
        if 0xD800 <= unit && unit <= 0xDBFF {
            if bytes.len() - pos <= 6 || bytes[pos + 5] != BACKSLASH || bytes[pos + 6] != 0x75 {
                return None;
            }
            let low: u32 = match read_hex4(bytes, pos + 7) {
                None => { return None; },
                Some(low) => low,
            };
            if !(0xDC00 <= low && low <= 0xDFFF) {
                return None;
            }
            push_scalar(out, 0x10000 + (unit - 0xD800) * 0x400 + (low - 0xDC00));
            Some(pos + 11)
        } else if 0xDC00 <= unit && unit <= 0xDFFF {
            None
        } else {
            push_scalar(out, unit);
            Some(pos + 5)
        }
    } else {
        let plain: u8 = if b == QUOTE {
            QUOTE
        } else if b == BACKSLASH {
            BACKSLASH
        } else if b == 0x2f {
            0x2f
        } else if b == 0x62 {
            0x08
        } else if b == 0x66 {
            0x0c
        } else if b == 0x6e {
            0x0a
        } else if b == 0x72 {
            0x0d
        } else if b == 0x74 {
            0x09
        } else {
            return None;
        };
        out.push(plain);
        assert(final(out)@ =~= old(out)@ + seq![plain]);
        Some(pos + 1)
    }
}

/// Reads a text up to its closing quote; `pos` is just after the opening quote.
pub fn read_text(bytes: &[u8], pos: usize) -> (r: Option<(Vec<u8>, usize)>)
    requires
        pos <= bytes@.len(),
    ensures
        match r {
            Some((text, next)) => pos < next <= bytes@.len() && grammar::parse_text(
                bytes@,
                pos as int,
                Seq::empty(),
            ) == Some((text@, next as int)),
            None => grammar::parse_text(bytes@, pos as int, Seq::empty()) is None,
        },
{
    let mut out: Vec<u8> = Vec::new();
    let mut i: usize = pos;
    loop
        invariant
            pos <= i <= bytes@.len(),
            grammar::parse_text(bytes@, pos as int, Seq::empty()) == grammar::parse_text(
                bytes@,
                i as int,
                out@,
            ),
        decreases bytes@.len() - i,
    {
        if i >= bytes.len() {
            return None;
        }
        let b: u8 = bytes[i];
        if b == QUOTE {
            return Some((out, i + 1));
        } else if b == BACKSLASH {
            match read_escape(bytes, i + 1, &mut out) {
                None => { return None; },
                Some(next) => { i = next; },
            }
        } else if b < 0x20 {
            return None;
        } else {
            out.push(b);
            i += 1;
        }
    }
}

/// Reads the number that starts at `pos`.
pub fn read_number(bytes: &[u8], pos: usize) -> (r: Option<(Number, usize)>)
    requires
        pos <= bytes@.len(),
    ensures
        match r {
            Some((n, next)) => pos < next <= bytes@.len() && grammar::parse_number(
                bytes@,
                pos as int,
            ) == Some((n@, next as int)),
            None => grammar::parse_number(bytes@, pos as int) is None,
        },
{
    if pos >= bytes.len() {
        return None;
    }
    let negative: bool = bytes[pos] == MINUS;
    let start: usize = if negative {
        pos + 1
    } else {
        pos
    };
    if start >= bytes.len() || !(0x30 <= bytes[start] && bytes[start] <= 0x39) {
        return None;
    }
    let (int_end, magnitude) = if bytes[start] == 0x30 {
        assert(grammar::digits_value(bytes@, start as int, start as int) == 0);
        assert(grammar::digits_value(bytes@, start as int, start + 1) == 0);
        (start + 1, Some(0u64))
    } else {
        read_digits(bytes, start)
    };
    let has_fraction: bool = int_end < bytes.len() && bytes[int_end] == 0x2e;
    if has_fraction && !(int_end + 1 < bytes.len() && 0x30 <= bytes[int_end + 1] && bytes[int_end
        + 1] <= 0x39) {
        return None;
    }
    let fraction_end: usize = if has_fraction {
        read_digits(bytes, int_end + 1).0
    } else {
        int_end
    };
    let has_exponent: bool = fraction_end < bytes.len() && (bytes[fraction_end] == 0x65
        || bytes[fraction_end] == 0x45);
    let mut end: usize = fraction_end;
    if has_exponent {
        let signed: bool = fraction_end + 1 < bytes.len() && (bytes[fraction_end + 1] == 0x2b
            || bytes[fraction_end + 1] == MINUS);
        let exponent_start: usize = if signed {
            fraction_end + 2
        } else {
            fraction_end + 1
        };
        if !(exponent_start < bytes.len() && 0x30 <= bytes[exponent_start] && bytes[exponent_start]
            <= 0x39) {
            return None;
        }
        end = read_digits(bytes, exponent_start).0;
    }
    if has_fraction || has_exponent {
        let text = copy_bytes(slice_subrange(bytes, pos, end));
        Some((Number::Decimal(text), end))
    } else {
        match magnitude {
            None => None,
            Some(m) => {
                if negative {
                    if m > 9223372036854775808 {
                        None
                    } else {
                        Some((Number::Integer(-(m as i128)), end))
                    }
                } else {
                    Some((Number::Integer(m as i128), end))
                }
            },
        }
    }
}

} // verus!
