//! Writing a value as the text of a body.
//!
//! The text has no separators. A text is written between quotes, with the quote, the
//! backslash and the bytes below `0x20` escaped and every other byte as it is.

use vstd::prelude::*;
use crate::grammar::{
    word_false,
    word_null,
    word_true,
    BACKSLASH,
    CLOSE_BRACE,
    CLOSE_BRACKET,
    COLON,
    COMMA,
    MINUS,
    OPEN_BRACE,
    OPEN_BRACKET,
    QUOTE,
};
use crate::wire::{view_entries, view_items, Number, NumberView, Wire, WireValue};

verus! {

/// The hexadecimal digit for a value below sixteen.
pub open spec fn hex_char(n: int) -> u8 {
    if n < 10 {
        (0x30 + n) as u8
    } else {
        (0x61 + n - 10) as u8
    }
}

/// How one byte of a text is written.
pub open spec fn escape_byte(b: u8) -> Seq<u8> {
    if b == QUOTE {
        seq![BACKSLASH, QUOTE]
    } else if b == BACKSLASH {
        seq![BACKSLASH, BACKSLASH]
    } else if b < 0x20 {
        seq![BACKSLASH, 0x75u8, 0x30u8, 0x30u8, hex_char(b as int / 16), hex_char(b as int % 16)]
    } else {
        seq![b]
    }
}

/// How the bytes of a text are written, without the quotes around them.
pub open spec fn escaped(text: Seq<u8>) -> Seq<u8>
    decreases text.len(),
{
    if text.len() == 0 {
        Seq::empty()
    } else {
        escape_byte(text[0]) + escaped(text.skip(1))
    }
}

/// How a text is written.
pub open spec fn quoted(text: Seq<u8>) -> Seq<u8> {
    seq![QUOTE] + escaped(text) + seq![QUOTE]
}

/// The decimal digits of a number, without leading zeros.
pub open spec fn digits(n: nat) -> Seq<u8>
    decreases n,
{
    if n < 10 {
        seq![(0x30 + n) as u8]
    } else {
        digits(n / 10).push((0x30 + n % 10) as u8)
    }
}

/// How a number is written.
pub open spec fn encoded_number(n: NumberView) -> Seq<u8> {
    match n {
        NumberView::Integer(v) => {
            if v < 0 {
                seq![MINUS] + digits((-v) as nat)
            } else {
                digits(v as nat)
            }
        },
        NumberView::Decimal(text) => text,
    }
}

/// How a value is written.
pub open spec fn encoded(value: Wire) -> Seq<u8>
    decreases value,
{
    match value {
        Wire::Null => word_null(),
        Wire::Bool(b) => if b {
            word_true()
        } else {
            word_false()
        },
        Wire::Number(n) => encoded_number(n),
        Wire::String(text) => quoted(text),
        Wire::Sequence(items) => {
            if items.len() == 0 {
                seq![OPEN_BRACKET, CLOSE_BRACKET]
            } else {
                seq![OPEN_BRACKET] + encoded_items(items)
            }
        },
        Wire::Mapping(entries) => {
            if entries.len() == 0 {
                seq![OPEN_BRACE, CLOSE_BRACE]
            } else {
                seq![OPEN_BRACE] + encoded_entries(entries)
            }
        },
    }
}

/// How the items of a sequence are written, up to and with the closing bracket.
pub open spec fn encoded_items(items: Seq<Wire>) -> Seq<u8>
    decreases items,
{
    if items.len() == 0 {
        seq![CLOSE_BRACKET]
    } else if items.len() == 1 {
        encoded(items[0]) + seq![CLOSE_BRACKET]
    } else {
        encoded(items[0]) + seq![COMMA] + encoded_items(items.skip(1))
    }
}

/// How the entries of a mapping are written, up to and with the closing brace.
pub open spec fn encoded_entries(entries: Seq<(Seq<u8>, Wire)>) -> Seq<u8>
    decreases entries,
{
    if entries.len() == 0 {
        seq![CLOSE_BRACE]
    } else if entries.len() == 1 {
        quoted(entries[0].0) + seq![COLON] + encoded(entries[0].1) + seq![CLOSE_BRACE]
    } else {
        quoted(entries[0].0) + seq![COLON] + encoded(entries[0].1) + seq![COMMA] + encoded_entries(
            entries.skip(1),
        )
    }
}

/// Appends the hexadecimal digit for a value below sixteen.
fn push_hex(out: &mut Vec<u8>, n: u8)
    requires
        n < 16,
    ensures
        final(out)@ == old(out)@.push(hex_char(n as int)),
{
    if n < 10 {
        out.push(0x30 + n);
    } else {
        out.push(0x61 + n - 10);
    }
}

/// Appends a text between quotes.
pub fn push_quoted(out: &mut Vec<u8>, text: &[u8])
    ensures
        final(out)@ == old(out)@ + quoted(text@),
{
    out.push(QUOTE);
    let ghost target = old(out)@ + quoted(text@);
    let mut i: usize = 0;
    assert(text@.skip(0) =~= text@);
    assert(target =~= out@ + escaped(text@.skip(0)) + seq![QUOTE]);
    while i < text.len()
        invariant
            i <= text@.len(),
            target == out@ + escaped(text@.skip(i as int)) + seq![QUOTE],
        decreases text@.len() - i,
    {
        let b: u8 = text[i];
        let ghost before = out@;
        let ghost rest = text@.skip(i as int);
        assert(rest[0] == b);
        assert(rest.skip(1) =~= text@.skip(i + 1));
        assert(escaped(rest) == escape_byte(b) + escaped(text@.skip(i + 1)));
        if b == QUOTE {
            out.push(BACKSLASH);
            out.push(QUOTE);
        } else if b == BACKSLASH {
            out.push(BACKSLASH);
            out.push(BACKSLASH);
        } else if b < 0x20 {
            out.push(BACKSLASH);
            out.push(0x75);
            out.push(0x30);
            out.push(0x30);
            push_hex(out, b / 16);
            push_hex(out, b % 16);
        } else {
            out.push(b);
        }
        assert(out@ =~= before + escape_byte(b));
        assert(target =~= out@ + escaped(text@.skip(i + 1)) + seq![QUOTE]);
        i += 1;
    }
    assert(escaped(text@.skip(i as int)) =~= Seq::<u8>::empty());
    out.push(QUOTE);
    assert(out@ =~= target);
}

/// Appends the decimal digits of a number.
pub fn push_digits(out: &mut Vec<u8>, n: u128)
    ensures
        final(out)@ == old(out)@ + digits(n as nat),
    decreases n,
{
    if n < 10 {
        out.push(0x30 + n as u8);
        assert(out@ =~= old(out)@ + digits(n as nat));
    } else {
        push_digits(out, n / 10);
        out.push(0x30 + (n % 10) as u8);
        assert(out@ =~= old(out)@ + digits(n as nat));
    }
}

/// Appends every byte of `bytes`.
pub fn push_all(out: &mut Vec<u8>, bytes: &[u8])
    ensures
        final(out)@ == old(out)@ + bytes@,
{
    let mut i: usize = 0;
    assert(out@ =~= old(out)@ + bytes@.subrange(0, 0));
    while i < bytes.len()
        invariant
            i <= bytes@.len(),
            out@ == old(out)@ + bytes@.subrange(0, i as int),
        decreases bytes@.len() - i,
    {
        out.push(bytes[i]);
        assert(out@ =~= old(out)@ + bytes@.subrange(0, i + 1));
        i += 1;
    }
    assert(bytes@.subrange(0, bytes@.len() as int) =~= bytes@);
}

/// Appends a number.
pub fn push_number(out: &mut Vec<u8>, n: &Number)
    ensures
        final(out)@ == old(out)@ + encoded_number(n@),
{
    match n {
        Number::Integer(v) => {
            if *v < 0 {
                out.push(MINUS);
                let magnitude: u128 = if *v == i128::MIN {
                    170141183460469231731687303715884105728
                } else {
                    (-*v) as u128
                };
                push_digits(out, magnitude);
                assert(out@ =~= old(out)@ + encoded_number(n@));
            } else {
                push_digits(out, *v as u128);
            }
        },
        Number::Decimal(text) => {
            push_all(out, text.as_slice());
        },
    }
}

/// Appends a value.
pub fn push_value(out: &mut Vec<u8>, value: &WireValue)
    ensures
        final(out)@ == old(out)@ + encoded(value@),
    decreases value,
{
    match value {
        WireValue::Null => {
            out.push(0x6e);
            out.push(0x75);
            out.push(0x6c);
            out.push(0x6c);
            assert(out@ =~= old(out)@ + word_null());
        },
        WireValue::Bool(b) => {
            if *b {
                out.push(0x74);
                out.push(0x72);
                out.push(0x75);
                out.push(0x65);
                assert(out@ =~= old(out)@ + word_true());
            } else {
                out.push(0x66);
                out.push(0x61);
                out.push(0x6c);
                out.push(0x73);
                out.push(0x65);
                assert(out@ =~= old(out)@ + word_false());
            }
        },
        WireValue::Number(n) => {
            push_number(out, n);
        },
        WireValue::String(text) => {
            push_quoted(out, text.as_slice());
        },
        WireValue::Sequence(items) => {
            let ghost all = view_items(items@);
            let ghost target = old(out)@ + encoded(value@);
            out.push(OPEN_BRACKET);
            if items.len() == 0 {
                out.push(CLOSE_BRACKET);
                assert(out@ =~= target);
                return ;
            }
            assert(all.skip(0) =~= all);
            assert(target =~= out@ + encoded_items(all.skip(0)));
            let mut i: usize = 0;
            while i < items.len()
                invariant
                    *value == WireValue::Sequence(*items),
                    all == view_items(items@),
                    i <= items@.len(),
                    i < items@.len() ==> target == out@ + encoded_items(all.skip(i as int)),
                    i == items@.len() ==> target == out@,
                decreases items@.len() - i,
            {
                let ghost before = out@;
                let ghost rest = all.skip(i as int);
                assert(rest[0] == items@[i as int]@);
                assert(rest.skip(1) =~= all.skip(i + 1));
                proof {
                    assert(decreases_to!(*value => (*value)->Sequence_0));
                    assert(decreases_to!(*items => items@));
                    assert(decreases_to!(items@ => items@[i as int]));
                }
                push_value(out, &items[i]);
                if i + 1 == items.len() {
                    out.push(CLOSE_BRACKET);
                    assert(out@ =~= before + (encoded(rest[0]) + seq![CLOSE_BRACKET]));
                } else {
                    out.push(COMMA);
                    assert(out@ + encoded_items(all.skip(i + 1)) =~= before + (encoded(rest[0])
                        + seq![COMMA] + encoded_items(rest.skip(1))));
                }
                i += 1;
            }
        },
        WireValue::Mapping(entries) => {
            let ghost all = view_entries(entries@);
            let ghost target = old(out)@ + encoded(value@);
            out.push(OPEN_BRACE);
            if entries.len() == 0 {
                out.push(CLOSE_BRACE);
                assert(out@ =~= target);
                return ;
            }
            assert(all.skip(0) =~= all);
            assert(target =~= out@ + encoded_entries(all.skip(0)));
            let mut i: usize = 0;
            while i < entries.len()
                invariant
                    *value == WireValue::Mapping(*entries),
                    all == view_entries(entries@),
                    i <= entries@.len(),
                    i < entries@.len() ==> target == out@ + encoded_entries(all.skip(i as int)),
                    i == entries@.len() ==> target == out@,
                decreases entries@.len() - i,
            {
                let ghost before = out@;
                let ghost rest = all.skip(i as int);
                assert(rest[0] == (entries@[i as int].0@, entries@[i as int].1@));
                assert(rest.skip(1) =~= all.skip(i + 1));
                push_quoted(out, entries[i].0.as_slice());
                out.push(COLON);
                proof {
                    assert(decreases_to!(*value => (*value)->Mapping_0));
                    assert(decreases_to!(*entries => entries@));
                    assert(decreases_to!(entries@ => entries@[i as int]));
                    assert(decreases_to!(entries@[i as int] => entries@[i as int].1));
                }
                push_value(out, &entries[i].1);
                if i + 1 == entries.len() {
                    out.push(CLOSE_BRACE);
                    assert(out@ =~= before + (quoted(rest[0].0) + seq![COLON] + encoded(rest[0].1)
                        + seq![CLOSE_BRACE]));
                } else {
                    out.push(COMMA);
                    assert(out@ + encoded_entries(all.skip(i + 1)) =~= before + (quoted(rest[0].0)
                        + seq![COLON] + encoded(rest[0].1) + seq![COMMA] + encoded_entries(
                        rest.skip(1),
                    )));
                }
                i += 1;
            }
        },
    }
}

/// Writes a value as text.
pub fn encode(value: &WireValue) -> (text: Vec<u8>)
    ensures
        text@ == encoded(value@),
{
    let mut text: Vec<u8> = Vec::new();
    push_value(&mut text, value);
    assert(text@ =~= encoded(value@));
    text
}


/// Writes a response as the text of a body. The status is not written; it travels
/// beside the body.
pub fn encode_response(resp: crate::envelope::GenericResponse) -> (text: Vec<u8>)
    ensures
        text@ == encoded(crate::envelope::envelope_value(resp@)),
{
    let value = crate::envelope::into_value(resp);
    encode(&value)
}

} // verus!
