//! Reading back what was written: a text that the encoder wrote denotes the value
//! it was written from.

use vstd::prelude::*;
use vstd::utf8::encode_scalar;
use crate::client::envelope_in;
use crate::config::Config;
use crate::decode::{decode_text, lemma_has_at};
use crate::encode::{
    digits,
    encoded,
    encoded_entries,
    encoded_items,
    escape_byte,
    escaped,
    hex_char,
    quoted,
};
use crate::envelope::{envelope_of, envelope_value, errors_of, texts_value, warnings_of, Envelope};
use crate::error::Failure;
use crate::grammar::{
    digits_value,
    has_at,
    hex4,
    hex_value,
    is_digit,
    parse_entries,
    parse_escape,
    parse_items,
    parse_number,
    parse_text,
    parse_value,
    skip_digits,
    word_false,
    word_null,
    word_true,
    BACKSLASH,
    CLOSE_BRACE,
    CLOSE_BRACKET,
    COLON,
    COMMA,
    MINUS,
    OPEN_BRACE,
    OPEN_BRACKET,
    QUOTE,
};
use crate::wire::{deepest, deepest_entry, lookup, lookup_from, texts_of, NumberView, Wire};
use crate::words::{data_key, errors_key, warnings_key};

verus! {

/// Where two words stand one after the other, each of them stands in its place.
pub proof fn lemma_has_at_split(s: Seq<u8>, pos: int, a: Seq<u8>, b: Seq<u8>)
    requires
        has_at(s, pos, a + b),
    ensures
        has_at(s, pos, a),
        has_at(s, pos + a.len(), b),
{
    let whole = s.subrange(pos, pos + (a + b).len());
    assert(s.subrange(pos, pos + a.len()) =~= (a + b).subrange(0, a.len() as int)) by {
        assert forall|k: int| 0 <= k < a.len() implies s.subrange(pos, pos + a.len())[k] == (a
            + b)[k] by {
            assert(whole[k] == s[pos + k]);
        }
    }
    assert((a + b).subrange(0, a.len() as int) =~= a);
    assert(s.subrange(pos + a.len(), pos + a.len() + b.len()) =~= b) by {
        assert forall|k: int| 0 <= k < b.len() implies s.subrange(
            pos + a.len(),
            pos + a.len() + b.len(),
        )[k] == b[k] by {
            assert(whole[a.len() + k] == s[pos + a.len() + k]);
        }
    }
}

/// An escaped control byte names the byte itself.
proof fn lemma_control_escape(s: Seq<u8>, pos: int, b: u8)
    requires
        b < 0x20,
        has_at(s, pos, escape_byte(b)),
    ensures
        parse_escape(s, pos + 1) == Some((seq![b], pos + 6)),
{
    let e = escape_byte(b);
    lemma_has_at(s, pos, e);
    assert(s[pos + 1] == e[1]);
    assert(s[pos + 2] == e[2]);
    assert(s[pos + 3] == e[3]);
    assert(s[pos + 4] == e[4]);
    assert(s[pos + 5] == e[5]);
    let high = b as int / 16;
    let low = b as int % 16;
    assert(hex_value(hex_char(high)) == Some(high as nat));
    assert(hex_value(hex_char(low)) == Some(low as nat));
    assert(hex4(s, pos + 2) == Some(b as nat));
    let unit = b as u32;
    assert(unit < 0x20 ==> (unit & 0x7F) == unit) by (bit_vector);
    assert(encode_scalar(unit) =~= seq![b]);
}

/// A text that was written is read back as it was, behind whatever was read before.
pub proof fn lemma_text_round_trip(s: Seq<u8>, pos: int, text: Seq<u8>, acc: Seq<u8>)
    requires
        has_at(s, pos, escaped(text) + seq![QUOTE]),
    ensures
        parse_text(s, pos, acc) == Some((acc + text, pos + escaped(text).len() + 1)),
    decreases text.len(),
{
    if text.len() == 0 {
        lemma_has_at(s, pos, escaped(text) + seq![QUOTE]);
        assert((escaped(text) + seq![QUOTE])[0] == QUOTE);
        assert(s[pos + 0] == QUOTE);
        assert(acc + text =~= acc);
    } else {
        let b = text[0];
        let e = escape_byte(b);
        let rest = text.skip(1);
        assert(escaped(text) + seq![QUOTE] =~= e + (escaped(rest) + seq![QUOTE]));
        lemma_has_at_split(s, pos, e, escaped(rest) + seq![QUOTE]);
        lemma_has_at(s, pos, e);
        assert(s[pos + 0] == e[0]);
        if b == QUOTE || b == BACKSLASH {
            assert(s[pos + 1] == e[1]);
            assert(parse_escape(s, pos + 1) == Some((seq![b], pos + 2)));
            lemma_text_round_trip(s, pos + 2, rest, acc + seq![b]);
        } else if b < 0x20 {
            lemma_control_escape(s, pos, b);
            lemma_text_round_trip(s, pos + 6, rest, acc + seq![b]);
        } else {
            assert(acc.push(b) =~= acc + seq![b]);
            lemma_text_round_trip(s, pos + 1, rest, acc + seq![b]);
        }
        assert((acc + seq![b]) + rest =~= acc + text);
    }
}

/// The digits of a number are digits, and the first of them is a zero only for zero.
pub proof fn lemma_digits_shape(n: nat)
    ensures
        digits(n).len() >= 1,
        forall|k: int| 0 <= k < digits(n).len() ==> is_digit(#[trigger] digits(n)[k]),
        n > 0 ==> digits(n)[0] != 0x30,
        n == 0 ==> digits(n) == seq![0x30u8],
    decreases n,
{
    if n >= 10 {
        lemma_digits_shape(n / 10);
    }
}

/// A run of digits ends where the digits end.
pub proof fn lemma_skip_digits_run(s: Seq<u8>, pos: int, len: nat)
    requires
        0 <= pos,
        pos + len <= s.len(),
        forall|k: int| 0 <= k < len ==> is_digit(#[trigger] s[pos + k]),
        pos + len == s.len() || !is_digit(s[pos + len]),
    ensures
        skip_digits(s, pos) == pos + len,
    decreases len,
{
    if len > 0 {
        assert(is_digit(s[pos + 0]));
        assert forall|k: int| 0 <= k < len - 1 implies is_digit(#[trigger] s[pos + 1 + k]) by {
            assert(is_digit(s[pos + (k + 1)]));
        }
        lemma_skip_digits_run(s, pos + 1, (len - 1) as nat);
    }
}

/// The digits of a number spell that number.
pub proof fn lemma_digits_value(s: Seq<u8>, pos: int, n: nat)
    requires
        has_at(s, pos, digits(n)),
    ensures
        digits_value(s, pos, pos + digits(n).len()) == n,
    decreases n,
{
    let d = digits(n);
    lemma_has_at(s, pos, d);
    if n < 10 {
        assert(s[pos + 0] == d[0]);
        assert(digits_value(s, pos, pos) == 0);
    } else {
        let front = digits(n / 10);
        assert(d =~= front + seq![(0x30 + n % 10) as u8]);
        lemma_has_at_split(s, pos, front, seq![(0x30 + n % 10) as u8]);
        lemma_digits_value(s, pos, n / 10);
        assert(s[pos + front.len()] == d[front.len() as int]);
    }
}

/// Whether a value may end at `pos`: at the end of the text, or before a comma or a
/// closing bracket or brace.
pub open spec fn ends_value(s: Seq<u8>, pos: int) -> bool {
    pos == s.len() || (0 <= pos < s.len() && (s[pos] == COMMA || s[pos] == CLOSE_BRACKET || s[pos]
        == CLOSE_BRACE))
}

/// A non-negative integer that was written is read back.
pub proof fn lemma_natural_round_trip(s: Seq<u8>, pos: int, n: nat)
    requires
        has_at(s, pos, digits(n)),
        ends_value(s, pos + digits(n).len()),
        n <= u64::MAX,
    ensures
        parse_number(s, pos) == Some((NumberView::Integer(n as int), pos + digits(n).len())),
{
    let d = digits(n);
    lemma_digits_shape(n);
    lemma_has_at(s, pos, d);
    lemma_digits_value(s, pos, n);
    assert(s[pos + 0] == d[0]);
    assert forall|k: int| 0 <= k < d.len() implies is_digit(#[trigger] s[pos + k]) by {
        assert(s[pos + k] == d[k]);
    }
    lemma_skip_digits_run(s, pos, d.len());
}

/// A negative integer that was written is read back.
pub proof fn lemma_negative_round_trip(s: Seq<u8>, pos: int, n: nat)
    requires
        has_at(s, pos, seq![MINUS] + digits(n)),
        ends_value(s, pos + 1 + digits(n).len()),
        0 < n <= 0x8000_0000_0000_0000,
    ensures
        parse_number(s, pos) == Some((NumberView::Integer(-(n as int)), pos + 1 + digits(n).len())),
{
    let d = digits(n);
    lemma_has_at_split(s, pos, seq![MINUS], d);
    lemma_has_at(s, pos, seq![MINUS]);
    assert(s[pos + 0] == seq![MINUS][0]);
    lemma_digits_shape(n);
    lemma_has_at(s, pos + 1, d);
    lemma_digits_value(s, pos + 1, n);
    assert(s[pos + 1 + 0] == d[0]);
    assert forall|k: int| 0 <= k < d.len() implies is_digit(#[trigger] s[pos + 1 + k]) by {
        assert(s[pos + 1 + k] == d[k]);
    }
    lemma_skip_digits_run(s, pos + 1, d.len());
}


/// Where a one-byte word stands, the byte stands.
pub proof fn lemma_has_byte(s: Seq<u8>, pos: int, b: u8)
    requires
        has_at(s, pos, seq![b]),
    ensures
        0 <= pos < s.len(),
        s[pos] == b,
{
    lemma_has_at(s, pos, seq![b]);
    assert(s[pos + 0] == seq![b][0]);
}

/// A text that was written between quotes is read back.
pub proof fn lemma_quoted_round_trip(s: Seq<u8>, pos: int, text: Seq<u8>)
    requires
        has_at(s, pos, quoted(text)),
    ensures
        0 <= pos < s.len(),
        s[pos] == QUOTE,
        parse_text(s, pos + 1, Seq::empty()) == Some((text, pos + quoted(text).len())),
{
    assert(quoted(text) =~= seq![QUOTE] + (escaped(text) + seq![QUOTE]));
    lemma_has_at_split(s, pos, seq![QUOTE], escaped(text) + seq![QUOTE]);
    lemma_has_byte(s, pos, QUOTE);
    lemma_text_round_trip(s, pos + 1, text, Seq::empty());
    assert(Seq::<u8>::empty() + text =~= text);
}

/// Whether a value can be written and read back as it is: its integers lie in
/// `i64::MIN ..= u64::MAX`, its other numbers are spelled as numbers with a fraction
/// or an exponent, and none of its mappings names a key twice.
pub open spec fn canonical(value: Wire) -> bool
    decreases value,
{
    match value {
        Wire::Number(NumberView::Integer(v)) => i64::MIN <= v <= u64::MAX,
        Wire::Number(NumberView::Decimal(text)) => parse_number(text, 0) == Some(
            (NumberView::Decimal(text), text.len() as int),
        ),
        Wire::Sequence(items) => forall|i: int|
            0 <= i < items.len() ==> canonical(#[trigger] items[i]),
        Wire::Mapping(entries) => {
            &&& forall|i: int| 0 <= i < entries.len() ==> canonical((#[trigger] entries[i]).1)
            &&& forall|i: int, j: int|
                0 <= i < j < entries.len() ==> (#[trigger] entries[i]).0 != (
                #[trigger] entries[j]).0
        },
        _ => true,
    }
}

/// Whether a byte can be the first of a value.
pub open spec fn opens_value(b: u8) -> bool {
    b == 0x6e || b == 0x74 || b == 0x66 || b == QUOTE || b == OPEN_BRACKET || b == OPEN_BRACE || b
        == MINUS || is_digit(b)
}

/// What is written for a value is not empty and starts as a value does.
pub proof fn lemma_first_byte(value: Wire)
    requires
        canonical(value),
    ensures
        encoded(value).len() > 0,
        opens_value(encoded(value)[0]),
{
    match value {
        Wire::Number(NumberView::Integer(v)) => {
            if v < 0 {
                lemma_digits_shape((-v) as nat);
            } else {
                lemma_digits_shape(v as nat);
            }
        },
        _ => {},
    }
}

/// No item is deeper than the deepest.
pub proof fn lemma_deepest(items: Seq<Wire>, i: int)
    requires
        0 <= i < items.len(),
    ensures
        items[i].depth() <= deepest(items),
    decreases items.len(),
{
    if i < items.len() - 1 {
        lemma_deepest(items.drop_last(), i);
    }
}

/// No entry's value is deeper than the deepest.
pub proof fn lemma_deepest_entry(entries: Seq<(Seq<u8>, Wire)>, i: int)
    requires
        0 <= i < entries.len(),
    ensures
        entries[i].1.depth() <= deepest_entry(entries),
    decreases entries.len(),
{
    if i < entries.len() - 1 {
        lemma_deepest_entry(entries.drop_last(), i);
    }
}


/// Digits are skipped in a text as they are in a word that stands in it, where the
/// word is not followed by a digit.
proof fn lemma_skip_digits_shift(s: Seq<u8>, pos: int, word: Seq<u8>, k: int)
    requires
        has_at(s, pos, word),
        0 <= k <= word.len(),
        pos + word.len() == s.len() || !is_digit(s[pos + word.len()]),
    ensures
        skip_digits(s, pos + k) == pos + skip_digits(word, k),
    decreases word.len() - k,
{
    lemma_has_at(s, pos, word);
    if k < word.len() {
        assert(s[pos + k] == word[k]);
        if is_digit(word[k]) {
            lemma_skip_digits_shift(s, pos, word, k + 1);
        }
    }
}

/// The byte of a word that stands in a text is the byte of the text.
proof fn lemma_byte_of_word(s: Seq<u8>, pos: int, word: Seq<u8>, k: int)
    requires
        has_at(s, pos, word),
    ensures
        0 <= k < word.len() ==> s[pos + k] == word[k],
{
    lemma_has_at(s, pos, word);
    if 0 <= k < word.len() {
        assert(s[pos + k] == word[k]);
    }
}

/// A number with a fraction or an exponent that was written is read back.
pub proof fn lemma_decimal_round_trip(s: Seq<u8>, pos: int, text: Seq<u8>)
    requires
        has_at(s, pos, text),
        parse_number(text, 0) == Some((NumberView::Decimal(text), text.len() as int)),
        ends_value(s, pos + text.len()),
    ensures
        parse_number(s, pos) == Some((NumberView::Decimal(text), pos + text.len())),
{
    let negative = 0 < text.len() && text[0] == MINUS;
    let start: int = if negative {
        1
    } else {
        0
    };
    let int_end = if text[start] == 0x30 {
        start + 1
    } else {
        skip_digits(text, start)
    };
    let has_fraction = 0 <= int_end < text.len() && text[int_end] == 0x2e;
    let fraction_end = if has_fraction {
        skip_digits(text, int_end + 1)
    } else {
        int_end
    };
    let has_exponent = 0 <= fraction_end < text.len() && (text[fraction_end] == 0x65
        || text[fraction_end] == 0x45);
    let signed = has_exponent && 0 <= fraction_end + 1 < text.len() && (text[fraction_end + 1]
        == 0x2b || text[fraction_end + 1] == MINUS);
    let exponent_start = if signed {
        fraction_end + 2
    } else {
        fraction_end + 1
    };
    lemma_byte_of_word(s, pos, text, 0);
    lemma_byte_of_word(s, pos, text, start);
    lemma_byte_of_word(s, pos, text, int_end);
    lemma_byte_of_word(s, pos, text, int_end + 1);
    lemma_byte_of_word(s, pos, text, fraction_end);
    lemma_byte_of_word(s, pos, text, fraction_end + 1);
    lemma_byte_of_word(s, pos, text, exponent_start);
    lemma_skip_digits_shift(s, pos, text, start);
    if has_fraction {
        lemma_skip_digits_shift(s, pos, text, int_end + 1);
    }
    if has_exponent {
        lemma_skip_digits_shift(s, pos, text, exponent_start);
    }
    assert(s.subrange(pos, pos + text.len()) == text);
}

/// A value that was written is read back as it was, under any depth limit that the
/// value's depth meets.
pub proof fn lemma_value_round_trip(s: Seq<u8>, pos: int, value: Wire, depth: nat)
    requires
        has_at(s, pos, encoded(value)),
        canonical(value),
        value.depth() <= depth,
        ends_value(s, pos + encoded(value).len()),
    ensures
        parse_value(s, pos, depth) == Some((value, pos + encoded(value).len())),
    decreases value,
{
    lemma_first_byte(value);
    lemma_byte_of_word(s, pos, encoded(value), 0);
    match value {
        Wire::Null => {
            assert(word_null()[0] == 0x6e && word_null().len() == 4);
        },
        Wire::Bool(b) => {
            assert(word_true()[0] == 0x74 && word_true().len() == 4);
            assert(word_false()[0] == 0x66 && word_false().len() == 5);
        },
        Wire::Number(NumberView::Integer(v)) => {
            if v < 0 {
                lemma_negative_round_trip(s, pos, (-v) as nat);
            } else {
                lemma_natural_round_trip(s, pos, v as nat);
            }
        },
        Wire::Number(NumberView::Decimal(text)) => {
            lemma_decimal_round_trip(s, pos, text);
        },
        Wire::String(text) => {
            lemma_quoted_round_trip(s, pos, text);
        },
        Wire::Sequence(items) => {
            if items.len() == 0 {
                lemma_byte_of_word(s, pos, encoded(value), 1);
                assert(deepest(items) == 0);
                assert(items =~= Seq::<Wire>::empty());
            } else {
                lemma_has_at_split(s, pos, seq![OPEN_BRACKET], encoded_items(items));
                lemma_first_byte(items[0]);
                lemma_byte_of_word(s, pos + 1, encoded_items(items), 0);
                assert forall|i: int| 0 <= i < items.len() implies (#[trigger] items[i]).depth()
                    <= depth - 1 by {
                    lemma_deepest(items, i);
                }
                lemma_items_round_trip(s, pos + 1, items, Seq::empty(), (depth - 1) as nat);
                assert(Seq::<Wire>::empty() + items =~= items);
            }
        },
        Wire::Mapping(entries) => {
            if entries.len() == 0 {
                lemma_byte_of_word(s, pos, encoded(value), 1);
                assert(deepest_entry(entries) == 0);
                assert(entries =~= Seq::<(Seq<u8>, Wire)>::empty());
            } else {
                lemma_has_at_split(s, pos, seq![OPEN_BRACE], encoded_entries(entries));
                lemma_byte_of_word(s, pos + 1, encoded_entries(entries), 0);
                assert forall|i: int| 0 <= i < entries.len() implies (
                #[trigger] entries[i]).1.depth() <= depth - 1 by {
                    lemma_deepest_entry(entries, i);
                }
                lemma_entries_round_trip(s, pos + 1, entries, Seq::empty(), (depth - 1) as nat);
                assert(Seq::<(Seq<u8>, Wire)>::empty() + entries =~= entries);
            }
        },
    }
}

/// The items of a sequence that were written are read back behind the items that
/// were read before.
pub proof fn lemma_items_round_trip(
    s: Seq<u8>,
    pos: int,
    items: Seq<Wire>,
    acc: Seq<Wire>,
    depth: nat,
)
    requires
        items.len() > 0,
        has_at(s, pos, encoded_items(items)),
        forall|i: int| 0 <= i < items.len() ==> canonical(#[trigger] items[i]),
        forall|i: int| 0 <= i < items.len() ==> (#[trigger] items[i]).depth() <= depth,
    ensures
        parse_items(s, pos, depth, acc) == Some(
            (Wire::Sequence(acc + items), pos + encoded_items(items).len()),
        ),
    decreases items,
{
    let item = items[0];
    let e = encoded(item);
    let rest = items.skip(1);
    lemma_first_byte(item);
    if items.len() == 1 {
        lemma_has_at_split(s, pos, e, seq![CLOSE_BRACKET]);
        lemma_has_byte(s, pos + e.len(), CLOSE_BRACKET);
        lemma_value_round_trip(s, pos, item, depth);
        assert(acc.push(item) =~= acc + items);
    } else {
        lemma_has_at_split(s, pos, e + seq![COMMA], encoded_items(rest));
        lemma_has_at_split(s, pos, e, seq![COMMA]);
        lemma_has_byte(s, pos + e.len(), COMMA);
        lemma_value_round_trip(s, pos, item, depth);
        assert forall|i: int| 0 <= i < rest.len() implies canonical(#[trigger] rest[i])
            && rest[i].depth() <= depth by {
            assert(rest[i] == items[i + 1]);
        }
        lemma_first_byte(rest[0]);
        lemma_byte_of_word(s, pos + e.len() + 1, encoded_items(rest), 0);
        lemma_items_round_trip(s, pos + e.len() + 1, rest, acc.push(item), depth);
        assert(acc.push(item) + rest =~= acc + items);
    }
}

/// The entries of a mapping that were written are read back behind the entries that
/// were read before, where no key comes twice.
pub proof fn lemma_entries_round_trip(
    s: Seq<u8>,
    pos: int,
    entries: Seq<(Seq<u8>, Wire)>,
    acc: Seq<(Seq<u8>, Wire)>,
    depth: nat,
)
    requires
        entries.len() > 0,
        has_at(s, pos, encoded_entries(entries)),
        forall|i: int| 0 <= i < entries.len() ==> canonical((#[trigger] entries[i]).1),
        forall|i: int| 0 <= i < entries.len() ==> (#[trigger] entries[i]).1.depth() <= depth,
        forall|i: int, j: int|
            0 <= i < j < entries.len() ==> (#[trigger] entries[i]).0 != (#[trigger] entries[j]).0,
        forall|i: int, j: int|
            0 <= i < acc.len() && 0 <= j < entries.len() ==> (#[trigger] acc[i]).0 != (
            #[trigger] entries[j]).0,
    ensures
        parse_entries(s, pos, depth, acc) == Some(
            (Wire::Mapping(acc + entries), pos + encoded_entries(entries).len()),
        ),
    decreases entries,
{
    let key = entries[0].0;
    let value = entries[0].1;
    let q = quoted(key);
    let e = encoded(value);
    let rest = entries.skip(1);
    let more = acc.push((key, value));
    lemma_first_byte(value);
    if entries.len() == 1 {
        lemma_has_at_split(s, pos, q + seq![COLON] + e, seq![CLOSE_BRACE]);
        lemma_has_byte(s, pos + q.len() + 1 + e.len(), CLOSE_BRACE);
    } else {
        lemma_has_at_split(s, pos, q + seq![COLON] + e + seq![COMMA], encoded_entries(rest));
        lemma_has_at_split(s, pos, q + seq![COLON] + e, seq![COMMA]);
        lemma_has_byte(s, pos + q.len() + 1 + e.len(), COMMA);
    }
    lemma_has_at_split(s, pos, q + seq![COLON], e);
    lemma_has_at_split(s, pos, q, seq![COLON]);
    lemma_has_byte(s, pos + q.len(), COLON);
    lemma_quoted_round_trip(s, pos, key);
    lemma_byte_of_word(s, pos + q.len() + 1, e, 0);
    lemma_value_round_trip(s, pos + q.len() + 1, value, depth);
    assert(!crate::grammar::has_key(acc, key)) by {
        if crate::grammar::has_key(acc, key) {
            let i = choose|i: int| 0 <= i < acc.len() && (#[trigger] acc[i]).0 == key;
            assert(acc[i].0 != entries[0].0);
        }
    }
    if entries.len() == 1 {
        assert(more =~= acc + entries);
    } else {
        assert forall|i: int| 0 <= i < rest.len() implies canonical((#[trigger] rest[i]).1)
            && rest[i].1.depth() <= depth by {
            assert(rest[i] == entries[i + 1]);
        }
        assert forall|i: int, j: int| 0 <= i < j < rest.len() implies (#[trigger] rest[i]).0 != (
        #[trigger] rest[j]).0 by {
            assert(rest[i] == entries[i + 1]);
            assert(rest[j] == entries[j + 1]);
        }
        assert forall|i: int, j: int| 0 <= i < more.len() && 0 <= j < rest.len() implies (
        #[trigger] more[i]).0 != (#[trigger] rest[j]).0 by {
            assert(rest[j] == entries[j + 1]);
            if i < acc.len() {
                assert(more[i] == acc[i]);
            } else {
                assert(more[i] == entries[0]);
            }
        }
        assert(quoted(rest[0].0)[0] == QUOTE);
        lemma_byte_of_word(s, pos + q.len() + 1 + e.len() + 1, encoded_entries(rest), 0);
        lemma_entries_round_trip(s, pos + q.len() + 1 + e.len() + 1, rest, more, depth);
        assert(more + rest =~= acc + entries);
    }
}


/// Writing a value and decoding the text gives the value back, for every canonical
/// value whose depth and whose text's length are within the limits.
pub proof fn law_value_round_trip(value: Wire, config: Config)
    requires
        canonical(value),
        value.depth() <= config.max_decode_depth,
        encoded(value).len() <= config.max_decode_size,
    ensures
        decode_text(encoded(value), config) == Some(value),
{
    let s = encoded(value);
    lemma_first_byte(value);
    assert(s.subrange(0, s.len() as int) =~= s);
    lemma_value_round_trip(s, 0, value, config.max_decode_depth as nat);
}

/// The sequence of a list of texts is canonical, one level deep, and gives the
/// texts back.
pub proof fn lemma_texts_value(texts: Seq<Seq<u8>>)
    ensures
        canonical(texts_value(texts)),
        texts_value(texts).depth() == 1,
        texts_of(texts_value(texts)) == Some(texts),
{
    let items = crate::depth::items_of(texts_value(texts));
    assert(texts_of(texts_value(texts))->0 =~= texts);
    assert forall|i: int| 0 <= i < items.len() implies canonical(#[trigger] items[i]) by {
        assert(items[i] is String);
    }
    lemma_flat(items);
}

/// A list of texts is nowhere deep.
proof fn lemma_flat(items: Seq<Wire>)
    requires
        forall|i: int| 0 <= i < items.len() ==> (#[trigger] items[i]) is String,
    ensures
        deepest(items) == 0,
    decreases items.len(),
{
    if items.len() > 0 {
        assert(items[items.len() - 1] is String);
        assert(items.last().depth() == 0);
        assert forall|i: int| 0 <= i < items.drop_last().len() implies (
        #[trigger] items.drop_last()[i]) is String by {
            assert(items[i] is String);
        }
        lemma_flat(items.drop_last());
    }
}

/// An envelope as a value gives the envelope back, unless it reports success and
/// carries a null payload.
pub proof fn lemma_envelope_value(envelope: Envelope)
    requires
        !(envelope.success && envelope.data == Some(Wire::Null)),
    ensures
        envelope_of(envelope.success, envelope_value(envelope)) == Ok::<Envelope, Failure>(
            envelope,
        ),
{
    let entries = crate::depth::entries_of(envelope_value(envelope));
    lemma_texts_value(envelope.errors);
    if let Some(texts) = envelope.warnings {
        lemma_texts_value(texts);
    }
    assert(errors_key().len() == 6 && warnings_key().len() == 8 && data_key().len() == 4);
    assert(lookup_from(entries, errors_key(), 3) is None);
    assert(lookup_from(entries, warnings_key(), 3) is None);
    assert(lookup_from(entries, data_key(), 3) is None);
    assert(lookup_from(entries, warnings_key(), 2) == lookup_from(entries, warnings_key(), 3));
    assert(lookup_from(entries, data_key(), 2) == if entries.len() == 3 {
        envelope.data
    } else {
        None
    });
    assert(lookup_from(entries, warnings_key(), 1) == match envelope.warnings {
        Some(texts) => Some(texts_value(texts)),
        None => None,
    });
    assert(lookup_from(entries, data_key(), 1) == envelope.data);
    assert(lookup(entries, errors_key()) == Some(texts_value(envelope.errors)));
    assert(lookup(entries, warnings_key()) == lookup_from(entries, warnings_key(), 1));
    assert(lookup(entries, data_key()) == envelope.data);
    assert(errors_of(entries) == Some(envelope.errors));
    assert(warnings_of(entries) == Some(envelope.warnings));
}

/// An envelope as a value is canonical where its payload is.
pub proof fn lemma_envelope_canonical(envelope: Envelope)
    requires
        envelope.data matches Some(value) ==> canonical(value),
    ensures
        canonical(envelope_value(envelope)),
{
    let entries = crate::depth::entries_of(envelope_value(envelope));
    lemma_texts_value(envelope.errors);
    if let Some(texts) = envelope.warnings {
        lemma_texts_value(texts);
    }
    assert(errors_key().len() == 6 && warnings_key().len() == 8 && data_key().len() == 4);
    assert forall|i: int| 0 <= i < entries.len() implies canonical((#[trigger] entries[i]).1) by {}
    assert forall|i: int, j: int| 0 <= i < j < entries.len() implies (#[trigger] entries[i]).0 != (
    #[trigger] entries[j]).0 by {}
}

/// Writing a response and reading the body back gives the response back: its status,
/// errors, warnings and payload. This holds of every response whose payload, if it
/// has one, is canonical and, where the response reports success, not null, as long
/// as the body is within the limits of depth and length.
pub proof fn law_response_round_trip(envelope: Envelope, config: Config)
    requires
        envelope.data matches Some(value) ==> canonical(value),
        !(envelope.success && envelope.data == Some(Wire::Null)),
        envelope_value(envelope).depth() <= config.max_decode_depth,
        encoded(envelope_value(envelope)).len() <= config.max_decode_size,
    ensures
        envelope_in(envelope.success, encoded(envelope_value(envelope)), config) == Ok::<
            Envelope,
            Failure,
        >(envelope),
{
    lemma_envelope_canonical(envelope);
    law_value_round_trip(envelope_value(envelope), config);
    lemma_envelope_value(envelope);
}

/// The same for a response whose payload is a text: two levels of depth are enough.
pub proof fn law_text_response_round_trip(envelope: Envelope, config: Config)
    requires
        envelope.data matches Some(value) && value is String,
        config.max_decode_depth >= 2,
        encoded(envelope_value(envelope)).len() <= config.max_decode_size,
    ensures
        envelope_in(envelope.success, encoded(envelope_value(envelope)), config) == Ok::<
            Envelope,
            Failure,
        >(envelope),
{
    let entries = crate::depth::entries_of(envelope_value(envelope));
    lemma_texts_value(envelope.errors);
    if let Some(texts) = envelope.warnings {
        lemma_texts_value(texts);
    }
    lemma_shallow(entries);
    law_response_round_trip(envelope, config);
}

/// Entries whose values are at most one level deep are at most one level deep.
proof fn lemma_shallow(entries: Seq<(Seq<u8>, Wire)>)
    requires
        forall|i: int| 0 <= i < entries.len() ==> (#[trigger] entries[i]).1.depth() <= 1,
    ensures
        deepest_entry(entries) <= 1,
    decreases entries.len(),
{
    if entries.len() > 0 {
        assert(entries[entries.len() - 1].1.depth() <= 1);
        assert forall|i: int| 0 <= i < entries.drop_last().len() implies (
        #[trigger] entries.drop_last()[i]).1.depth() <= 1 by {
            assert(entries[i].1.depth() <= 1);
        }
        lemma_shallow(entries.drop_last());
    }
}

} // verus!
