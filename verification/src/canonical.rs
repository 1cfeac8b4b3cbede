//! Every value that a body denotes is canonical, so it can be written and read back.

use vstd::prelude::*;
use crate::config::Config;
use crate::decode::decode_text;
use crate::depth::{entries_of, items_of, read};
use crate::encode::encoded;
use crate::grammar::{
    has_key,
    is_digit,
    parse_entries,
    parse_items,
    parse_number,
    parse_text,
    parse_value,
    skip_digits,
    skip_space,
    CLOSE_BRACE,
    CLOSE_BRACKET,
    MINUS,
    OPEN_BRACE,
    OPEN_BRACKET,
};
use crate::roundtrip::{canonical, law_value_round_trip};
use crate::wire::{NumberView, Wire};

verus! {

/// Skipping digits moves forward, and not past the end.
proof fn lemma_skip_digits_bounds(s: Seq<u8>, pos: int)
    requires
        0 <= pos <= s.len(),
    ensures
        pos <= skip_digits(s, pos) <= s.len(),
    decreases s.len() - pos,
{
    if pos < s.len() && is_digit(s[pos]) {
        lemma_skip_digits_bounds(s, pos + 1);
    }
}

/// Digits are skipped in a part of a text as they are in the text, as long as the
/// skipping stays within the part.
proof fn lemma_skip_digits_within(s: Seq<u8>, pos: int, end: int, k: int)
    requires
        0 <= pos,
        0 <= k,
        pos + k <= end <= s.len(),
        skip_digits(s, pos + k) <= end,
    ensures
        skip_digits(s.subrange(pos, end), k) == skip_digits(s, pos + k) - pos,
    decreases end - (pos + k),
{
    let part = s.subrange(pos, end);
    if pos + k < end {
        assert(part[k] == s[pos + k]);
        if is_digit(s[pos + k]) {
            lemma_skip_digits_within(s, pos, end, k + 1);
        }
    } else {
        lemma_skip_digits_bounds(s, pos + k);
    }
}

/// The text of a number with a fraction or an exponent is, on its own, that number.
#[verifier::rlimit(30)]
#[verifier::spinoff_prover]
pub proof fn lemma_decimal_canonical(s: Seq<u8>, pos: int)
    requires
        parse_number(s, pos) is Some,
        parse_number(s, pos).unwrap().0 is Decimal,
    ensures
        canonical(Wire::Number(parse_number(s, pos).unwrap().0)),
{
    let end = parse_number(s, pos).unwrap().1;
    let part = s.subrange(pos, end);
    let negative = 0 <= pos < s.len() && s[pos] == MINUS;
    let start = if negative {
        pos + 1
    } else {
        pos
    };
    lemma_skip_digits_bounds(s, start);
    let int_end = if s[start] == 0x30 {
        start + 1
    } else {
        skip_digits(s, start)
    };
    let has_fraction = 0 <= int_end < s.len() && s[int_end] == 0x2e;
    if has_fraction {
        lemma_skip_digits_bounds(s, int_end + 1);
    }
    let fraction_end = if has_fraction {
        skip_digits(s, int_end + 1)
    } else {
        int_end
    };
    let has_exponent = 0 <= fraction_end < s.len() && (s[fraction_end] == 0x65 || s[fraction_end]
        == 0x45);
    let signed = has_exponent && 0 <= fraction_end + 1 < s.len() && (s[fraction_end + 1] == 0x2b
        || s[fraction_end + 1] == MINUS);
    let exponent_start = if signed {
        fraction_end + 2
    } else {
        fraction_end + 1
    };
    if has_exponent {
        lemma_skip_digits_bounds(s, exponent_start);
    }
    lemma_skip_digits_bounds(s, start + 1);
    if has_fraction {
        lemma_skip_digits_bounds(s, int_end + 2);
    }
    if has_exponent {
        lemma_skip_digits_bounds(s, exponent_start + 1);
    }
    assert(start < int_end <= fraction_end <= end <= s.len());
    if s[start] != 0x30 {
        lemma_skip_digits_within(s, pos, end, start - pos);
    }
    if has_fraction {
        lemma_skip_digits_within(s, pos, end, int_end + 1 - pos);
    }
    if has_exponent {
        lemma_skip_digits_within(s, pos, end, exponent_start - pos);
    }
    let part_negative = 0 < part.len() && part[0] == MINUS;
    assert(part_negative == negative);
    let part_start: int = if part_negative {
        1
    } else {
        0
    };
    assert(part[part_start] == s[start]);
    let part_int_end = if part[part_start] == 0x30 {
        part_start + 1
    } else {
        skip_digits(part, part_start)
    };
    assert(part_int_end == int_end - pos);
    let part_has_fraction = 0 <= part_int_end < part.len() && part[part_int_end] == 0x2e;
    assert(part_has_fraction == has_fraction);
    let part_fraction_end = if part_has_fraction {
        skip_digits(part, part_int_end + 1)
    } else {
        part_int_end
    };
    assert(part_fraction_end == fraction_end - pos);
    let part_has_exponent = 0 <= part_fraction_end < part.len() && (part[part_fraction_end] == 0x65
        || part[part_fraction_end] == 0x45);
    assert(part_has_exponent == has_exponent);
    assert(part.subrange(0, part.len() as int) =~= part);
    assert(parse_number(part, 0) == Some((NumberView::Decimal(part), part.len() as int)));
}

/// Whatever value stands in a text is canonical.
pub proof fn lemma_value_canonical(s: Seq<u8>, pos: int, depth: nat)
    requires
        parse_value(s, pos, depth) is Some,
    ensures
        canonical(read(parse_value(s, pos, depth))),
    decreases s.len() - pos, 0nat,
{
    if s[pos] == OPEN_BRACKET {
        let first = skip_space(s, pos + 1);
        if !(first < s.len() && s[first] == CLOSE_BRACKET) {
            lemma_items_canonical(s, first, (depth - 1) as nat, Seq::empty());
        }
    } else if s[pos] == OPEN_BRACE {
        let first = skip_space(s, pos + 1);
        if !(first < s.len() && s[first] == CLOSE_BRACE) {
            lemma_entries_canonical(s, first, (depth - 1) as nat, Seq::empty());
        }
    } else if s[pos] == MINUS || is_digit(s[pos]) {
        if parse_number(s, pos).unwrap().0 is Decimal {
            lemma_decimal_canonical(s, pos);
        }
    }
}

/// Whatever sequence ends a text is canonical, where the items read before are.
pub proof fn lemma_items_canonical(s: Seq<u8>, pos: int, depth: nat, acc: Seq<Wire>)
    requires
        parse_items(s, pos, depth, acc) is Some,
        forall|i: int| 0 <= i < acc.len() ==> canonical(#[trigger] acc[i]),
    ensures
        canonical(read(parse_items(s, pos, depth, acc))),
    decreases s.len() - pos, 1nat,
{
    let (item, after) = parse_value(s, pos, depth)->0;
    lemma_value_canonical(s, pos, depth);
    let end = skip_space(s, after);
    let more = acc.push(item);
    assert forall|i: int| 0 <= i < more.len() implies canonical(#[trigger] more[i]) by {
        if i < acc.len() {
            assert(more[i] == acc[i]);
        }
    }
    if s[end] == CLOSE_BRACKET {
        assert(items_of(read(parse_items(s, pos, depth, acc))) == more);
    } else {
        lemma_items_canonical(s, skip_space(s, end + 1), depth, more);
    }
}

/// Whatever mapping ends a text is canonical, where the entries read before are and
/// no two of them share a key.
pub proof fn lemma_entries_canonical(
    s: Seq<u8>,
    pos: int,
    depth: nat,
    acc: Seq<(Seq<u8>, Wire)>,
)
    requires
        parse_entries(s, pos, depth, acc) is Some,
        forall|i: int| 0 <= i < acc.len() ==> canonical((#[trigger] acc[i]).1),
        forall|i: int, j: int|
            0 <= i < j < acc.len() ==> (#[trigger] acc[i]).0 != (#[trigger] acc[j]).0,
    ensures
        canonical(read(parse_entries(s, pos, depth, acc))),
    decreases s.len() - pos, 1nat,
{
    let (key, after_key) = parse_text(s, pos + 1, Seq::empty())->0;
    let colon = skip_space(s, after_key);
    let start = skip_space(s, colon + 1);
    let (value, after) = parse_value(s, start, depth)->0;
    lemma_value_canonical(s, start, depth);
    let end = skip_space(s, after);
    let more = acc.push((key, value));
    assert(!has_key(acc, key));
    assert forall|i: int| 0 <= i < more.len() implies canonical((#[trigger] more[i]).1) by {
        if i < acc.len() {
            assert(more[i] == acc[i]);
        }
    }
    assert forall|i: int, j: int| 0 <= i < j < more.len() implies (#[trigger] more[i]).0 != (
    #[trigger] more[j]).0 by {
        assert(more[i] == acc[i]);
        if j < acc.len() {
            assert(more[j] == acc[j]);
        } else {
            assert(acc[i].0 != key);
        }
    }
    if s[end] == CLOSE_BRACE {
        assert(entries_of(read(parse_entries(s, pos, depth, acc))) == more);
    } else {
        lemma_entries_canonical(s, skip_space(s, end + 1), depth, more);
    }
}

/// Every value that a body denotes is canonical: its integers lie in
/// `i64::MIN ..= u64::MAX`, its other numbers are spelled as such, and none of its
/// mappings names a key twice.
pub proof fn law_decoded_is_canonical(body: Seq<u8>, config: Config)
    requires
        decode_text(body, config) is Some,
    ensures
        canonical(decode_text(body, config)->0),
{
    lemma_value_canonical(body, skip_space(body, 0), config.max_decode_depth as nat);
}

/// Decoding is stable: what a body denotes is what its rewritten text denotes, as
/// long as the rewritten text is within the limit of length.
pub proof fn law_decoding_is_stable(body: Seq<u8>, config: Config)
    requires
        decode_text(body, config) is Some,
        encoded(decode_text(body, config)->0).len() <= config.max_decode_size,
    ensures
        decode_text(encoded(decode_text(body, config)->0), config) == decode_text(body, config),
{
    law_decoded_is_canonical(body, config);
    crate::depth::law_depth_bound(body, config, config);
    law_value_round_trip(decode_text(body, config)->0, config);
}

} // verus!
