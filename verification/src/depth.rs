//! How the depth limit bears on what a body denotes.

use vstd::prelude::*;
use crate::config::Config;
use crate::decode::decode_text;
use crate::grammar::{
    parse_entries,
    parse_items,
    parse_value,
    skip_space,
    CLOSE_BRACE,
    CLOSE_BRACKET,
    OPEN_BRACE,
    OPEN_BRACKET,
};
use crate::wire::{deepest, deepest_entry, Wire};

verus! {

/// The value that was read, where one was.
pub open spec fn read(r: Option<(Wire, int)>) -> Wire {
    match r {
        Some((value, _)) => value,
        None => Wire::Null,
    }
}

/// The items of a sequence.
pub open spec fn items_of(value: Wire) -> Seq<Wire> {
    match value {
        Wire::Sequence(items) => items,
        _ => Seq::empty(),
    }
}

/// The entries of a mapping.
pub open spec fn entries_of(value: Wire) -> Seq<(Seq<u8>, Wire)> {
    match value {
        Wire::Mapping(entries) => entries,
        _ => Seq::empty(),
    }
}

/// A value that is read under one depth limit is no deeper than the limit, is read
/// the same under every limit that its depth meets, and is not read under any other.
pub proof fn lemma_value_depth(s: Seq<u8>, pos: int, depth: nat, other: nat)
    requires
        parse_value(s, pos, depth) is Some,
    ensures
        read(parse_value(s, pos, depth)).depth() <= depth,
        other >= read(parse_value(s, pos, depth)).depth() ==> parse_value(s, pos, other)
            == parse_value(s, pos, depth),
        other < read(parse_value(s, pos, depth)).depth() ==> parse_value(s, pos, other) is None,
    decreases s.len() - pos, 0nat,
{
    if s[pos] == OPEN_BRACKET {
        let first = skip_space(s, pos + 1);
        if first < s.len() && s[first] == CLOSE_BRACKET {
            assert(deepest(Seq::<Wire>::empty()) == 0);
        } else {
            assert(deepest(Seq::<Wire>::empty()) == 0);
            if other > 0 {
                lemma_items_depth(s, first, (depth - 1) as nat, Seq::empty(), (other - 1) as nat);
            } else {
                lemma_items_depth(s, first, (depth - 1) as nat, Seq::empty(), 0);
            }
        }
    } else if s[pos] == OPEN_BRACE {
        let first = skip_space(s, pos + 1);
        if first < s.len() && s[first] == CLOSE_BRACE {
            assert(deepest_entry(Seq::<(Seq<u8>, Wire)>::empty()) == 0);
        } else {
            assert(deepest_entry(Seq::<(Seq<u8>, Wire)>::empty()) == 0);
            if other > 0 {
                lemma_entries_depth(s, first, (depth - 1) as nat, Seq::empty(), (other - 1) as nat);
            } else {
                lemma_entries_depth(s, first, (depth - 1) as nat, Seq::empty(), 0);
            }
        }
    }
}

/// The same for the rest of a sequence, of which the items `acc` were read before.
pub proof fn lemma_items_depth(s: Seq<u8>, pos: int, depth: nat, acc: Seq<Wire>, other: nat)
    requires
        parse_items(s, pos, depth, acc) is Some,
        deepest(acc) <= depth,
    ensures
        read(parse_items(s, pos, depth, acc)) is Sequence,
        deepest(acc) <= deepest(items_of(read(parse_items(s, pos, depth, acc)))) <= depth,
        other >= deepest(items_of(read(parse_items(s, pos, depth, acc)))) ==> parse_items(
            s,
            pos,
            other,
            acc,
        ) == parse_items(s, pos, depth, acc),
        other < deepest(items_of(read(parse_items(s, pos, depth, acc)))) && deepest(acc) <= other
            ==> parse_items(s, pos, other, acc) is None,
    decreases s.len() - pos, 1nat,
{
    let (item, after) = parse_value(s, pos, depth)->0;
    lemma_value_depth(s, pos, depth, other);
    let end = skip_space(s, after);
    let more = acc.push(item);
    assert(more.drop_last() =~= acc);
    assert(more.last() == item);
    if s[end] == CLOSE_BRACKET {
    } else {
        let next = skip_space(s, end + 1);
        lemma_items_depth(s, next, depth, more, other);
    }
}

/// The same for the rest of a mapping, of which the entries `acc` were read before.
pub proof fn lemma_entries_depth(
    s: Seq<u8>,
    pos: int,
    depth: nat,
    acc: Seq<(Seq<u8>, Wire)>,
    other: nat,
)
    requires
        parse_entries(s, pos, depth, acc) is Some,
        deepest_entry(acc) <= depth,
    ensures
        read(parse_entries(s, pos, depth, acc)) is Mapping,
        deepest_entry(acc) <= deepest_entry(entries_of(read(parse_entries(s, pos, depth, acc))))
            <= depth,
        other >= deepest_entry(entries_of(read(parse_entries(s, pos, depth, acc))))
            ==> parse_entries(s, pos, other, acc) == parse_entries(s, pos, depth, acc),
        other < deepest_entry(entries_of(read(parse_entries(s, pos, depth, acc)))) && deepest_entry(
            acc,
        ) <= other ==> parse_entries(s, pos, other, acc) is None,
    decreases s.len() - pos, 1nat,
{
    let (key, after_key) = crate::grammar::parse_text(s, pos + 1, Seq::empty())->0;
    let colon = skip_space(s, after_key);
    let start = skip_space(s, colon + 1);
    let (value, after) = parse_value(s, start, depth)->0;
    lemma_value_depth(s, start, depth, other);
    let end = skip_space(s, after);
    let more = acc.push((key, value));
    assert(more.drop_last() =~= acc);
    assert(more.last() == (key, value));
    if s[end] == CLOSE_BRACE {
    } else {
        let next = skip_space(s, end + 1);
        lemma_entries_depth(s, next, depth, more, other);
    }
}

/// The depth limit is exact. A body that denotes a value under some limit denotes a
/// value no deeper than that limit. Under any other limit of depth it denotes the
/// same value if the value's depth is within the limit, the limit itself included,
/// and nothing if the value is deeper.
pub proof fn law_depth_bound(body: Seq<u8>, config: Config, other: Config)
    requires
        decode_text(body, config) is Some,
        body.len() <= other.max_decode_size,
    ensures
        decode_text(body, config).unwrap().depth() <= config.max_decode_depth,
        other.max_decode_depth >= decode_text(body, config).unwrap().depth() ==> decode_text(body, other)
            == decode_text(body, config),
        other.max_decode_depth < decode_text(body, config).unwrap().depth() ==> decode_text(body, other)
            is None,
{
    lemma_value_depth(
        body,
        skip_space(body, 0),
        config.max_decode_depth as nat,
        other.max_decode_depth as nat,
    );
}

} // verus!
