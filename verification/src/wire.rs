//! The untyped value that a response body denotes.

use vstd::prelude::*;
use crate::bytes::{bytes_eq, copy_bytes, view_texts};

verus! {

/// A number as it stood in the text: an integer, or the digits of a number with a
/// fraction or an exponent, kept as written.
#[derive(Clone, Debug, PartialEq, Eq)]
pub enum Number {
    Integer(i128),
    Decimal(Vec<u8>),
}

/// The mathematical value of a [`Number`].
pub enum NumberView {
    Integer(int),
    Decimal(Seq<u8>),
}

impl View for Number {
    type V = NumberView;

    open spec fn view(&self) -> NumberView {
        match self {
            Number::Integer(n) => NumberView::Integer(*n as int),
            Number::Decimal(text) => NumberView::Decimal(text@),
        }
    }
}

/// A decoded body, before any meaning is given to it. Text is kept as the bytes that
/// the body spelled. A mapping lists its entries in the order of the text.
#[derive(Debug, PartialEq, Eq)]
pub enum WireValue {
    Null,
    Bool(bool),
    Number(Number),
    String(Vec<u8>),
    Sequence(Vec<WireValue>),
    Mapping(Vec<(Vec<u8>, WireValue)>),
}

/// The mathematical value of a [`WireValue`].
pub enum Wire {
    Null,
    Bool(bool),
    Number(NumberView),
    String(Seq<u8>),
    Sequence(Seq<Wire>),
    Mapping(Seq<(Seq<u8>, Wire)>),
}

/// The values of a list of items, in order.
pub open spec fn view_items(items: Seq<WireValue>) -> Seq<Wire>
    decreases items,
{
    Seq::new(
        items.len(),
        |i: int|
            if 0 <= i < items.len() {
                items[i].view()
            } else {
                Wire::Null
            },
    )
}

/// The keys and values of a list of entries, in order.
pub open spec fn view_entries(entries: Seq<(Vec<u8>, WireValue)>) -> Seq<(Seq<u8>, Wire)>
    decreases entries,
{
    Seq::new(
        entries.len(),
        |i: int|
            if 0 <= i < entries.len() {
                (entries[i].0@, entries[i].1.view())
            } else {
                (Seq::empty(), Wire::Null)
            },
    )
}

impl View for WireValue {
    type V = Wire;

    open spec fn view(&self) -> Wire
        decreases self,
    {
        match self {
            WireValue::Null => Wire::Null,
            WireValue::Bool(b) => Wire::Bool(*b),
            WireValue::Number(n) => Wire::Number(n@),
            WireValue::String(text) => Wire::String(text@),
            WireValue::Sequence(items) => Wire::Sequence(view_items(items@)),
            WireValue::Mapping(entries) => Wire::Mapping(view_entries(entries@)),
        }
    }
}

} // verus!

verus! {

/// The value of a list with one more item is the list's value with the item's value.
pub proof fn lemma_view_items_push(items: Seq<WireValue>, item: WireValue)
    ensures
        view_items(items.push(item)) == view_items(items).push(item@),
{
    assert(view_items(items.push(item)) =~= view_items(items).push(item@));
}

/// The value of a list with one more entry is the list's value with the entry's value.
pub proof fn lemma_view_entries_push(entries: Seq<(Vec<u8>, WireValue)>, key: Vec<u8>, value: WireValue)
    ensures
        view_entries(entries.push((key, value))) == view_entries(entries).push((key@, value@)),
{
    assert(view_entries(entries.push((key, value))) =~= view_entries(entries).push(
        (key@, value@),
    ));
}

} // verus!

verus! {

/// The value of the first entry at or after `from` whose key is `key`.
pub open spec fn lookup_from(entries: Seq<(Seq<u8>, Wire)>, key: Seq<u8>, from: int) -> Option<
    Wire,
>
    decreases entries.len() - from,
{
    if !(0 <= from < entries.len()) {
        None
    } else if entries[from].0 == key {
        Some(entries[from].1)
    } else {
        lookup_from(entries, key, from + 1)
    }
}

/// The value that a mapping gives to `key`: that of the first entry with that key.
pub open spec fn lookup(entries: Seq<(Seq<u8>, Wire)>, key: Seq<u8>) -> Option<Wire> {
    lookup_from(entries, key, 0)
}

/// The text of a value that is a text.
pub open spec fn text_of(value: Wire) -> Option<Seq<u8>> {
    match value {
        Wire::String(text) => Some(text),
        _ => None,
    }
}

/// The texts of a value that is a sequence of texts, in order.
pub open spec fn texts_of(value: Wire) -> Option<Seq<Seq<u8>>> {
    match value {
        Wire::Sequence(items) => {
            if forall|i: int| 0 <= i < items.len() ==> text_of(#[trigger] items[i]) is Some {
                Some(Seq::new(items.len(), |i: int| text_of(items[i])->0))
            } else {
                None
            }
        },
        _ => None,
    }
}

/// The value of an optional value.
pub open spec fn view_option(value: Option<WireValue>) -> Option<Wire> {
    match value {
        Some(v) => Some(v@),
        None => None,
    }
}

/// Finds the value that a mapping gives to `key`.
pub fn find<'a>(entries: &'a Vec<(Vec<u8>, WireValue)>, key: &[u8]) -> (found: Option<
    &'a WireValue,
>)
    ensures
        match found {
            Some(value) => lookup(view_entries(entries@), key@) == Some(value@),
            None => lookup(view_entries(entries@), key@) is None,
        },
{
    let mut i: usize = 0;
    while i < entries.len()
        invariant
            i <= entries@.len(),
            lookup(view_entries(entries@), key@) == lookup_from(
                view_entries(entries@),
                key@,
                i as int,
            ),
        decreases entries@.len() - i,
    {
        if bytes_eq(entries[i].0.as_slice(), key) {
            return Some(&entries[i].1);
        }
        i += 1;
    }
    None
}

/// Copies the texts out of a value that is a sequence of texts.
pub fn texts_of_value(value: &WireValue) -> (texts: Option<Vec<Vec<u8>>>)
    ensures
        match texts {
            Some(t) => texts_of(value@) == Some(view_texts(t@)),
            None => texts_of(value@) is None,
        },
{
    match value {
        WireValue::Sequence(items) => {
            assert(value@ == Wire::Sequence(view_items(items@)));
            let mut out: Vec<Vec<u8>> = Vec::new();
            let mut i: usize = 0;
            while i < items.len()
                invariant
                    value@ == Wire::Sequence(view_items(items@)),
                    i <= items@.len(),
                    out@.len() == i,
                    forall|j: int|
                        0 <= j < i ==> text_of(#[trigger] view_items(items@)[j]) == Some(
                            out@[j]@,
                        ),
                decreases items@.len() - i,
            {
                assert(view_items(items@)[i as int] == items@[i as int]@);
                match &items[i] {
                    WireValue::String(text) => {
                        out.push(copy_bytes(text.as_slice()));
                    },
                    _ => {
                        assert(text_of(view_items(items@)[i as int]) is None);
                        return None;
                    },
                }
                i += 1;
            }
            assert(texts_of(value@) is Some);
            assert(view_texts(out@) =~= texts_of(value@)->0);
            Some(out)
        },
        _ => None,
    }
}

} // verus!

verus! {

impl Wire {
    /// How many sequences and mappings are open at the deepest place of a value.
    pub open spec fn depth(self) -> nat
        decreases self,
    {
        match self {
            Wire::Sequence(items) => 1 + deepest(items),
            Wire::Mapping(entries) => 1 + deepest_entry(entries),
            _ => 0,
        }
    }
}

/// The depth of the deepest of `items`.
pub open spec fn deepest(items: Seq<Wire>) -> nat
    decreases items,
{
    if items.len() == 0 {
        0
    } else {
        let rest = deepest(items.drop_last());
        let last = items.last().depth();
        if last > rest {
            last
        } else {
            rest
        }
    }
}

/// The depth of the deepest value of `entries`.
pub open spec fn deepest_entry(entries: Seq<(Seq<u8>, Wire)>) -> nat
    decreases entries,
{
    if entries.len() == 0 {
        0
    } else {
        let rest = deepest_entry(entries.drop_last());
        let last = entries.last().1.depth();
        if last > rest {
            last
        } else {
            rest
        }
    }
}

} // verus!

verus! {

impl Clone for WireValue {
    /// A copy with the same value, however deep.
    fn clone(&self) -> (copy: Self)
        ensures
            copy@ == self@,
        decreases self,
    {
        match self {
            WireValue::Null => WireValue::Null,
            WireValue::Bool(b) => WireValue::Bool(*b),
            WireValue::Number(Number::Integer(n)) => WireValue::Number(Number::Integer(*n)),
            WireValue::Number(Number::Decimal(text)) => WireValue::Number(
                Number::Decimal(copy_bytes(text.as_slice())),
            ),
            WireValue::String(text) => WireValue::String(copy_bytes(text.as_slice())),
            WireValue::Sequence(items) => {
                let mut copies: Vec<WireValue> = Vec::new();
                let mut i: usize = 0;
                while i < items.len()
                    invariant
                        *self == WireValue::Sequence(*items),
                        i <= items@.len(),
                        copies@.len() == i,
                        forall|j: int| 0 <= j < i ==> (#[trigger] copies@[j])@ == items@[j]@,
                    decreases items@.len() - i,
                {
                    proof {
                        assert(decreases_to!(*self => (*self)->Sequence_0));
                        assert(decreases_to!(*items => items@));
                        assert(decreases_to!(items@ => items@[i as int]));
                    }
                    copies.push(items[i].clone());
                    i += 1;
                }
                assert(view_items(copies@) =~= view_items(items@));
                WireValue::Sequence(copies)
            },
            WireValue::Mapping(entries) => {
                let mut copies: Vec<(Vec<u8>, WireValue)> = Vec::new();
                let mut i: usize = 0;
                while i < entries.len()
                    invariant
                        *self == WireValue::Mapping(*entries),
                        i <= entries@.len(),
                        copies@.len() == i,
                        forall|j: int|
                            0 <= j < i ==> (#[trigger] copies@[j]).0@ == entries@[j].0@
                                && copies@[j].1@ == entries@[j].1@,
                    decreases entries@.len() - i,
                {
                    proof {
                        assert(decreases_to!(*self => (*self)->Mapping_0));
                        assert(decreases_to!(*entries => entries@));
                        assert(decreases_to!(entries@ => entries@[i as int]));
                        assert(decreases_to!(entries@[i as int] => entries@[i as int].1));
                    }
                    let key = copy_bytes(entries[i].0.as_slice());
                    let value = entries[i].1.clone();
                    copies.push((key, value));
                    i += 1;
                }
                assert(view_entries(copies@) =~= view_entries(entries@));
                WireValue::Mapping(copies)
            },
        }
    }
}

} // verus!
