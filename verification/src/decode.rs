//! Decoding a body into the value it denotes.

use vstd::prelude::*;
use crate::bytes::bytes_eq;
use crate::canonical::law_decoded_is_canonical;
use crate::depth::law_depth_bound;
use crate::roundtrip::canonical;
use crate::config::Config;
use crate::error::{Error, Failure};
use crate::grammar;
use crate::grammar::{
    CLOSE_BRACE,
    CLOSE_BRACKET,
    COLON,
    COMMA,
    MINUS,
    OPEN_BRACE,
    OPEN_BRACKET,
    QUOTE,
};
use crate::lexer::{read_number, read_text, skip_space};
use crate::wire::{
    lemma_view_entries_push,
    lemma_view_items_push,
    view_entries,
    view_items,
    Wire,
    WireValue,
};

verus! {

/// A word stands at a position when each of its bytes stands there in turn.
pub proof fn lemma_has_at(s: Seq<u8>, pos: int, word: Seq<u8>)
    ensures
        grammar::has_at(s, pos, word) <==> (0 <= pos && pos + word.len() <= s.len() && forall|
            k: int,
        |
            0 <= k < word.len() ==> s[pos + k] == #[trigger] word[k]),
{
    if grammar::has_at(s, pos, word) {
        assert forall|k: int| 0 <= k < word.len() implies s[pos + k] == #[trigger] word[k] by {
            assert(s.subrange(pos, pos + word.len())[k] == s[pos + k]);
        }
    }
    if 0 <= pos && pos + word.len() <= s.len() && forall|k: int|
        0 <= k < word.len() ==> s[pos + k] == #[trigger] word[k] {
        assert(s.subrange(pos, pos + word.len()) =~= word);
    }
}

/// Whether the four bytes `w0 .. w3` stand at `pos`.
fn spells4(bytes: &[u8], pos: usize, w0: u8, w1: u8, w2: u8, w3: u8) -> (yes: bool)
    requires
        pos <= bytes@.len(),
    ensures
        yes == grammar::has_at(bytes@, pos as int, seq![w0, w1, w2, w3]),
{
    let ghost word = seq![w0, w1, w2, w3];
    proof {
        lemma_has_at(bytes@, pos as int, word);
    }
    if bytes.len() - pos < 4 {
        return false;
    }
    let yes = bytes[pos] == w0 && bytes[pos + 1] == w1 && bytes[pos + 2] == w2 && bytes[pos + 3]
        == w3;
    proof {
        if !yes && grammar::has_at(bytes@, pos as int, word) {
            assert(bytes@[pos + 0] == word[0]);
            assert(bytes@[pos + 1] == word[1]);
            assert(bytes@[pos + 2] == word[2]);
            assert(bytes@[pos + 3] == word[3]);
        }
    }
    yes
}

/// Whether one of the entries has the key `key`.
fn holds_key(entries: &Vec<(Vec<u8>, WireValue)>, key: &[u8]) -> (yes: bool)
    ensures
        yes == grammar::has_key(view_entries(entries@), key@),
{
    let mut i: usize = 0;
    while i < entries.len()
        invariant
            i <= entries@.len(),
            forall|j: int| 0 <= j < i ==> (#[trigger] view_entries(entries@)[j]).0 != key@,
        decreases entries@.len() - i,
    {
        if bytes_eq(entries[i].0.as_slice(), key) {
            assert(view_entries(entries@)[i as int].0 == key@);
            return true;
        }
        i += 1;
    }
    false
}

/// Reads the value that starts at `pos`, opening at most `depth` levels below it.
pub fn read_value(bytes: &[u8], pos: usize, depth: usize) -> (r: Option<(WireValue, usize)>)
    requires
        pos <= bytes@.len(),
    ensures
        match r {
            Some((value, next)) => pos < next <= bytes@.len() && grammar::parse_value(
                bytes@,
                pos as int,
                depth as nat,
            ) == Some((value@, next as int)),
            None => grammar::parse_value(bytes@, pos as int, depth as nat) is None,
        },
    decreases depth, 0nat,
{
    if pos >= bytes.len() {
        return None;
    }
    let b: u8 = bytes[pos];
    if b == 0x6e {
        if spells4(bytes, pos, 0x6e, 0x75, 0x6c, 0x6c) {
            Some((WireValue::Null, pos + 4))
        } else {
            None
        }
    } else if b == 0x74 {
        if spells4(bytes, pos, 0x74, 0x72, 0x75, 0x65) {
            Some((WireValue::Bool(true), pos + 4))
        } else {
            None
        }
    } else if b == 0x66 {
        let ghost word = grammar::word_false();
        let ghost tail = seq![0x61u8, 0x6cu8, 0x73u8, 0x65u8];
        proof {
            lemma_has_at(bytes@, pos as int, word);
            lemma_has_at(bytes@, pos + 1, tail);
            if grammar::has_at(bytes@, pos as int, word) {
                assert forall|k: int| 0 <= k < 4 implies bytes@[pos + 1 + k] == #[trigger] tail[k] by {
                    assert(bytes@[pos + (k + 1)] == word[k + 1]);
                }
            }
            if grammar::has_at(bytes@, pos + 1, tail) {
                assert forall|k: int| 0 <= k < 5 implies bytes@[pos + k] == #[trigger] word[k] by {
                    if k > 0 {
                        assert(bytes@[pos + 1 + (k - 1)] == tail[k - 1]);
                    }
                }
            }
        }
        if spells4(bytes, pos + 1, 0x61, 0x6c, 0x73, 0x65) {
            Some((WireValue::Bool(false), pos + 5))
        } else {
            None
        }
    } else if b == QUOTE {
        match read_text(bytes, pos + 1) {
            None => None,
            Some((text, next)) => Some((WireValue::String(text), next)),
        }
    } else if b == OPEN_BRACKET {
        if depth == 0 {
            return None;
        }
        let first = skip_space(bytes, pos + 1);
        if first < bytes.len() && bytes[first] == CLOSE_BRACKET {
            let items: Vec<WireValue> = Vec::new();
            assert(view_items(items@) =~= Seq::empty());
            Some((WireValue::Sequence(items), first + 1))
        } else {
            read_items(bytes, first, depth - 1)
        }
    } else if b == OPEN_BRACE {
        if depth == 0 {
            return None;
        }
        let first = skip_space(bytes, pos + 1);
        if first < bytes.len() && bytes[first] == CLOSE_BRACE {
            let entries: Vec<(Vec<u8>, WireValue)> = Vec::new();
            assert(view_entries(entries@) =~= Seq::empty());
            Some((WireValue::Mapping(entries), first + 1))
        } else {
            read_entries(bytes, first, depth - 1)
        }
    } else if b == MINUS || (0x30 <= b && b <= 0x39) {
        match read_number(bytes, pos) {
            None => None,
            Some((n, next)) => Some((WireValue::Number(n), next)),
        }
    } else {
        None
    }
}

/// Reads the items of a sequence up to its closing bracket; `pos` is where the first
/// item starts.
pub fn read_items(bytes: &[u8], pos: usize, depth: usize) -> (r: Option<(WireValue, usize)>)
    requires
        pos <= bytes@.len(),
    ensures
        match r {
            Some((value, next)) => pos < next <= bytes@.len() && grammar::parse_items(
                bytes@,
                pos as int,
                depth as nat,
                Seq::empty(),
            ) == Some((value@, next as int)),
            None => grammar::parse_items(bytes@, pos as int, depth as nat, Seq::empty()) is None,
        },
    decreases depth, 1nat,
{
    let mut items: Vec<WireValue> = Vec::new();
    let mut i: usize = pos;
    assert(view_items(items@) =~= Seq::empty());
    loop
        invariant
            pos <= i <= bytes@.len(),
            grammar::parse_items(bytes@, pos as int, depth as nat, Seq::empty())
                == grammar::parse_items(bytes@, i as int, depth as nat, view_items(items@)),
        decreases bytes@.len() - i,
    {
        let (item, after) = match read_value(bytes, i, depth) {
            None => { return None; },
            Some(found) => found,
        };
        let end = skip_space(bytes, after);
        if end >= bytes.len() {
            return None;
        }
        let c: u8 = bytes[end];
        proof {
            lemma_view_items_push(items@, item);
        }
        if c == CLOSE_BRACKET {
            items.push(item);
            return Some((WireValue::Sequence(items), end + 1));
        } else if c == COMMA {
            items.push(item);
            i = skip_space(bytes, end + 1);
        } else {
            return None;
        }
    }
}

/// Reads the entries of a mapping up to its closing brace; `pos` is where the first
/// key starts.
pub fn read_entries(bytes: &[u8], pos: usize, depth: usize) -> (r: Option<(WireValue, usize)>)
    requires
        pos <= bytes@.len(),
    ensures
        match r {
            Some((value, next)) => pos < next <= bytes@.len() && grammar::parse_entries(
                bytes@,
                pos as int,
                depth as nat,
                Seq::empty(),
            ) == Some((value@, next as int)),
            None => grammar::parse_entries(bytes@, pos as int, depth as nat, Seq::empty())
                is None,
        },
    decreases depth, 1nat,
{
    let mut entries: Vec<(Vec<u8>, WireValue)> = Vec::new();
    let mut i: usize = pos;
    assert(view_entries(entries@) =~= Seq::empty());
    loop
        invariant
            pos <= i <= bytes@.len(),
            grammar::parse_entries(bytes@, pos as int, depth as nat, Seq::empty())
                == grammar::parse_entries(bytes@, i as int, depth as nat, view_entries(entries@)),
        decreases bytes@.len() - i,
    {
        if i >= bytes.len() || bytes[i] != QUOTE {
            return None;
        }
        let (key, after_key) = match read_text(bytes, i + 1) {
            None => { return None; },
            Some(found) => found,
        };
        let colon = skip_space(bytes, after_key);
        if colon >= bytes.len() || bytes[colon] != COLON {
            return None;
        }
        let start = skip_space(bytes, colon + 1);
        let (value, after) = match read_value(bytes, start, depth) {
            None => { return None; },
            Some(found) => found,
        };
        if holds_key(&entries, key.as_slice()) {
            return None;
        }
        let end = skip_space(bytes, after);
        if end >= bytes.len() {
            return None;
        }
        let c: u8 = bytes[end];
        proof {
            lemma_view_entries_push(entries@, key, value);
        }
        if c == CLOSE_BRACE {
            entries.push((key, value));
            return Some((WireValue::Mapping(entries), end + 1));
        } else if c == COMMA {
            entries.push((key, value));
            i = skip_space(bytes, end + 1);
        } else {
            return None;
        }
    }
}

/// The value that a body denotes under the limits of `config`, if it denotes one.
pub open spec fn decode_text(s: Seq<u8>, config: Config) -> Option<Wire> {
    if s.len() > config.max_decode_size {
        None
    } else {
        grammar::parse_document(s, config.max_decode_depth as nat)
    }
}

/// Decodes a body. It fails with `DecodeError` exactly when the body is longer than
/// `config.max_decode_size`, is not one well-formed value, or opens more than
/// `config.max_decode_depth` levels of sequences and mappings. The value it gives is
/// canonical and no deeper than the limit.
pub fn decode(bytes: &[u8], config: &Config) -> (r: Result<WireValue, Error>)
    ensures
        match r {
            Ok(value) => decode_text(bytes@, *config) == Some(value@),
            Err(e) => e@ == Failure::DecodeError && decode_text(bytes@, *config) is None,
        },
        r matches Ok(value) ==> canonical(value@) && value@.depth() <= config.max_decode_depth,
{
    proof {
        if decode_text(bytes@, *config) is Some {
            law_decoded_is_canonical(bytes@, *config);
            law_depth_bound(bytes@, *config, *config);
        }
    }
    if bytes.len() > config.max_decode_size {
        return Err(Error::DecodeError);
    }
    let start = skip_space(bytes, 0);
    match read_value(bytes, start, config.max_decode_depth) {
        None => Err(Error::DecodeError),
        Some((value, after)) => {
            let end = skip_space(bytes, after);
            if end == bytes.len() {
                Ok(value)
            } else {
                Err(Error::DecodeError)
            }
        },
    }
}

} // verus!
