//! Fuzz targets: each feeds arbitrary bytes to one of the response processors.
//!
//! An input is framed so that any bytes are a complete input. The lowest bit of the
//! first byte is the status. For a secret read, the next byte is the length of the
//! requested key, cut to what is left, and the key follows it. The rest is the body.

use vstd::prelude::*;
use vstd::slice::slice_subrange;
use crate::client::{
    process_generic_response,
    process_policy_list_response,
    process_secret_read_response,
};
use crate::config::Config;
use crate::secret::plain_text;

verus! {

/// The deepest nesting that a fuzz target lets a body have.
pub const FUZZ_MAX_DEPTH: usize = 64;

/// The longest body that a fuzz target decodes.
pub const FUZZ_MAX_SIZE: usize = 1048576;

/// The status that an input carries.
pub open spec fn input_status(data: Seq<u8>) -> bool {
    data.len() > 0 && data[0] % 2 == 1
}

/// What follows the status in an input.
pub open spec fn input_rest(data: Seq<u8>) -> Seq<u8> {
    if data.len() > 0 {
        data.subrange(1, data.len() as int)
    } else {
        Seq::empty()
    }
}

/// How long the key at the head of `rest` is.
pub open spec fn input_key_len(rest: Seq<u8>) -> int {
    if rest.len() == 0 {
        0
    } else if rest[0] < rest.len() - 1 {
        rest[0] as int
    } else {
        rest.len() - 1
    }
}

/// The key at the head of `rest`.
pub open spec fn input_key(rest: Seq<u8>) -> Seq<u8> {
    if rest.len() == 0 {
        Seq::empty()
    } else {
        rest.subrange(1, 1 + input_key_len(rest))
    }
}

/// What follows the key in `rest`.
pub open spec fn input_body(rest: Seq<u8>) -> Seq<u8> {
    if rest.len() == 0 {
        Seq::empty()
    } else {
        rest.subrange(1 + input_key_len(rest), rest.len() as int)
    }
}

/// Splits an input into its status and what follows.
pub fn split_status(data: &[u8]) -> (r: (bool, &[u8]))
    ensures
        r.0 == input_status(data@),
        r.1@ == input_rest(data@),
{
    if data.len() == 0 {
        assert(data@ =~= Seq::<u8>::empty());
        (false, data)
    } else {
        (data[0] % 2 == 1, slice_subrange(data, 1, data.len()))
    }
}

/// Splits what follows the status into the requested key and the body.
pub fn split_key(rest: &[u8]) -> (r: (&[u8], &[u8]))
    ensures
        r.0@ == input_key(rest@),
        r.1@ == input_body(rest@),
{
    if rest.len() == 0 {
        assert(rest@ =~= Seq::<u8>::empty());
        (rest, rest)
    } else {
        let named: usize = rest[0] as usize;
        let n: usize = if named < rest.len() - 1 {
            named
        } else {
            rest.len() - 1
        };
        (slice_subrange(rest, 1, 1 + n), slice_subrange(rest, 1 + n, rest.len()))
    }
}

/// Frames a status and a body as an input.
pub fn frame_status(success: bool, body: &[u8]) -> (data: Vec<u8>)
    ensures
        input_status(data@) == success,
        input_rest(data@) == body@,
{
    let mut data: Vec<u8> = Vec::new();
    data.push(if success { 1 } else { 0 });
    let mut i: usize = 0;
    while i < body.len()
        invariant
            i <= body@.len(),
            data@.len() == i + 1,
            data@[0] == (if success { 1u8 } else { 0u8 }),
            data@.subrange(1, i + 1) == body@.subrange(0, i as int),
        decreases body@.len() - i,
    {
        data.push(body[i]);
        assert(data@.subrange(1, i + 2) =~= body@.subrange(0, i + 1));
        i += 1;
    }
    assert(data@.subrange(1, data@.len() as int) =~= body@);
    data
}

/// Frames a requested key and a body as what follows the status of an input. A key
/// of more than 255 bytes has no frame.
pub fn frame_key(key: &[u8], body: &[u8]) -> (framed: Option<Vec<u8>>)
    ensures
        framed is None <==> key@.len() > 255,
        framed matches Some(rest) ==> input_key(rest@) == key@ && input_body(rest@) == body@,
{
    if key.len() > 255 {
        return None;
    }
    let mut rest: Vec<u8> = Vec::new();
    rest.push(key.len() as u8);
    let mut i: usize = 0;
    while i < key.len()
        invariant
            i <= key@.len() <= 255,
            rest@.len() == i + 1,
            rest@[0] == key@.len(),
            rest@.subrange(1, i + 1) == key@.subrange(0, i as int),
        decreases key@.len() - i,
    {
        rest.push(key[i]);
        assert(rest@.subrange(1, i + 2) =~= key@.subrange(0, i + 1));
        i += 1;
    }
    assert(key@.subrange(0, key@.len() as int) =~= key@);
    let ghost head = rest@;
    let mut j: usize = 0;
    while j < body.len()
        invariant
            j <= body@.len(),
            key@.len() <= 255,
            head.len() == key@.len() + 1,
            rest@.len() == head.len() + j,
            rest@.subrange(0, head.len() as int) == head,
            rest@.subrange(head.len() as int, head.len() + j) == body@.subrange(0, j as int),
        decreases body@.len() - j,
    {
        rest.push(body[j]);
        assert(rest@.subrange(0, head.len() as int) =~= head);
        assert(rest@.subrange(head.len() as int, head.len() + j + 1) =~= body@.subrange(
            0,
            j + 1,
        ));
        j += 1;
    }
    assert(body@.subrange(0, body@.len() as int) =~= body@);
    assert(rest@[0] == head[0]);
    assert(rest@.subrange(1, head.len() as int) =~= head.subrange(1, head.len() as int));
    Some(rest)
}

/// Feeds inputs to the processing of responses of which only the envelope is wanted.
#[derive(Clone, Debug, Default)]
pub struct VaultGenericResponse;

impl VaultGenericResponse {
    /// What this target exercises.
    pub fn description(&self) -> (text: &'static str)
        ensures
            text@ == "Secure storage vault: process_generic_response()"@,
    {
        "Secure storage vault: process_generic_response()"
    }

    /// Processes one input. Whatever the bytes are, this returns.
    pub fn fuzz(&self, data: &[u8]) {
        let (success, body) = split_status(data);
        let config = Config { max_decode_depth: FUZZ_MAX_DEPTH, max_decode_size: FUZZ_MAX_SIZE };
        let _ = process_generic_response(success, body, &config);
    }
}

/// Feeds inputs to the processing of policy lists.
#[derive(Clone, Debug, Default)]
pub struct VaultPolicyListResponse;

impl VaultPolicyListResponse {
    /// What this target exercises.
    pub fn description(&self) -> (text: &'static str)
        ensures
            text@ == "Secure storage vault: process_policy_list_response()"@,
    {
        "Secure storage vault: process_policy_list_response()"
    }

    /// Processes one input. Whatever the bytes are, this returns.
    pub fn fuzz(&self, data: &[u8]) {
        let (success, body) = split_status(data);
        let config = Config { max_decode_depth: FUZZ_MAX_DEPTH, max_decode_size: FUZZ_MAX_SIZE };
        let _ = process_policy_list_response(success, body, &config);
    }
}

/// Feeds inputs to the processing of secret reads.
#[derive(Clone, Debug, Default)]
pub struct VaultSecretReadResponse;

impl VaultSecretReadResponse {
    /// What this target exercises.
    pub fn description(&self) -> (text: &'static str)
        ensures
            text@ == "Secure storage vault: process_secret_read_response()"@,
    {
        "Secure storage vault: process_secret_read_response()"
    }

    /// Processes one input, with the plain-text decoding strategy. Whatever the bytes
    /// are, this returns.
    pub fn fuzz(&self, data: &[u8]) {
        let (success, rest) = split_status(data);
        let (key, body) = split_key(rest);
        let config = Config { max_decode_depth: FUZZ_MAX_DEPTH, max_decode_size: FUZZ_MAX_SIZE };
        let _ = process_secret_read_response(key, success, body, &config, plain_text);
    }
}

} // verus!
