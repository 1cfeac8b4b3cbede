//! The keys that a response uses, as bytes.

use vstd::prelude::*;

verus! {

/// The key `errors`: the backend's error messages.
pub open spec fn errors_key() -> Seq<u8> {
    seq![0x65u8, 0x72u8, 0x72u8, 0x6fu8, 0x72u8, 0x73u8]
}

/// The key `errors` as bytes.
pub fn errors_word() -> (word: Vec<u8>)
    ensures
        word@ == errors_key(),
{
    let mut word: Vec<u8> = Vec::new();
    word.push(0x65);
    word.push(0x72);
    word.push(0x72);
    word.push(0x6f);
    word.push(0x72);
    word.push(0x73);
    assert(word@ =~= errors_key());
    word
}

/// The key `warnings`: the backend's warnings.
pub open spec fn warnings_key() -> Seq<u8> {
    seq![0x77u8, 0x61u8, 0x72u8, 0x6eu8, 0x69u8, 0x6eu8, 0x67u8, 0x73u8]
}

/// The key `warnings` as bytes.
pub fn warnings_word() -> (word: Vec<u8>)
    ensures
        word@ == warnings_key(),
{
    let mut word: Vec<u8> = Vec::new();
    word.push(0x77);
    word.push(0x61);
    word.push(0x72);
    word.push(0x6e);
    word.push(0x69);
    word.push(0x6e);
    word.push(0x67);
    word.push(0x73);
    assert(word@ =~= warnings_key());
    word
}

/// The key `data`: the payload.
pub open spec fn data_key() -> Seq<u8> {
    seq![0x64u8, 0x61u8, 0x74u8, 0x61u8]
}

/// The key `data` as bytes.
pub fn data_word() -> (word: Vec<u8>)
    ensures
        word@ == data_key(),
{
    let mut word: Vec<u8> = Vec::new();
    word.push(0x64);
    word.push(0x61);
    word.push(0x74);
    word.push(0x61);
    assert(word@ =~= data_key());
    word
}

/// The key `policies`: the list of policy names.
pub open spec fn policies_key() -> Seq<u8> {
    seq![0x70u8, 0x6fu8, 0x6cu8, 0x69u8, 0x63u8, 0x69u8, 0x65u8, 0x73u8]
}

/// The key `policies` as bytes.
pub fn policies_word() -> (word: Vec<u8>)
    ensures
        word@ == policies_key(),
{
    let mut word: Vec<u8> = Vec::new();
    word.push(0x70);
    word.push(0x6f);
    word.push(0x6c);
    word.push(0x69);
    word.push(0x63);
    word.push(0x69);
    word.push(0x65);
    word.push(0x73);
    assert(word@ =~= policies_key());
    word
}

/// The key `metadata`: a secret's metadata.
pub open spec fn metadata_key() -> Seq<u8> {
    seq![0x6du8, 0x65u8, 0x74u8, 0x61u8, 0x64u8, 0x61u8, 0x74u8, 0x61u8]
}

/// The key `metadata` as bytes.
pub fn metadata_word() -> (word: Vec<u8>)
    ensures
        word@ == metadata_key(),
{
    let mut word: Vec<u8> = Vec::new();
    word.push(0x6d);
    word.push(0x65);
    word.push(0x74);
    word.push(0x61);
    word.push(0x64);
    word.push(0x61);
    word.push(0x74);
    word.push(0x61);
    assert(word@ =~= metadata_key());
    word
}

/// The key `version`: a secret's version.
pub open spec fn version_key() -> Seq<u8> {
    seq![0x76u8, 0x65u8, 0x72u8, 0x73u8, 0x69u8, 0x6fu8, 0x6eu8]
}

/// The key `version` as bytes.
pub fn version_word() -> (word: Vec<u8>)
    ensures
        word@ == version_key(),
{
    let mut word: Vec<u8> = Vec::new();
    word.push(0x76);
    word.push(0x65);
    word.push(0x72);
    word.push(0x73);
    word.push(0x69);
    word.push(0x6f);
    word.push(0x6e);
    assert(word@ =~= version_key());
    word
}

/// The key `lease_duration`: a secret's lease, in seconds.
pub open spec fn lease_duration_key() -> Seq<u8> {
    seq![0x6cu8, 0x65u8, 0x61u8, 0x73u8, 0x65u8, 0x5fu8, 0x64u8, 0x75u8, 0x72u8, 0x61u8, 0x74u8, 0x69u8, 0x6fu8, 0x6eu8]
}

/// The key `lease_duration` as bytes.
pub fn lease_duration_word() -> (word: Vec<u8>)
    ensures
        word@ == lease_duration_key(),
{
    let mut word: Vec<u8> = Vec::new();
    word.push(0x6c);
    word.push(0x65);
    word.push(0x61);
    word.push(0x73);
    word.push(0x65);
    word.push(0x5f);
    word.push(0x64);
    word.push(0x75);
    word.push(0x72);
    word.push(0x61);
    word.push(0x74);
    word.push(0x69);
    word.push(0x6f);
    word.push(0x6e);
    assert(word@ =~= lease_duration_key());
    word
}

} // verus!
