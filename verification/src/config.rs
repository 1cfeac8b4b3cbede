//! The limits under which a body is decoded.

use vstd::prelude::*;

verus! {

/// How deep and how long a body may be.
#[derive(Clone, Copy, Debug, PartialEq, Eq)]
pub struct Config {
    /// How many sequences and mappings may be open at once. Decoding goes one call
    /// deeper for each level that is open, so this also bounds the stack it uses.
    pub max_decode_depth: usize,
    /// How many bytes a body may have.
    pub max_decode_size: usize,
}

} // verus!
