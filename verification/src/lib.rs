//! Turns the raw body of a secrets-vault response into checked, typed values.
//!
//! A body is untrusted text. [`decode::decode`] reads it into a [`wire::WireValue`],
//! [`envelope::parse_envelope`] takes the common envelope out of that value, and the
//! extractors in [`policy`] and [`secret`] read the payload the envelope carries.
//! [`client`] runs these steps in turn for each kind of response. Every step returns
//! a value or an [`error::Error`]; none of them panics.
//!
//! What a body denotes is defined in [`grammar`], as functions on bytes, and the
//! decoder is proved to compute it. [`encode`] writes values back as text, and
//! [`roundtrip`], [`canonical`], [`depth`] and [`laws`] prove what holds of decoding,
//! writing and extracting for every input.

pub mod assemble;
pub mod bytes;
pub mod canonical;
pub mod client;
pub mod config;
pub mod decode;
pub mod depth;
pub mod encode;
pub mod envelope;
pub mod error;
pub mod grammar;
pub mod laws;
pub mod lexer;
pub mod policy;
pub mod roundtrip;
pub mod secret;
pub mod targets;
pub mod wire;
pub mod words;
