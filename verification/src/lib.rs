//! A companion process for a file-encryption host: it wraps and unwraps
//! per-file symmetric keys for recipients whose private keys live in a
//! hardware key provider, speaking a line-oriented stanza protocol over a
//! duplex byte stream.

pub mod codec;
pub mod crypto;
pub mod encoder;
pub mod plugin;
pub mod strutil;

use vstd::prelude::*;

verus! {

/// The fixed length of a file key in bytes. Any other length offered for
/// wrapping is an input-validation error, never padded or truncated.
pub const FILE_KEY_LEN: usize = 16;

} // verus!
