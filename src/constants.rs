use vstd::prelude::*;

verus! {

/// Protocol-wide constant that opens every frame.
pub const MAGIC: u32 = 0x596F7275;

/// Size of a session key, in bytes.
pub const KEY_SIZE: usize = 32;

/// Size of a frame header: magic, command and body length, four bytes each.
pub const HEADER_SIZE: usize = 12;

/// Size of an AEAD nonce, in bytes.
pub const NONCE_SIZE: usize = 12;

/// Size of the authentication tag appended to every ciphertext.
pub const TAG_SIZE: usize = 16;

/// Size of the integrity digest that closes every frame.
pub const DIGEST_SIZE: usize = 16;

/// Largest body a frame may declare (16 MiB); longer declarations are refused
/// before anything is allocated.
pub const MAX_BODY_SIZE: u32 = 0x0100_0000;

} // verus!
