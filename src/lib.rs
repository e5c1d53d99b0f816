//! Wire protocol of a code-judging network: framed packets, an AEAD
//! envelope for confidential fields, an ECDH handshake and session binding.
pub mod codec;
pub mod constants;
pub mod error;
pub mod packet;
pub mod security;
pub mod handshake;
pub mod judge;
pub mod connection;
