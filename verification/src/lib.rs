//! Encoding of random entropy as a mnemonic phrase: binary digit strings,
//! a SHA-256 checksum, 11-bit word indices and lookup in a 2048-word table.

pub mod bip39;
pub mod bits;
pub mod checksum;
pub mod chunker;
pub mod entropy;
pub mod error;
pub mod language;
pub mod mnemonic;
pub mod secret_word;
pub mod wordlist;
