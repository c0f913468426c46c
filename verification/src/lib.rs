//! A single-user secret vault: named credentials kept under one master
//! password and persisted as one encrypted blob.
//!
//! A [`vault::Vault`] holds its entries in the clear while it is open.
//! `serialize` draws a fresh salt and nonce ([`random`]), derives a key
//! from the master password and the salt ([`kdf`]), encodes the entries
//! ([`codec`]), seals the encoding ([`cipher`]) and lays out salt, nonce
//! and ciphertext ([`format`]); `deserialize` goes the other way and
//! refuses, without saying why, whatever does not authenticate or parse.
//!
//! The cipher, the key derivation, the random generator and the zeroing of
//! released secrets come from other crates; what is believed of them is
//! stated where they are called. Everything else is proved: the entry
//! encoding and its inverse, the file layout, the ordered index, and the
//! vault's operations over the mapping from names to secrets.

pub mod cipher;
pub mod codec;
pub mod entry;
pub mod error;
pub mod format;
pub mod index;
pub mod kdf;
pub mod name;
pub mod order;
pub mod random;
pub mod secret;
pub mod session;
pub mod vault;
