//! Key derivation: from a master password and a salt to a symmetric key.
//!
//! The key is PBKDF2-HMAC-SHA-256 over the SHA-256 digest of the password.
//! The rounds make each guess at the password expensive; the digest keeps
//! passwords apart that HMAC alone would take for one.

use vstd::prelude::*;
use vstd::utf8::encode_utf8;
use pbkdf2::pbkdf2_hmac;
use sha2::Digest;
use sha2::Sha256;
use crate::secret::SecretBytes;

verus! {

/// The length of a derived key, in bytes.
pub const KEY_LEN: usize = 32;

/// The number of PBKDF2 iterations; this is what makes guessing the master
/// password expensive.
pub const ROUNDS: u32 = 200_000;

/// What PBKDF2 with HMAC-SHA-256 gives for a password, a salt, a number of
/// rounds and an output length.
pub uninterp spec fn pbkdf2_hmac_sha256(
    password: Seq<u8>,
    salt: Seq<u8>,
    rounds: u32,
    len: nat,
) -> Seq<u8>;

/// Runs PBKDF2-HMAC-SHA-256 (`pbkdf2::pbkdf2_hmac` with `sha2::Sha256`).
/// The output has the length asked for and depends on nothing but the four
/// arguments. The outside function numbers the 32-byte blocks of its output
/// with a `u32`, which bounds the length.
#[verifier::external_body]
fn stretch(password: &[u8], salt: &[u8], rounds: u32, len: usize) -> (out: Vec<u8>)
    requires
        len <= 32 * 0xffff_ffff,
    ensures
        out@ == pbkdf2_hmac_sha256(password@, salt@, rounds, len as nat),
        out@.len() == len,
{
    let mut out = vec![0u8; len];
    pbkdf2_hmac::<Sha256>(password, salt, rounds, &mut out);
    out
}

/// The length of a SHA-256 digest, in bytes.
pub const DIGEST_LEN: usize = 32;

/// The SHA-256 digest of a byte string.
pub uninterp spec fn sha256(data: Seq<u8>) -> Seq<u8>;

/// Computes SHA-256 (`Digest::digest` of `sha2::Sha256`). The output has
/// 32 bytes and depends on nothing but the input.
#[verifier::external_body]
fn hash(data: &[u8]) -> (out: Vec<u8>)
    ensures
        out@ == sha256(data@),
        out@.len() == DIGEST_LEN,
{
    Sha256::digest(data).to_vec()
}

/// The key that belongs to a master password and a salt: PBKDF2 over the
/// SHA-256 digest of the password's UTF-8 bytes.
pub open spec fn derived_key(password: Seq<char>, salt: Seq<u8>) -> Seq<u8> {
    pbkdf2_hmac_sha256(sha256(encode_utf8(password)), salt, ROUNDS, KEY_LEN as nat)
}

/// The SHA-256 digest of a password's UTF-8 bytes, from which its key is
/// derived. It is as secret as the password, and zeroed when it is dropped.
pub fn password_digest(password: &str) -> (digest: SecretBytes)
    ensures
        digest@ == sha256(encode_utf8(password@)),
        digest@.len() == DIGEST_LEN,
{
    SecretBytes::guard(hash(password.as_bytes()))
}

/// Derives a key of `KEY_LEN` bytes from password bytes and a salt with a
/// number of rounds of the caller's choosing: plain PBKDF2-HMAC-SHA-256.
/// The key is zeroed when it is dropped.
///
/// HMAC fills a password shorter than its block of 64 bytes with zero
/// bytes, so passwords that differ only in zero bytes at the end give one
/// key here. `derive_key` hashes the password first and so tells them
/// apart.
pub fn derive_with(password: &[u8], salt: &[u8], rounds: u32) -> (key: SecretBytes)
    ensures
        key@ == pbkdf2_hmac_sha256(password@, salt@, rounds, KEY_LEN as nat),
        key@.len() == KEY_LEN,
{
    SecretBytes::guard(stretch(password, salt, rounds, KEY_LEN))
}

/// Derives the key for `password` and `salt`: `ROUNDS` rounds of PBKDF2
/// over the SHA-256 digest of the password. The same password and salt
/// always give the same key; an empty password is derived from like any
/// other. The digest gives every password, whatever its length and
/// whatever zero bytes it ends in, 32 bytes of its own to derive from. The
/// key is zeroed when it is dropped.
pub fn derive_key(password: &str, salt: &[u8]) -> (key: SecretBytes)
    ensures
        key@ == derived_key(password@, salt@),
        key@.len() == KEY_LEN,
{
    let digest = password_digest(password);
    derive_with(digest.expose(), salt, ROUNDS)
}

} // verus!
