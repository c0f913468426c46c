//! The layout of a persisted vault: the salt, the nonce, then the
//! ciphertext with its tag.
//!
//! ```text
//! [salt: 16 bytes][nonce: 12 bytes][ciphertext and tag: the rest]
//! ```

use vstd::prelude::*;
use vstd::slice::slice_subrange;
use crate::cipher::NONCE_LEN;
use crate::codec::append;
use crate::error::Failure;

verus! {

/// The length of a vault's salt, in bytes.
pub const SALT_LEN: usize = 16;

/// The length of what stands before the ciphertext: salt and nonce.
pub const HEADER_LEN: usize = SALT_LEN + NONCE_LEN;

/// The salt of a persisted vault.
pub open spec fn salt_part(bytes: Seq<u8>) -> Seq<u8> {
    bytes.take(SALT_LEN as int)
}

/// The nonce of a persisted vault.
pub open spec fn nonce_part(bytes: Seq<u8>) -> Seq<u8> {
    bytes.subrange(SALT_LEN as int, HEADER_LEN as int)
}

/// Salt and nonce together, as they stand in front of the ciphertext.
pub open spec fn header_part(bytes: Seq<u8>) -> Seq<u8> {
    bytes.take(HEADER_LEN as int)
}

/// The ciphertext and tag of a persisted vault.
pub open spec fn body_part(bytes: Seq<u8>) -> Seq<u8> {
    bytes.skip(HEADER_LEN as int)
}

/// The three parts of a persisted vault, borrowed from its bytes.
pub struct Parts<'a> {
    pub salt: &'a [u8],
    pub nonce: &'a [u8],
    pub body: &'a [u8],
}

/// Puts the three parts one after another.
pub fn assemble(salt: &[u8], nonce: &[u8], body: &[u8]) -> (bytes: Vec<u8>)
    ensures
        bytes@ == salt@ + nonce@ + body@,
{
    let mut bytes: Vec<u8> = Vec::new();
    append(&mut bytes, salt);
    append(&mut bytes, nonce);
    append(&mut bytes, body);
    assert(bytes@ =~= salt@ + nonce@ + body@);
    bytes
}

/// Takes persisted bytes apart by the fixed offsets, or reports
/// `FormatInvalid` when they are too short to hold salt and nonce.
pub fn split<'a>(bytes: &'a [u8]) -> (r: Result<Parts<'a>, Failure>)
    ensures
        match r {
            Ok(parts) => {
                &&& bytes@.len() >= HEADER_LEN
                &&& parts.salt@ == salt_part(bytes@)
                &&& parts.nonce@ == nonce_part(bytes@)
                &&& parts.body@ == body_part(bytes@)
            },
            Err(f) => f == Failure::FormatInvalid && bytes@.len() < HEADER_LEN,
        },
{
    if bytes.len() < HEADER_LEN {
        return Err(Failure::FormatInvalid);
    }
    let salt = slice_subrange(bytes, 0, SALT_LEN);
    let nonce = slice_subrange(bytes, SALT_LEN, HEADER_LEN);
    let body = slice_subrange(bytes, HEADER_LEN, bytes.len());
    assert(salt@ =~= salt_part(bytes@));
    assert(body@ =~= body_part(bytes@));
    Ok(Parts { salt, nonce, body })
}

/// Taking apart what was put together gives the parts back, when salt and
/// nonce have their fixed lengths.
pub proof fn lemma_parts_of_assembled(salt: Seq<u8>, nonce: Seq<u8>, body: Seq<u8>)
    requires
        salt.len() == SALT_LEN,
        nonce.len() == NONCE_LEN,
    ensures
        (salt + nonce + body).len() >= HEADER_LEN,
        salt_part(salt + nonce + body) == salt,
        nonce_part(salt + nonce + body) == nonce,
        header_part(salt + nonce + body) == salt + nonce,
        body_part(salt + nonce + body) == body,
{
    let bytes = salt + nonce + body;
    assert(salt_part(bytes) =~= salt);
    assert(nonce_part(bytes) =~= nonce);
    assert(header_part(bytes) =~= salt + nonce);
    assert(body_part(bytes) =~= body);
}

} // verus!
