//! Authenticated encryption with ChaCha20-Poly1305.

use vstd::prelude::*;
use chacha20poly1305::aead::Aead;
use chacha20poly1305::aead::Payload;
use chacha20poly1305::ChaCha20Poly1305;
use chacha20poly1305::Error;
use chacha20poly1305::Key;
use chacha20poly1305::KeyInit;
use chacha20poly1305::Nonce;
use crate::error::Failure;
use crate::kdf::KEY_LEN;

verus! {

/// The length of a nonce, in bytes.
pub const NONCE_LEN: usize = 12;

/// The length of the authentication tag that follows the ciphertext.
pub const TAG_LEN: usize = 16;

/// The most bytes that the cipher takes as one plaintext: 2^32 - 2 blocks
/// of 64 bytes. ChaCha20 counts blocks with a `u32`, and the first block is
/// spent on the key of the tag.
pub const SEAL_LIMIT: u64 = 64 * 0xffff_fffe;

/// The error of the `chacha20poly1305` crate (`aead::Error`). It carries no
/// detail, on purpose, and is only ever passed through.
#[verifier::external_type_specification]
#[verifier::external_body]
pub struct ExCipherError(Error);

/// The ciphertext and tag that ChaCha20-Poly1305 gives for a key, a nonce,
/// a plaintext and associated data.
pub uninterp spec fn sealed(
    key: Seq<u8>,
    nonce: Seq<u8>,
    plaintext: Seq<u8>,
    aad: Seq<u8>,
) -> Seq<u8>;

/// The plaintext that ChaCha20-Poly1305 gives back for a key, a nonce, a
/// ciphertext with its tag and associated data, or `None` when the tag does
/// not verify.
pub uninterp spec fn opened(
    key: Seq<u8>,
    nonce: Seq<u8>,
    ciphertext: Seq<u8>,
    aad: Seq<u8>,
) -> Option<Seq<u8>>;

/// The cipher takes a plaintext of no more than `SEAL_LIMIT` bytes.
pub open spec fn fits_cipher(plaintext: Seq<u8>) -> bool {
    plaintext.len() <= SEAL_LIMIT
}

/// Encrypts with `ChaCha20Poly1305::encrypt` of the `chacha20poly1305`
/// crate (trait `Aead`), under a key made by `KeyInit::new`.
///
/// The `requires` leaves out what the outside call does not survive: a key
/// or nonce of another length, and a plaintext beyond `SEAL_LIMIT`, on
/// which the keystream runs out. Believed of the call on what is left: it
/// succeeds, since its only error is for a plaintext of 2^32 - 1 blocks or
/// more; its output is a function of the four arguments, is the
/// plaintext's length plus the tag's, and decrypts, under the same key,
/// nonce and associated data, to the plaintext.
#[verifier::external_body]
fn encrypt(key: &[u8], nonce: &[u8], plaintext: &[u8], aad: &[u8]) -> (r: Result<Vec<u8>, Error>)
    requires
        key@.len() == KEY_LEN,
        nonce@.len() == NONCE_LEN,
        fits_cipher(plaintext@),
        plaintext@.len() + TAG_LEN <= usize::MAX,
    ensures
        r is Ok,
        r matches Ok(out) ==> {
            &&& out@ == sealed(key@, nonce@, plaintext@, aad@)
            &&& out@.len() == plaintext@.len() + TAG_LEN
            &&& opened(key@, nonce@, out@, aad@) == Some(plaintext@)
        },
{
    let cipher = ChaCha20Poly1305::new(Key::from_slice(key));
    cipher.encrypt(Nonce::from_slice(nonce), Payload { msg: plaintext, aad })
}

/// Decrypts with `ChaCha20Poly1305::decrypt` of the `chacha20poly1305`
/// crate (trait `Aead`), under a key made by `KeyInit::new`.
///
/// The `requires` leaves out what the outside call does not survive: a key
/// or nonce of another length, and an input whose ciphertext is beyond
/// `SEAL_LIMIT`, on which the keystream runs out once the tag has
/// verified. Believed of the call on what is left: whether it succeeds,
/// and with what plaintext, is a function of the four arguments; a
/// plaintext that comes out is shorter than the input by the tag's length.
#[verifier::external_body]
fn decrypt(key: &[u8], nonce: &[u8], ciphertext: &[u8], aad: &[u8]) -> (r: Result<Vec<u8>, Error>)
    requires
        key@.len() == KEY_LEN,
        nonce@.len() == NONCE_LEN,
        ciphertext@.len() <= SEAL_LIMIT + TAG_LEN,
    ensures
        match r {
            Ok(plain) => {
                &&& opened(key@, nonce@, ciphertext@, aad@) == Some(plain@)
                &&& plain@.len() + TAG_LEN == ciphertext@.len()
            },
            Err(_) => opened(key@, nonce@, ciphertext@, aad@) is None,
        },
{
    let cipher = ChaCha20Poly1305::new(Key::from_slice(key));
    cipher.decrypt(Nonce::from_slice(nonce), Payload { msg: ciphertext, aad })
}

/// The inputs that `seal` accepts: a key and a nonce of the right lengths
/// and a plaintext that the cipher takes and whose sealed form still has a
/// length the machine can hold.
pub open spec fn seal_accepts(key: Seq<u8>, nonce: Seq<u8>, plaintext: Seq<u8>) -> bool {
    &&& key.len() == KEY_LEN
    &&& nonce.len() == NONCE_LEN
    &&& plaintext.len() + TAG_LEN <= usize::MAX
    &&& fits_cipher(plaintext)
}

/// Seals `plaintext`: encrypts it and appends the tag that authenticates
/// it together with `aad`.
///
/// Succeeds exactly on the inputs that `seal_accepts` describes, and
/// rejects the others. What comes out opens again, with the same key, nonce
/// and associated data, to `plaintext`. A nonce must never be used twice
/// under one key; choosing it is the caller's part.
pub fn seal(key: &[u8], nonce: &[u8], plaintext: &[u8], aad: &[u8]) -> (r: Result<
    Vec<u8>,
    Failure,
>)
    ensures
        match r {
            Ok(out) => {
                &&& seal_accepts(key@, nonce@, plaintext@)
                &&& out@ == sealed(key@, nonce@, plaintext@, aad@)
                &&& out@.len() == plaintext@.len() + TAG_LEN
                &&& opened(key@, nonce@, out@, aad@) == Some(plaintext@)
            },
            Err(f) => f == Failure::InputRejected && !seal_accepts(key@, nonce@, plaintext@),
        },
{
    if key.len() != KEY_LEN || nonce.len() != NONCE_LEN || plaintext.len() > usize::MAX - TAG_LEN
        || plaintext.len() as u64 > SEAL_LIMIT {
        return Err(Failure::InputRejected);
    }
    match encrypt(key, nonce, plaintext, aad) {
        Ok(out) => Ok(out),
        Err(_) => Err(Failure::InputRejected),
    }
}

/// What `open` returns for given inputs: a key or nonce of the wrong length
/// is rejected; an input longer than anything `seal` makes fails like one
/// whose tag does not verify; for the rest the cipher decides.
pub open spec fn open_outcome(
    key: Seq<u8>,
    nonce: Seq<u8>,
    ciphertext: Seq<u8>,
    aad: Seq<u8>,
) -> Result<Seq<u8>, Failure> {
    if key.len() != KEY_LEN || nonce.len() != NONCE_LEN {
        Err(Failure::InputRejected)
    } else if ciphertext.len() > SEAL_LIMIT + TAG_LEN {
        Err(Failure::AuthenticationFailed)
    } else {
        match opened(key, nonce, ciphertext, aad) {
            Some(plain) => Ok(plain),
            None => Err(Failure::AuthenticationFailed),
        }
    }
}

/// Opens what `seal` made: checks the tag and, only if it verifies,
/// decrypts.
///
/// A key or nonce of the wrong length is rejected. Otherwise the outcome is
/// the plaintext or `AuthenticationFailed`, which says nothing of whether
/// the key, the nonce, the bytes or the associated data were the wrong
/// ones. Input too long to have come from `seal` fails in the same way,
/// without being handed to the cipher.
pub fn open(key: &[u8], nonce: &[u8], ciphertext: &[u8], aad: &[u8]) -> (r: Result<
    Vec<u8>,
    Failure,
>)
    ensures
        match r {
            Ok(plain) => open_outcome(key@, nonce@, ciphertext@, aad@) == Ok::<Seq<u8>, Failure>(
                plain@,
            ),
            Err(f) => open_outcome(key@, nonce@, ciphertext@, aad@) == Err::<Seq<u8>, Failure>(f),
        },
{
    if key.len() != KEY_LEN || nonce.len() != NONCE_LEN {
        return Err(Failure::InputRejected);
    }
    if ciphertext.len() as u64 > SEAL_LIMIT + TAG_LEN as u64 {
        return Err(Failure::AuthenticationFailed);
    }
    match decrypt(key, nonce, ciphertext, aad) {
        Ok(plain) => Ok(plain),
        Err(_) => Err(Failure::AuthenticationFailed),
    }
}

} // verus!
