//! Byte buffers that are overwritten with zeros when they are released.

use vstd::prelude::*;
use vstd::slice::slice_to_vec;
use zeroize::Zeroizing;

verus! {

/// A byte buffer whose memory is zeroed when the value is dropped.
///
/// The bytes live in a `zeroize::Zeroizing<Vec<u8>>`, which the verifier
/// cannot look into; [`held`] names what the buffer holds.
#[verifier::external_body]
pub struct SecretBytes {
    inner: Zeroizing<Vec<u8>>,
}

/// The bytes that a [`SecretBytes`] holds.
pub uninterp spec fn held(s: SecretBytes) -> Seq<u8>;

impl View for SecretBytes {
    type V = Seq<u8>;

    open spec fn view(&self) -> Seq<u8> {
        held(*self)
    }
}

impl SecretBytes {
    /// Moves `bytes` into a zeroizing buffer (`Zeroizing::new`); the buffer
    /// holds exactly the bytes that were moved in.
    #[verifier::external_body]
    pub(crate) fn guard(bytes: Vec<u8>) -> (s: SecretBytes)
        ensures
            held(s) == bytes@,
    {
        SecretBytes { inner: Zeroizing::new(bytes) }
    }

    /// Borrows the held bytes (`Deref::deref` of `Zeroizing`).
    #[verifier::external_body]
    pub(crate) fn expose(&self) -> (bytes: &[u8])
        ensures
            bytes@ == held(*self),
    {
        self.inner.as_slice()
    }

    /// A zeroizing buffer holding a copy of `bytes`.
    pub fn from_slice(bytes: &[u8]) -> (s: SecretBytes)
        ensures
            s@ == bytes@,
    {
        SecretBytes::guard(slice_to_vec(bytes))
    }

    /// A plain copy of the held bytes; the copy is the caller's to protect.
    pub fn to_vec(&self) -> (bytes: Vec<u8>)
        ensures
            bytes@ == self@,
    {
        slice_to_vec(self.expose())
    }

    /// The number of bytes held.
    pub fn len(&self) -> (n: usize)
        ensures
            n == self@.len(),
    {
        self.expose().len()
    }
}

} // verus!
