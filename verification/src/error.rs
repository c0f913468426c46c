//! The failures that the vault core reports.

use vstd::prelude::*;

verus! {

/// Why an operation of the vault core did not go through.
#[derive(Clone, Copy, Debug, PartialEq, Eq, Structural)]
pub enum Failure {
    /// The caller's input is not acceptable: a key or nonce of the wrong
    /// length, a message too long to seal. (A refused name is reported by
    /// `add` as `false`.)
    InputRejected,
    /// The authentication tag did not verify: the master password is wrong
    /// or the bytes were altered. The two causes are never told apart.
    AuthenticationFailed,
    /// The bytes do not have the expected layout.
    FormatInvalid,
}

} // verus!
