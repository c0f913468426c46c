//! One named secret.

use vstd::prelude::*;
use crate::name::is_valid_name;
use crate::name::valid_name;
use crate::secret::SecretBytes;

verus! {

/// What an entry is, mathematically: a name and the bytes of its secret.
pub struct Record {
    pub name: Seq<char>,
    pub secret: Seq<u8>,
}

/// A credential: a valid name and a secret that is zeroed when the entry is
/// dropped.
pub struct Entry {
    name: String,
    secret: SecretBytes,
}

impl View for Entry {
    type V = Record;

    closed spec fn view(&self) -> Record {
        Record { name: self.name@, secret: self.secret@ }
    }
}

/// The records that a sequence of entries stands for.
pub open spec fn records_of(entries: Seq<Entry>) -> Seq<Record> {
    entries.map_values(|e: Entry| e@)
}

impl Entry {
    #[verifier::type_invariant]
    spec fn named(self) -> bool {
        valid_name(self.name@)
    }

    /// An entry called `name` holding a copy of `secret`, or `None` when
    /// `name` is empty or holds the delimiter.
    pub fn new(name: &str, secret: &[u8]) -> (r: Option<Entry>)
        ensures
            match r {
                Some(e) => valid_name(name@) && e@ == (Record { name: name@, secret: secret@ }),
                None => !valid_name(name@),
            },
    {
        if is_valid_name(name) {
            Some(Entry { name: name.to_owned(), secret: SecretBytes::from_slice(secret) })
        } else {
            None
        }
    }

    /// Builds an entry from parts already checked.
    pub(crate) fn from_parts(name: String, secret: SecretBytes) -> (e: Entry)
        requires
            valid_name(name@),
        ensures
            e@ == (Record { name: name@, secret: secret@ }),
    {
        Entry { name, secret }
    }

    /// The entry's name, which is always a valid one.
    pub fn name(&self) -> (r: &str)
        ensures
            r@ == self@.name,
            valid_name(r@),
    {
        proof {
            use_type_invariant(self);
        }
        self.name.as_str()
    }

    /// The bytes of the secret, borrowed.
    pub(crate) fn secret_bytes(&self) -> (r: &[u8])
        ensures
            r@ == self@.secret,
    {
        self.secret.expose()
    }

    /// A copy of the secret; the copy is the caller's to protect.
    pub fn secret(&self) -> (r: Vec<u8>)
        ensures
            r@ == self@.secret,
    {
        self.secret.to_vec()
    }
}

} // verus!
