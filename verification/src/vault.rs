//! The vault: entries held in the clear while it is open, and sealed under
//! the master password when it is persisted.
//!
//! The master password plays no part in `add` and `get`: an open vault
//! holds its entries unencrypted, and only `serialize` and `deserialize`
//! derive a key.
//!
//! Salt and nonce are drawn anew at every save and written out in front of
//! the ciphertext they were used for; an open vault holds neither, and
//! making one needs no randomness. `serialize_with` is the save with salt
//! and nonce as arguments: what it returns is fixed by its inputs, and
//! `serialize` is that function applied to bytes from the operating
//! system.

use vstd::prelude::*;
use vstd::slice::slice_subrange;
use crate::cipher::fits_cipher;
use crate::cipher::open;
use crate::cipher::opened;
use crate::cipher::seal;
use crate::cipher::sealed;
use crate::cipher::NONCE_LEN;
use crate::cipher::SEAL_LIMIT;
use crate::cipher::TAG_LEN;
use crate::codec::all_encodable;
use crate::codec::append;
use crate::codec::decode;
use crate::codec::decode_records;
use crate::codec::encode;
use crate::codec::encoded_len;
use crate::codec::encode_records;
use crate::codec::lemma_decode_encode;
use crate::codec::lemma_encode_decode;
use crate::entry::records_of;
use crate::entry::Entry;
use crate::entry::Record;
use crate::format::assemble;
use crate::format::body_part;
use crate::format::header_part;
use crate::format::lemma_parts_of_assembled;
use crate::format::nonce_part;
use crate::format::salt_part;
use crate::format::split;
use crate::format::HEADER_LEN;
use crate::format::SALT_LEN;
use crate::index::ascending;
use crate::index::entry_map;
use crate::index::lemma_insert;
use crate::index::lemma_lookup;
use crate::index::lemma_remove;
use crate::index::find;
use crate::index::named_at;
use crate::index::slot_of;
use crate::kdf::derive_key;
use crate::kdf::derived_key;
use crate::name::name_key;
use crate::name::valid_name;
use crate::order::lemma_precedes_irreflexive;
use crate::order::lemma_precedes_transitive;
use crate::order::precedes;
use crate::order::rank_of;
use crate::order::Rank;
use crate::random::try_random_bytes;
use crate::secret::SecretBytes;

verus! {

/// `add` takes a name that is valid and not yet present.
pub open spec fn add_accepts(m: Map<Seq<char>, Seq<u8>>, name: Seq<char>) -> bool {
    valid_name(name) && !m.contains_key(name)
}

/// The mapping after `add`: with the new entry where the name is taken,
/// unchanged where it is refused.
pub open spec fn after_add(m: Map<Seq<char>, Seq<u8>>, name: Seq<char>, secret: Seq<u8>) -> Map<
    Seq<char>,
    Seq<u8>,
> {
    if add_accepts(m, name) {
        m.insert(name, secret)
    } else {
        m
    }
}

/// The mapping that seed entries give: each name with the secret of the
/// last seed entry that carries it.
pub open spec fn seeded(rs: Seq<Record>) -> Map<Seq<char>, Seq<u8>>
    decreases rs.len(),
{
    if rs.len() == 0 {
        Map::empty()
    } else {
        seeded(rs.drop_last()).insert(rs.last().name, rs.last().secret)
    }
}

/// The names are a listing of the mapping: they stand in strictly
/// ascending order of their bytes, and they are exactly the mapping's
/// names.
pub open spec fn lists(names: Seq<String>, m: Map<Seq<char>, Seq<u8>>) -> bool {
    &&& forall|i: int, j: int|
        0 <= i < j < names.len() ==> precedes(
            name_key(#[trigger] names[i]@),
            name_key(#[trigger] names[j]@),
        )
    &&& forall|i: int| 0 <= i < names.len() ==> m.contains_key(#[trigger] names[i]@)
    &&& forall|name: Seq<char>| #[trigger]
        m.contains_key(name) ==> exists|i: int| 0 <= i < names.len() && #[trigger] names[i]@ == name
}

/// The records can be sealed: their encoding is one that the cipher takes,
/// and the persisted form has a length that the machine can hold.
pub open spec fn can_seal(rs: Seq<Record>) -> bool {
    &&& fits_cipher(encode_records(rs))
    &&& encode_records(rs).len() + TAG_LEN + HEADER_LEN <= usize::MAX
}

/// The persisted form of the records `rs` under `password`, sealed with
/// `salt` and `nonce`: the salt, the nonce, and the encoding of the records
/// sealed under the key derived from password and salt, with salt and
/// nonce as associated data.
pub open spec fn image_of(
    rs: Seq<Record>,
    password: Seq<char>,
    salt: Seq<u8>,
    nonce: Seq<u8>,
) -> Seq<u8> {
    salt + nonce + sealed(derived_key(password, salt), nonce, encode_records(rs), salt + nonce)
}

/// `bytes` is a persisted form of the records `rs` under `password`,
/// whatever salt and nonce it was sealed with. The last line is what the
/// cipher promises of whatever it seals: that it opens again.
pub open spec fn is_image(bytes: Seq<u8>, rs: Seq<Record>, password: Seq<char>) -> bool {
    let key = derived_key(password, salt_part(bytes));
    &&& fits_cipher(encode_records(rs))
    &&& bytes.len() == HEADER_LEN + encode_records(rs).len() + TAG_LEN
    &&& body_part(bytes) == sealed(key, nonce_part(bytes), encode_records(rs), header_part(bytes))
    &&& opened(key, nonce_part(bytes), body_part(bytes), header_part(bytes)) == Some(
        encode_records(rs),
    )
}

/// The records that a decrypted plaintext holds: those it decodes to, when
/// they stand in strictly ascending order, and nothing otherwise.
pub open spec fn read_plain(plain: Seq<u8>) -> Option<Seq<Record>> {
    match decode_records(plain) {
        None => None,
        Some(rs) => if ascending(rs) {
            Some(rs)
        } else {
            None
        },
    }
}

/// The records that persisted bytes hold under a password: nothing when the
/// bytes are too short for salt and nonce or too long to have been sealed,
/// when the cipher does not open them under the key derived from the
/// password and their salt, or when what it opens them to is no
/// well-formed list of entries.
pub open spec fn unsealed(bytes: Seq<u8>, password: Seq<char>) -> Option<Seq<Record>> {
    if bytes.len() < HEADER_LEN || body_part(bytes).len() > SEAL_LIMIT + TAG_LEN {
        None
    } else {
        let key = derived_key(password, salt_part(bytes));
        match opened(key, nonce_part(bytes), body_part(bytes), header_part(bytes)) {
            None => None,
            Some(plain) => read_plain(plain),
        }
    }
}

/// A persisted form of records unseals, under the password it was sealed
/// with, to those records.
pub proof fn lemma_image_unseals(bytes: Seq<u8>, rs: Seq<Record>, password: Seq<char>)
    requires
        ascending(rs),
        all_encodable(rs),
        is_image(bytes, rs, password),
    ensures
        unsealed(bytes, password) == Some(rs),
{
    lemma_decode_encode(rs);
}

/// Bytes that are too short or too long, or that the cipher does not
/// authenticate under the key derived from a password and their salt, hold
/// nothing under that password: no vault is made of them, whatever they
/// would decrypt to. Whether the cipher authenticates bytes that were
/// altered, or sealed under another password, is the cipher's matter and is
/// not stated here.
pub proof fn lemma_unauthenticated_holds_nothing(bytes: Seq<u8>, password: Seq<char>)
    requires
        bytes.len() < HEADER_LEN || body_part(bytes).len() > SEAL_LIMIT + TAG_LEN || opened(
            derived_key(password, salt_part(bytes)),
            nonce_part(bytes),
            body_part(bytes),
            header_part(bytes),
        ) is None,
    ensures
        unsealed(bytes, password) is None,
{
}

/// An `add` under a name that an earlier `add` has put in is refused and
/// changes nothing: the name keeps its first secret.
pub proof fn lemma_second_add_refused(
    m: Map<Seq<char>, Seq<u8>>,
    name: Seq<char>,
    first: Seq<u8>,
    second: Seq<u8>,
)
    requires
        add_accepts(m, name),
    ensures
        !add_accepts(after_add(m, name, first), name),
        after_add(after_add(m, name, first), name, second) == after_add(m, name, first),
        after_add(after_add(m, name, first), name, second)[name] == first,
{
}

/// An `add` under a name that holds the delimiter is refused and changes
/// nothing.
pub proof fn lemma_delimiter_refused(m: Map<Seq<char>, Seq<u8>>, name: Seq<char>, secret: Seq<u8>)
    requires
        name.contains(':'),
    ensures
        !add_accepts(m, name),
        after_add(m, name, secret) == m,
{
}

/// A store of named secrets.
pub struct Vault {
    entries: Vec<Entry>,
}

impl View for Vault {
    type V = Map<Seq<char>, Seq<u8>>;

    /// The mapping from names to secrets.
    open spec fn view(&self) -> Map<Seq<char>, Seq<u8>> {
        entry_map(self.records())
    }
}

/// Tells whether the entries stand in strictly ascending order of their
/// names.
fn in_order(entries: &Vec<Entry>) -> (r: bool)
    ensures
        r == ascending(records_of(entries@)),
{
    let ghost rs = records_of(entries@);
    if entries.len() < 2 {
        return true;
    }
    let mut i: usize = 1;
    while i < entries.len()
        invariant
            1 <= i <= entries@.len(),
            rs == records_of(entries@),
            ascending(rs.take(i as int)),
        decreases entries@.len() - i,
    {
        let before = entries[i - 1].name().as_bytes();
        let here = entries[i].name().as_bytes();
        assert(before@ == name_key(rs[i - 1].name));
        assert(here@ == name_key(rs[i as int].name));
        match rank_of(before, here) {
            Rank::Before => {
                proof {
                    let shorter = rs.take(i as int);
                    let longer = rs.take(i + 1);
                    assert forall|a: int, b: int| 0 <= a < b < longer.len() implies precedes(
                        name_key(#[trigger] longer[a].name),
                        name_key(#[trigger] longer[b].name),
                    ) by {
                        assert(longer[a] == rs[a] && longer[b] == rs[b]);
                        if b < i {
                            assert(shorter[a] == rs[a] && shorter[b] == rs[b]);
                        } else if a < i - 1 {
                            assert(shorter[a] == rs[a] && shorter[i - 1] == rs[i - 1]);
                            assert(precedes(name_key(shorter[a].name), name_key(shorter[i - 1].name)));
                            lemma_precedes_transitive(name_key(rs[a].name), before@, here@);
                        }
                    }
                }
            },
            _ => {
                proof {
                    lemma_precedes_irreflexive(here@);
                }
                assert(!precedes(name_key(rs[i - 1].name), name_key(rs[i as int].name)));
                return false;
            },
        }
        i = i + 1;
    }
    assert(rs.take(i as int) =~= rs);
    true
}

impl Vault {
    #[verifier::type_invariant]
    spec fn sound(self) -> bool {
        &&& ascending(records_of(self.entries@))
        &&& all_encodable(records_of(self.entries@))
    }

    /// The vault's records, in ascending order of their names.
    pub closed spec fn records(&self) -> Seq<Record> {
        records_of(self.entries@)
    }

    /// A new vault, empty or holding the seed entries. Of several seed
    /// entries with one name the last one stays.
    pub fn create(seed: Option<Vec<Entry>>) -> (v: Vault)
        ensures
            v@ == match seed {
                Some(given) => seeded(records_of(given@)),
                None => Map::<Seq<char>, Seq<u8>>::empty(),
            },
            ascending(v.records()),
            all_encodable(v.records()),
    {
        let mut entries: Vec<Entry> = Vec::new();
        assert(records_of(entries@) =~= Seq::<Record>::empty());
        assert(entry_map(records_of(entries@)) =~= Map::<Seq<char>, Seq<u8>>::empty());
        match seed {
            None => {},
            Some(given) => {
                let ghost all = records_of(given@);
                let mut pending = given;
                assert(seeded(all).union_prefer_right(entry_map(records_of(entries@))) =~= seeded(
                    all,
                ));
                while pending.len() > 0
                    invariant
                        ascending(records_of(entries@)),
                        all_encodable(records_of(entries@)),
                        seeded(all) == seeded(records_of(pending@)).union_prefer_right(
                            entry_map(records_of(entries@)),
                        ),
                    decreases pending@.len(),
                {
                    let ghost waiting = records_of(pending@);
                    let ghost have = records_of(entries@);
                    let entry = pending.pop().unwrap();
                    // Asking for the length tells the verifier that it fits
                    // the length field of the encoding.
                    let _size: usize = entry.secret_bytes().len();
                    let (i, found) = find(&entries, entry.name());
                    proof {
                        assert(waiting.last() == entry@);
                        assert(records_of(pending@) =~= waiting.drop_last());
                    }
                    if !found {
                        proof {
                            lemma_insert(have, i as int, entry@);
                            assert(records_of(entries@.insert(i as int, entry)) =~= have.insert(
                                i as int,
                                entry@,
                            ));
                            assert(seeded(waiting).union_prefer_right(entry_map(have)) =~= seeded(
                                waiting.drop_last(),
                            ).union_prefer_right(entry_map(have.insert(i as int, entry@))));
                        }
                        entries.insert(i, entry);
                    } else {
                        assert(seeded(waiting).union_prefer_right(entry_map(have)) =~= seeded(
                            waiting.drop_last(),
                        ).union_prefer_right(entry_map(have)));
                    }
                }
                assert(seeded(records_of(pending@)) =~= Map::<Seq<char>, Seq<u8>>::empty());
                assert(seeded(records_of(pending@)).union_prefer_right(
                    entry_map(records_of(entries@)),
                ) =~= entry_map(records_of(entries@)));
            },
        }
        Vault { entries }
    }

    /// Puts a new entry in. The entry is refused, and the vault left as it
    /// was, when the name is empty, holds the delimiter or is already
    /// present; to replace a secret, remove the entry first.
    pub fn add(&mut self, name: &str, secret: &[u8], _master_password: &str) -> (added: bool)
        ensures
            added == add_accepts(old(self)@, name@),
            final(self)@ == after_add(old(self)@, name@, secret@),
            ascending(final(self).records()),
            all_encodable(final(self).records()),
    {
        proof {
            use_type_invariant(&*self);
        }
        let ghost rs = self.records();
        let entry = match Entry::new(name, secret) {
            Some(entry) => entry,
            None => {
                return false;
            },
        };
        // Asking for the length tells the verifier that it fits the length
        // field of the encoding.
        let _size: usize = secret.len();
        let (i, found) = find(&self.entries, name);
        if found {
            return false;
        }
        let mut entries: Vec<Entry> = Vec::new();
        assert(records_of(entries@) =~= Seq::<Record>::empty());
        std::mem::swap(&mut entries, &mut self.entries);
        proof {
            lemma_insert(rs, i as int, entry@);
            assert(records_of(entries@.insert(i as int, entry)) =~= rs.insert(i as int, entry@));
        }
        entries.insert(i, entry);
        self.entries = entries;
        true
    }

    /// Takes the entry called `name` out, and tells whether there was one.
    pub fn remove(&mut self, name: &str) -> (removed: bool)
        ensures
            removed == old(self)@.contains_key(name@),
            final(self)@ == old(self)@.remove(name@),
            ascending(final(self).records()),
            all_encodable(final(self).records()),
    {
        proof {
            use_type_invariant(&*self);
        }
        let ghost rs = self.records();
        let (i, found) = find(&self.entries, name);
        if !found {
            assert(self@.remove(name@) =~= self@);
            return false;
        }
        let mut entries: Vec<Entry> = Vec::new();
        assert(records_of(entries@) =~= Seq::<Record>::empty());
        std::mem::swap(&mut entries, &mut self.entries);
        proof {
            lemma_remove(rs, i as int);
            assert(records_of(entries@.remove(i as int)) =~= rs.remove(i as int));
        }
        let _ = entries.remove(i);
        self.entries = entries;
        true
    }

    /// A copy of the secret kept under `name`, if there is one. The copy is
    /// the caller's to protect.
    pub fn get(&self, name: &str, _master_password: &str) -> (r: Option<Vec<u8>>)
        ensures
            match r {
                Some(secret) => self@.contains_key(name@) && secret@ == self@[name@],
                None => !self@.contains_key(name@),
            },
    {
        proof {
            use_type_invariant(self);
        }
        let ghost rs = self.records();
        let (i, found) = find(&self.entries, name);
        if found {
            proof {
                lemma_lookup(rs, i as int);
            }
            Some(self.entries[i].secret())
        } else {
            None
        }
    }

    /// The names of all entries, in ascending order of their bytes.
    pub fn list(&self) -> (names: Vec<String>)
        ensures
            lists(names@, self@),
    {
        proof {
            use_type_invariant(self);
        }
        let ghost rs = self.records();
        let mut names: Vec<String> = Vec::new();
        let mut i: usize = 0;
        while i < self.entries.len()
            invariant
                i <= self.entries@.len(),
                rs == records_of(self.entries@),
                names@.len() == i,
                forall|k: int| 0 <= k < i ==> (#[trigger] names@[k])@ == rs[k].name,
            decreases self.entries@.len() - i,
        {
            names.push(self.entries[i].name().to_owned());
            i = i + 1;
        }
        proof {
            assert forall|a: int, b: int| 0 <= a < b < names@.len() implies precedes(
                name_key(#[trigger] names@[a]@),
                name_key(#[trigger] names@[b]@),
            ) by {
                assert(precedes(name_key(rs[a].name), name_key(rs[b].name)));
            }
            assert forall|k: int| 0 <= k < names@.len() implies self@.contains_key(
                #[trigger] names@[k]@,
            ) by {
                lemma_lookup(rs, k);
            }
            assert forall|name: Seq<char>| #[trigger] self@.contains_key(name) implies exists|
                k: int,
            |
                0 <= k < names@.len() && #[trigger] names@[k]@ == name by {
                let k = slot_of(rs, name);
                assert(named_at(rs, k, name));
                assert(names@[k]@ == name);
            }
        }
        names
    }

    /// Builds a vault from a decrypted plaintext: `Some` exactly when
    /// `read_plain` gives records, and then with those.
    pub fn restore(plain: &[u8]) -> (r: Option<Vault>)
        ensures
            match r {
                Some(v) => read_plain(plain@) == Some(v.records()),
                None => read_plain(plain@) is None,
            },
            r matches Some(v) ==> ascending(v.records()) && all_encodable(v.records()),
    {
        let entries = match decode(plain) {
            Ok(entries) => entries,
            Err(_) => {
                return None;
            },
        };
        if !in_order(&entries) {
            return None;
        }
        proof {
            lemma_encode_decode(plain@);
        }
        Some(Vault { entries })
    }

    /// The persisted form of the vault under `master_password`, sealed with
    /// the salt and the nonce given: the salt, the nonce, and the encoded
    /// entries sealed under the key derived from password and salt, with
    /// salt and nonce as associated data.
    ///
    /// Succeeds exactly when salt and nonce have their lengths and the
    /// entries are not too large to seal. What comes out unseals, under the
    /// same password, to this vault's records. Salt and nonce must be
    /// random and never used before: `serialize` draws them, and this
    /// function is for callers that bring their own.
    pub fn serialize_with(&self, master_password: &str, salt: &[u8], nonce: &[u8]) -> (r: Option<
        Vec<u8>,
    >)
        ensures
            r is Some <==> salt@.len() == SALT_LEN && nonce@.len() == NONCE_LEN && can_seal(
                self.records(),
            ),
            r matches Some(bytes) ==> {
                &&& bytes@ == image_of(self.records(), master_password@, salt@, nonce@)
                &&& is_image(bytes@, self.records(), master_password@)
                &&& unsealed(bytes@, master_password@) == Some(self.records())
            },
    {
        proof {
            use_type_invariant(self);
        }
        if salt.len() != SALT_LEN || nonce.len() != NONCE_LEN {
            return None;
        }
        let size: usize = match encoded_len(self.entries.as_slice()) {
            Some(size) => size,
            None => {
                return None;
            },
        };
        if size > usize::MAX - TAG_LEN - HEADER_LEN || size as u64 > SEAL_LIMIT {
            return None;
        }
        let plain = SecretBytes::guard(encode(self.entries.as_slice()));
        let key = derive_key(master_password, salt);
        let mut header: Vec<u8> = Vec::new();
        append(&mut header, salt);
        append(&mut header, nonce);
        let body = match seal(key.expose(), nonce, plain.expose(), header.as_slice()) {
            Ok(body) => body,
            Err(_) => {
                return None;
            },
        };
        let bytes = assemble(salt, nonce, body.as_slice());
        proof {
            lemma_parts_of_assembled(salt@, nonce@, body@);
            assert(header@ =~= salt@ + nonce@);
            lemma_image_unseals(bytes@, self.records(), master_password@);
        }
        Some(bytes)
    }

    /// The persisted form of the vault under `master_password`, sealed with
    /// a fresh random salt and a fresh random nonce.
    ///
    /// What comes out is a persisted form of this vault and unseals, under
    /// the same password, to its records. Entries too large to seal give
    /// `None`; so does a system that has no randomness to give. Nothing is
    /// stated of salt and nonce but their lengths.
    pub fn serialize(&self, master_password: &str) -> (r: Option<Vec<u8>>)
        ensures
            r is Some ==> can_seal(self.records()),
            r matches Some(bytes) ==> {
                &&& is_image(bytes@, self.records(), master_password@)
                &&& unsealed(bytes@, master_password@) == Some(self.records())
            },
    {
        let drawn = match try_random_bytes(HEADER_LEN) {
            Ok(drawn) => drawn,
            Err(_) => {
                return None;
            },
        };
        let salt = slice_subrange(drawn.as_slice(), 0, SALT_LEN);
        let nonce = slice_subrange(drawn.as_slice(), SALT_LEN, HEADER_LEN);
        self.serialize_with(master_password, salt, nonce)
    }

    /// Loads a persisted vault: `Some` exactly when the bytes unseal under
    /// `master_password`, and then with the records they hold. A wrong
    /// password, altered bytes and a malformed layout all give the same
    /// `None`.
    pub fn deserialize(bytes: &[u8], master_password: &str) -> (r: Option<Vault>)
        ensures
            match r {
                Some(v) => unsealed(bytes@, master_password@) == Some(v.records()),
                None => unsealed(bytes@, master_password@) is None,
            },
            r matches Some(v) ==> ascending(v.records()) && all_encodable(v.records()),
    {
        let parts = match split(bytes) {
            Ok(parts) => parts,
            Err(_) => {
                return None;
            },
        };
        let key = derive_key(master_password, parts.salt);
        let header = slice_subrange(bytes, 0, HEADER_LEN);
        assert(header@ =~= header_part(bytes@));
        let plain = match open(key.expose(), parts.nonce, parts.body, header) {
            Ok(plain) => SecretBytes::guard(plain),
            Err(_) => {
                proof {
                    lemma_unauthenticated_holds_nothing(bytes@, master_password@);
                }
                return None;
            },
        };
        Vault::restore(plain.expose())
    }
}

} // verus!
