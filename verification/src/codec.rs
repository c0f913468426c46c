//! The byte form of a list of entries, before encryption.
//!
//! Each entry becomes one record: the UTF-8 bytes of its name, the
//! delimiter byte, the length of its secret as eight little-endian bytes,
//! and the secret. Records follow one another with nothing in between. A
//! name never holds the delimiter, so the first delimiter byte of a record
//! ends its name; the secret is length-prefixed and may hold any bytes.

use vstd::prelude::*;
use vstd::bytes::*;
use vstd::slice::slice_subrange;
use vstd::slice::slice_to_vec;
use vstd::utf8::*;
use crate::entry::records_of;
use crate::entry::Entry;
use crate::entry::Record;
use crate::error::Failure;
use crate::name::lemma_name_key_delimiter;
use crate::name::name_key;
use crate::name::valid_name;
use crate::name::DELIMITER;
use crate::secret::SecretBytes;

verus! {

/// The number of bytes that state the length of a secret.
pub const LENGTH_FIELD: usize = 8;

/// A record can be encoded when its name is valid and the length of its
/// secret fits the length field.
pub open spec fn encodable(r: Record) -> bool {
    valid_name(r.name) && r.secret.len() <= u64::MAX
}

/// Every record of the sequence can be encoded.
pub open spec fn all_encodable(rs: Seq<Record>) -> bool {
    forall|i: int| 0 <= i < rs.len() ==> encodable(#[trigger] rs[i])
}

/// The bytes of one record.
pub open spec fn encode_record(r: Record) -> Seq<u8> {
    name_key(r.name) + seq![DELIMITER] + spec_u64_to_le_bytes(r.secret.len() as u64) + r.secret
}

/// The bytes of a sequence of records: their encodings, one after another.
pub open spec fn encode_records(rs: Seq<Record>) -> Seq<u8>
    decreases rs.len(),
{
    if rs.len() == 0 {
        Seq::empty()
    } else {
        encode_record(rs[0]) + encode_records(rs.drop_first())
    }
}

/// Reads one record from the front of `bytes`: the record and the number of
/// bytes it takes, or `None` when `bytes` does not start with a record.
pub open spec fn decode_record(bytes: Seq<u8>) -> Option<(Record, int)> {
    match bytes.index_of_first(DELIMITER) {
        None => None,
        Some(d) => {
            let name = bytes.take(d);
            if d == 0 || !valid_utf8(name) || bytes.len() < d + 1 + LENGTH_FIELD {
                None
            } else {
                let n = spec_u64_from_le_bytes(bytes.subrange(d + 1, d + 1 + LENGTH_FIELD)) as int;
                let start = d + 1 + LENGTH_FIELD;
                if bytes.len() < start + n {
                    None
                } else {
                    Some(
                        (
                            Record {
                                name: decode_utf8(name),
                                secret: bytes.subrange(start, start + n),
                            },
                            start + n,
                        ),
                    )
                }
            }
        },
    }
}

/// Reads records until `bytes` is used up, or `None` when that fails at
/// some point.
pub open spec fn decode_records(bytes: Seq<u8>) -> Option<Seq<Record>>
    decreases bytes.len(),
{
    if bytes.len() == 0 {
        Some(Seq::empty())
    } else {
        match decode_record(bytes) {
            None => None,
            Some((r, n)) => if 0 < n <= bytes.len() {
                match decode_records(bytes.skip(n)) {
                    None => None,
                    Some(rest) => Some(seq![r] + rest),
                }
            } else {
                None
            },
        }
    }
}

/// The delimiter first occurs in `bytes` at `d`.
proof fn lemma_first_delimiter(bytes: Seq<u8>, d: int)
    requires
        0 <= d < bytes.len(),
        bytes[d] == DELIMITER,
        forall|j: int| 0 <= j < d ==> bytes[j] != DELIMITER,
    ensures
        bytes.index_of_first(DELIMITER) == Some(d),
{
    bytes.index_of_first_ensures(DELIMITER);
}

/// A record that `decode_record` hands out can be encoded, takes at least
/// ten bytes, and its encoding is the front of the input.
proof fn lemma_decode_record_sound(bytes: Seq<u8>)
    requires
        decode_record(bytes) is Some,
    ensures
        ({
            let (r, n) = decode_record(bytes)->0;
            &&& encodable(r)
            &&& 1 + 1 + LENGTH_FIELD <= n <= bytes.len()
            &&& encode_record(r) == bytes.take(n)
        }),
{
    bytes.index_of_first_ensures(DELIMITER);
    lemma_auto_spec_u64_to_from_le_bytes();
    let d = bytes.index_of_first(DELIMITER)->0;
    let (r, n) = decode_record(bytes)->0;
    let field = bytes.subrange(d + 1, d + 1 + LENGTH_FIELD);
    let name = bytes.take(d);
    decode_utf8_encode_utf8(name);
    lemma_name_key_delimiter(r.name);
    assert(!name.contains(DELIMITER));
    assert(r.secret.len() as u64 == spec_u64_from_le_bytes(field));
    assert(spec_u64_to_le_bytes(r.secret.len() as u64) == field);
    assert(encode_record(r) =~= bytes.take(n));
}

/// Decoding the encoding of a record, whatever follows it, gives the record
/// back and stops where the encoding ends.
proof fn lemma_decode_record_of_encoding(r: Record, rest: Seq<u8>)
    requires
        encodable(r),
    ensures
        decode_record(encode_record(r) + rest) == Some((r, encode_record(r).len() as int)),
        encode_record(r).len() >= 1 + 1 + LENGTH_FIELD,
{
    let key = name_key(r.name);
    let field = spec_u64_to_le_bytes(r.secret.len() as u64);
    let bytes = encode_record(r) + rest;
    let d = key.len() as int;
    lemma_name_key_delimiter(r.name);
    lemma_auto_spec_u64_to_from_le_bytes();
    encode_utf8_valid_utf8(r.name);
    encode_utf8_decode_utf8(r.name);
    assert(bytes[d] == DELIMITER);
    assert forall|j: int| 0 <= j < d implies bytes[j] != DELIMITER by {
        assert(bytes[j] == key[j]);
    }
    lemma_first_delimiter(bytes, d);
    assert(bytes.take(d) =~= key);
    assert(bytes.subrange(d + 1, d + 1 + LENGTH_FIELD) =~= field);
    let start = d + 1 + LENGTH_FIELD;
    assert(bytes.subrange(start, start + r.secret.len()) =~= r.secret);
}

/// The encoding of a sequence with one more record at its end.
pub proof fn lemma_encode_push(rs: Seq<Record>, r: Record)
    ensures
        encode_records(rs.push(r)) == encode_records(rs) + encode_record(r),
    decreases rs.len(),
{
    if rs.len() == 0 {
        assert(rs.push(r).drop_first() =~= Seq::<Record>::empty());
        assert(encode_records(rs.push(r).drop_first()) =~= Seq::<u8>::empty());
        assert(encode_records(rs.push(r)) =~= encode_records(rs) + encode_record(r));
    } else {
        lemma_encode_push(rs.drop_first(), r);
        assert(rs.push(r).drop_first() =~= rs.drop_first().push(r));
        assert(encode_records(rs.push(r)) =~= encode_records(rs) + encode_record(r));
    }
}

/// The encoding of two sequences joined is their encodings joined.
pub proof fn lemma_encode_concat(a: Seq<Record>, b: Seq<Record>)
    ensures
        encode_records(a + b) == encode_records(a) + encode_records(b),
    decreases b.len(),
{
    if b.len() == 0 {
        assert(a + b =~= a);
        assert(encode_records(a) + encode_records(b) =~= encode_records(a));
    } else {
        lemma_encode_concat(a, b.drop_last());
        lemma_encode_push(a + b.drop_last(), b.last());
        lemma_encode_push(b.drop_last(), b.last());
        assert((a + b.drop_last()).push(b.last()) =~= a + b);
        assert(b.drop_last().push(b.last()) =~= b);
        assert(encode_records(a + b) =~= encode_records(a) + encode_records(b));
    }
}

/// Decoding inverts encoding: whatever records can be encoded come back
/// unchanged, in the same order, from their encoding.
pub proof fn lemma_decode_encode(rs: Seq<Record>)
    requires
        all_encodable(rs),
    ensures
        decode_records(encode_records(rs)) == Some(rs),
    decreases rs.len(),
{
    if rs.len() == 0 {
        assert(rs =~= Seq::<Record>::empty());
    } else {
        let tail = rs.drop_first();
        let bytes = encode_records(rs);
        let n = encode_record(rs[0]).len() as int;
        assert(all_encodable(tail)) by {
            assert forall|i: int| 0 <= i < tail.len() implies encodable(#[trigger] tail[i]) by {
                assert(tail[i] == rs[i + 1]);
            }
        }
        lemma_decode_record_of_encoding(rs[0], encode_records(tail));
        lemma_decode_encode(tail);
        assert(bytes.skip(n) =~= encode_records(tail));
        assert(seq![rs[0]] + tail =~= rs);
    }
}

/// Decoding accepts nothing but encodings: when bytes decode to records,
/// each of the records can be encoded and together they encode to exactly
/// those bytes.
pub proof fn lemma_encode_decode(bytes: Seq<u8>)
    requires
        decode_records(bytes) is Some,
    ensures
        all_encodable(decode_records(bytes)->0),
        encode_records(decode_records(bytes)->0) == bytes,
    decreases bytes.len(),
{
    let rs = decode_records(bytes)->0;
    if bytes.len() == 0 {
        assert(bytes =~= Seq::<u8>::empty());
    } else {
        let (r, n) = decode_record(bytes)->0;
        let rest = decode_records(bytes.skip(n))->0;
        lemma_decode_record_sound(bytes);
        lemma_encode_decode(bytes.skip(n));
        assert(rs == seq![r] + rest);
        assert(rs.drop_first() =~= rest);
        assert(bytes =~= bytes.take(n) + bytes.skip(n));
    }
}

/// Turns bytes into a string when they are valid UTF-8 (`String::from_utf8`
/// of the standard library): the string is the one that the bytes encode,
/// and the call fails exactly when the bytes are not valid UTF-8.
#[verifier::external_body]
fn text_of(bytes: Vec<u8>) -> (r: Option<String>)
    ensures
        match r {
            Some(s) => valid_utf8(bytes@) && s@ == decode_utf8(bytes@),
            None => !valid_utf8(bytes@),
        },
{
    match String::from_utf8(bytes) {
        Ok(s) => Some(s),
        Err(_) => None,
    }
}

/// Appends `src` to `out`.
pub(crate) fn append(out: &mut Vec<u8>, src: &[u8])
    ensures
        final(out)@ == old(out)@ + src@,
{
    let mut i: usize = 0;
    while i < src.len()
        invariant
            i <= src@.len(),
            out@ == old(out)@ + src@.take(i as int),
        decreases src@.len() - i,
    {
        out.push(src[i]);
        assert(src@.take(i as int + 1) =~= src@.take(i as int).push(src@[i as int]));
        i = i + 1;
    }
    assert(src@.take(i as int) =~= src@);
}

/// The number of bytes that the entries encode to, or `None` when that
/// number is beyond what the machine can address.
pub fn encoded_len(entries: &[Entry]) -> (n: Option<usize>)
    ensures
        match n {
            Some(size) => size == encode_records(records_of(entries@)).len(),
            None => encode_records(records_of(entries@)).len() > usize::MAX,
        },
{
    let ghost rs = records_of(entries@);
    let mut total: usize = 0;
    let mut i: usize = 0;
    while i < entries.len()
        invariant
            i <= entries@.len(),
            rs == records_of(entries@),
            total == encode_records(rs.take(i as int)).len(),
        decreases entries@.len() - i,
    {
        let entry = &entries[i];
        let name_len: usize = entry.name().as_bytes().len();
        let secret_len: usize = entry.secret_bytes().len();
        proof {
            assert(rs[i as int] == entries@[i as int]@);
            lemma_auto_spec_u64_to_from_le_bytes();
            assert(encode_record(rs[i as int]).len() == name_len + 1 + LENGTH_FIELD + secret_len);
            lemma_encode_push(rs.take(i as int), rs[i as int]);
            assert(rs.take(i as int + 1) =~= rs.take(i as int).push(rs[i as int]));
            lemma_encode_concat(rs.take(i as int + 1), rs.skip(i as int + 1));
            assert(rs.take(i as int + 1) + rs.skip(i as int + 1) =~= rs);
        }
        let framed: usize = match name_len.checked_add(1 + LENGTH_FIELD) {
            Some(framed) => framed,
            None => {
                return None;
            },
        };
        let step: usize = match framed.checked_add(secret_len) {
            Some(step) => step,
            None => {
                return None;
            },
        };
        total = match total.checked_add(step) {
            Some(total) => total,
            None => {
                return None;
            },
        };
        i = i + 1;
    }
    assert(rs.take(i as int) =~= rs);
    Some(total)
}

/// Encodes entries, in the order given. The output is allocated once, at
/// its final size, so that no copy of a secret is left behind by a buffer
/// that had to grow.
pub fn encode(entries: &[Entry]) -> (out: Vec<u8>)
    ensures
        out@ == encode_records(records_of(entries@)),
{
    let ghost rs = records_of(entries@);
    let mut out: Vec<u8> = match encoded_len(entries) {
        Some(size) => Vec::with_capacity(size),
        None => Vec::new(),
    };
    let mut i: usize = 0;
    while i < entries.len()
        invariant
            i <= entries@.len(),
            rs == records_of(entries@),
            out@ == encode_records(rs.take(i as int)),
        decreases entries@.len() - i,
    {
        let entry = &entries[i];
        let secret = entry.secret_bytes();
        let field = u64_to_le_bytes(secret.len() as u64);
        let ghost before = out@;
        append(&mut out, entry.name().as_bytes());
        out.push(DELIMITER);
        append(&mut out, field.as_slice());
        append(&mut out, secret);
        proof {
            assert(rs[i as int] == entries@[i as int]@);
            assert(out@ =~= before + encode_record(rs[i as int]));
            lemma_encode_push(rs.take(i as int), rs[i as int]);
            assert(rs.take(i as int + 1) =~= rs.take(i as int).push(rs[i as int]));
        }
        i = i + 1;
    }
    assert(rs.take(i as int) =~= rs);
    out
}

/// Reads the record that starts at `pos`: the entry and the position just
/// past it.
fn decode_one(bytes: &[u8], pos: usize) -> (r: Result<(Entry, usize), Failure>)
    requires
        pos <= bytes@.len(),
    ensures
        match r {
            Ok((entry, next)) => {
                &&& pos < next <= bytes@.len()
                &&& decode_record(bytes@.skip(pos as int)) == Some((entry@, next - pos))
            },
            Err(f) => f == Failure::FormatInvalid && decode_record(bytes@.skip(pos as int)) is None,
        },
{
    let ghost tail = bytes@.skip(pos as int);
    let mut j: usize = pos;
    while j < bytes.len() && bytes[j] != DELIMITER
        invariant
            pos <= j <= bytes@.len(),
            tail == bytes@.skip(pos as int),
            forall|k: int| 0 <= k < j - pos ==> tail[k] != DELIMITER,
        decreases bytes@.len() - j,
    {
        j = j + 1;
    }
    if j >= bytes.len() {
        proof {
            tail.index_of_first_ensures(DELIMITER);
        }
        return Err(Failure::FormatInvalid);
    }
    let ghost d = j - pos;
    proof {
        assert(tail[d] == bytes@[j as int]);
        lemma_first_delimiter(tail, d);
    }
    if j == pos || bytes.len() - j < 1 + LENGTH_FIELD {
        return Err(Failure::FormatInvalid);
    }
    let name_bytes = slice_to_vec(slice_subrange(bytes, pos, j));
    assert(name_bytes@ =~= tail.take(d));
    let name = match text_of(name_bytes) {
        Some(name) => name,
        None => {
            return Err(Failure::FormatInvalid);
        },
    };
    let start: usize = j + 1 + LENGTH_FIELD;
    let field = slice_subrange(bytes, j + 1, start);
    assert(field@ =~= tail.subrange(d + 1, d + 1 + LENGTH_FIELD));
    let n: u64 = u64_from_le_bytes(field);
    if ((bytes.len() - start) as u64) < n {
        return Err(Failure::FormatInvalid);
    }
    let next: usize = start + n as usize;
    let secret = SecretBytes::from_slice(slice_subrange(bytes, start, next));
    proof {
        assert(secret@ =~= tail.subrange(d + 1 + LENGTH_FIELD, d + 1 + LENGTH_FIELD + n));
        lemma_decode_record_sound(tail);
    }
    Ok((Entry::from_parts(name, secret), next))
}

/// Puts `rs` in front of what may follow.
spec fn prepend(rs: Seq<Record>, rest: Option<Seq<Record>>) -> Option<Seq<Record>> {
    match rest {
        None => None,
        Some(more) => Some(rs + more),
    }
}

/// Decodes entries: `Ok` with the entries, in order, when `bytes` is a
/// sequence of well-formed records and nothing else, and
/// `Err(FormatInvalid)` when it is not. No partial result is handed out.
pub fn decode(bytes: &[u8]) -> (r: Result<Vec<Entry>, Failure>)
    ensures
        match r {
            Ok(entries) => decode_records(bytes@) == Some(records_of(entries@)),
            Err(f) => f == Failure::FormatInvalid && decode_records(bytes@) is None,
        },
{
    let mut entries: Vec<Entry> = Vec::new();
    let mut pos: usize = 0;
    assert(bytes@.skip(0) =~= bytes@);
    assert(records_of(entries@) =~= Seq::<Record>::empty());
    assert(prepend(records_of(entries@), decode_records(bytes@.skip(0))) == decode_records(bytes@)) by {
        if decode_records(bytes@) is Some {
            assert(records_of(entries@) + decode_records(bytes@)->0 =~= decode_records(bytes@)->0);
        }
    }
    while pos < bytes.len()
        invariant
            pos <= bytes@.len(),
            decode_records(bytes@) == prepend(
                records_of(entries@),
                decode_records(bytes@.skip(pos as int)),
            ),
        decreases bytes@.len() - pos,
    {
        let ghost tail = bytes@.skip(pos as int);
        let ghost done = records_of(entries@);
        match decode_one(bytes, pos) {
            Err(f) => {
                return Err(f);
            },
            Ok((entry, next)) => {
                proof {
                    assert(tail.skip(next - pos) =~= bytes@.skip(next as int));
                    assert(records_of(entries@.push(entry)) =~= done.push(entry@));
                    let after = decode_records(bytes@.skip(next as int));
                    if after is Some {
                        assert(done.push(entry@) + after->0 =~= done + (seq![entry@] + after->0));
                    }
                }
                entries.push(entry);
                pos = next;
            },
        }
    }
    proof {
        assert(records_of(entries@) + Seq::<Record>::empty() =~= records_of(entries@));
    }
    Ok(entries)
}

} // verus!
