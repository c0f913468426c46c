//! Entry names: which strings may name an entry, and how a name is laid out
//! in bytes.

use vstd::prelude::*;
use vstd::utf8::*;

verus! {

/// The reserved byte that ends a name in the encoded form of an entry: `:`.
pub const DELIMITER: u8 = 0x3a;

/// A name is acceptable when it is not empty and holds no `:`.
pub open spec fn valid_name(name: Seq<char>) -> bool {
    name.len() > 0 && !name.contains(':')
}

/// The bytes of a name: its UTF-8 encoding. Entries are ordered by them.
pub open spec fn name_key(name: Seq<char>) -> Seq<u8> {
    encode_utf8(name)
}

/// The encoding of one scalar value is not empty, and holds the delimiter
/// byte only when the scalar is `:` itself.
proof fn lemma_scalar_delimiter(c: u32)
    requires
        is_scalar(c),
    ensures
        encode_scalar(c).len() >= 1,
        encode_scalar(c).contains(DELIMITER) <==> c == 0x3a,
{
    let e = encode_scalar(c);
    if has_width_1_encoding(c) {
        assert(((c & 0x7F) as u8 == 0x3au8) <==> c == 0x3a) by (bit_vector)
            requires
                c <= 0x7F,
        ;
        assert(e[0] == leading_byte_width_1(c));
        if c == 0x3a {
            assert(e[0] == DELIMITER);
        }
    } else {
        assert(0xC0u8 | ((c >> 6) & 0x1F) as u8 != 0x3au8) by (bit_vector);
        assert(0xE0u8 | ((c >> 12) & 0x0F) as u8 != 0x3au8) by (bit_vector);
        assert(0xF0u8 | ((c >> 18) & 0x7) as u8 != 0x3au8) by (bit_vector);
        assert(0x80u8 | (c & 0x3F) as u8 != 0x3au8) by (bit_vector);
        assert(0x80u8 | ((c >> 6) & 0x3F) as u8 != 0x3au8) by (bit_vector);
        assert(0x80u8 | ((c >> 12) & 0x3F) as u8 != 0x3au8) by (bit_vector);
        assert(forall|i: int| 0 <= i < e.len() ==> e[i] != DELIMITER);
    }
}

/// A name's bytes hold the delimiter byte exactly when the name holds `:`,
/// and are empty exactly when the name is.
pub proof fn lemma_name_key_delimiter(name: Seq<char>)
    ensures
        name_key(name).contains(DELIMITER) <==> name.contains(':'),
        name_key(name).len() == 0 <==> name.len() == 0,
    decreases name.len(),
{
    if name.len() > 0 {
        let c = name[0] as u32;
        let head = encode_scalar(c);
        let rest = name.drop_first();
        let tail = encode_utf8(rest);
        char_is_scalar(name[0]);
        lemma_scalar_delimiter(c);
        lemma_name_key_delimiter(rest);
        assert(name_key(name) == head + tail);
        assert(c == 0x3a <==> name[0] == ':') by {
            char_u32_cast(name[0], c);
            char_u32_cast(':', 0x3a);
        }
        if name.contains(':') {
            let i = choose|i: int| 0 <= i < name.len() && name[i] == ':';
            if i > 0 {
                assert(rest[i - 1] == ':');
                let j = choose|j: int| 0 <= j < tail.len() && tail[j] == DELIMITER;
                assert((head + tail)[head.len() + j] == DELIMITER);
            } else {
                let j = choose|j: int| 0 <= j < head.len() && head[j] == DELIMITER;
                assert((head + tail)[j] == DELIMITER);
            }
        }
        if (head + tail).contains(DELIMITER) {
            let j = choose|j: int| 0 <= j < (head + tail).len() && (head + tail)[j] == DELIMITER;
            if j < head.len() {
                assert(head[j] == DELIMITER);
                assert(name[0] == ':');
            } else {
                assert(tail[j - head.len()] == DELIMITER);
                let i = choose|i: int| 0 <= i < rest.len() && rest[i] == ':';
                assert(name[i + 1] == ':');
            }
        }
    }
}

/// Two names with the same bytes are the same name.
pub proof fn lemma_name_key_injective(a: Seq<char>, b: Seq<char>)
    requires
        name_key(a) == name_key(b),
    ensures
        a == b,
{
    encode_utf8_decode_utf8(a);
    encode_utf8_decode_utf8(b);
}

/// Tells whether `name` may name an entry.
pub fn is_valid_name(name: &str) -> (ok: bool)
    ensures
        ok == valid_name(name@),
{
    let bytes = name.as_bytes();
    proof {
        lemma_name_key_delimiter(name@);
    }
    if bytes.len() == 0 {
        return false;
    }
    let mut i: usize = 0;
    while i < bytes.len()
        invariant
            i <= bytes@.len(),
            bytes@ == name_key(name@),
            name@.len() > 0,
            name_key(name@).contains(DELIMITER) <==> name@.contains(':'),
            forall|j: int| 0 <= j < i ==> bytes@[j] != DELIMITER,
        decreases bytes@.len() - i,
    {
        if bytes[i] == DELIMITER {
            assert(bytes@[i as int] == DELIMITER);
            return false;
        }
        i = i + 1;
    }
    true
}

} // verus!
