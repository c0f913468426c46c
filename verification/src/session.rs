//! What an interactive session around a vault has to decide: which command
//! a word names, which file to open, whether a password was typed the same
//! way twice, which entry a number picks and which names a filter keeps.
//! Reading the terminal and the file is left to the program that runs the
//! session.

use vstd::prelude::*;
use vstd::utf8::encode_utf8;
use crate::name::lemma_name_key_injective;
use crate::order::rank_of;
use crate::order::Rank;

verus! {

/// A command of the session.
#[derive(Clone, Copy, Debug, PartialEq, Eq, Structural)]
pub enum Command {
    Help,
    Add,
    Remove,
    Get,
    List,
    Save,
    Exit,
    Unknown,
}

/// The command that a word names. Words are matched exactly.
pub open spec fn command_of(word: Seq<char>) -> Command {
    if word == "help"@ {
        Command::Help
    } else if word == "add"@ {
        Command::Add
    } else if word == "remove"@ {
        Command::Remove
    } else if word == "get"@ {
        Command::Get
    } else if word == "list"@ {
        Command::List
    } else if word == "save"@ {
        Command::Save
    } else if word == "exit"@ {
        Command::Exit
    } else {
        Command::Unknown
    }
}

/// Tells whether two strings are the same.
pub fn same_text(a: &str, b: &str) -> (r: bool)
    ensures
        r == (a@ == b@),
{
    proof {
        if encode_utf8(a@) == encode_utf8(b@) {
            lemma_name_key_injective(a@, b@);
        }
    }
    match rank_of(a.as_bytes(), b.as_bytes()) {
        Rank::Same => true,
        _ => false,
    }
}

/// Reads a command word.
pub fn parse_command(word: &str) -> (c: Command)
    ensures
        c == command_of(word@),
{
    if same_text(word, "help") {
        Command::Help
    } else if same_text(word, "add") {
        Command::Add
    } else if same_text(word, "remove") {
        Command::Remove
    } else if same_text(word, "get") {
        Command::Get
    } else if same_text(word, "list") {
        Command::List
    } else if same_text(word, "save") {
        Command::Save
    } else if same_text(word, "exit") {
        Command::Exit
    } else {
        Command::Unknown
    }
}

/// The path of the vault file among the program's arguments: the one after
/// the program's own name, if there is one.
pub fn vault_path(args: &[String]) -> (r: Option<&str>)
    ensures
        match r {
            Some(path) => args@.len() >= 2 && path@ == args@[1]@,
            None => args@.len() < 2,
        },
{
    if args.len() < 2 {
        None
    } else {
        Some(args[1].as_str())
    }
}

/// The item that a number picks, counting from zero.
pub fn select(items: &[String], id: usize) -> (r: Option<&str>)
    ensures
        match r {
            Some(item) => id < items@.len() && item@ == items@[id as int]@,
            None => id >= items@.len(),
        },
{
    if id < items.len() {
        Some(items[id].as_str())
    } else {
        None
    }
}

/// The number that a run of decimal digits writes.
pub open spec fn digits_value(digits: Seq<u8>) -> nat
    decreases digits.len(),
{
    if digits.len() == 0 {
        0
    } else {
        digits_value(digits.drop_last()) * 10 + (digits.last() - 0x30) as nat
    }
}

/// Every byte is a decimal digit.
pub open spec fn all_digits(digits: Seq<u8>) -> bool {
    forall|i: int| 0 <= i < digits.len() ==> 0x30 <= #[trigger] digits[i] <= 0x39
}

/// The number that a text writes: decimal digits, at least one, after an
/// optional `+`, and no more than a `usize` holds.
pub open spec fn number_of(text: Seq<u8>) -> Option<usize> {
    let digits = if text.len() > 0 && text[0] == 0x2b {
        text.drop_first()
    } else {
        text
    };
    if digits.len() == 0 || !all_digits(digits) || digits_value(digits) > usize::MAX {
        None
    } else {
        Some(digits_value(digits) as usize)
    }
}

/// A run of digits writes a number no smaller than any run it starts with.
proof fn lemma_digits_grow(digits: Seq<u8>, k: int)
    requires
        all_digits(digits),
        0 <= k <= digits.len(),
    ensures
        digits_value(digits.take(k)) <= digits_value(digits),
    decreases digits.len() - k,
{
    if k == digits.len() {
        assert(digits.take(k) =~= digits);
    } else {
        lemma_digits_grow(digits, k + 1);
        assert(digits.take(k + 1).drop_last() =~= digits.take(k));
    }
}

/// Reads the number of an entry as a person types it.
pub fn parse_id(text: &str) -> (r: Option<usize>)
    ensures
        r == number_of(encode_utf8(text@)),
{
    let bytes = text.as_bytes();
    let start: usize = if bytes.len() > 0 && bytes[0] == 0x2b {
        1
    } else {
        0
    };
    let ghost digits = bytes@.skip(start as int);
    proof {
        assert(bytes@.skip(0) =~= bytes@);
        assert(bytes@.skip(1) =~= bytes@.drop_first());
    }
    if start >= bytes.len() {
        return None;
    }
    let mut value: usize = 0;
    let mut i: usize = start;
    assert(digits.take(0) =~= Seq::<u8>::empty());
    while i < bytes.len()
        invariant
            start <= i <= bytes@.len(),
            bytes@ == encode_utf8(text@),
            digits == bytes@.skip(start as int),
            digits.len() > 0,
            number_of(bytes@) == if !all_digits(digits) || digits_value(digits) > usize::MAX {
                None
            } else {
                Some(digits_value(digits) as usize)
            },
            all_digits(digits.take(i - start)),
            value == digits_value(digits.take(i - start)),
        decreases bytes@.len() - i,
    {
        let b: u8 = bytes[i];
        let ghost seen = digits.take(i - start);
        let ghost more = digits.take(i - start + 1);
        assert(more.drop_last() =~= seen);
        assert(more.last() == b);
        if b < 0x30 || b > 0x39 {
            assert(digits[i - start] == b);
            return None;
        }
        assert(all_digits(more)) by {
            assert forall|j: int| 0 <= j < more.len() implies 0x30 <= #[trigger] more[j] <= 0x39 by {
                if j < seen.len() {
                    assert(more[j] == seen[j]);
                }
            }
        }
        let digit: usize = (b - 0x30) as usize;
        let next = match value.checked_mul(10) {
            Some(tens) => tens.checked_add(digit),
            None => None,
        };
        value = match next {
            Some(next) => next,
            None => {
                proof {
                    // The digits so far already write too large a number; if
                    // the rest are digits too, the whole is larger still.
                    assert(digits_value(more) == value * 10 + digit);
                    if all_digits(digits) {
                        lemma_digits_grow(digits, i - start + 1);
                    }
                }
                return None;
            },
        };
        i = i + 1;
    }
    assert(digits.take(i - start) =~= digits);
    Some(value)
}

/// `needle` stands in `hay` at position `k`.
pub open spec fn occurs_at(hay: Seq<u8>, needle: Seq<u8>, k: int) -> bool {
    0 <= k && k + needle.len() <= hay.len() && hay.subrange(k, k + needle.len()) == needle
}

/// `needle` stands somewhere in `hay`. The empty string stands in every
/// string.
pub open spec fn occurs_in(hay: Seq<u8>, needle: Seq<u8>) -> bool {
    exists|k: int| occurs_at(hay, needle, k)
}

/// Tells whether `needle` stands in `hay` at position `k`.
fn stands_at(hay: &[u8], needle: &[u8], k: usize) -> (r: bool)
    requires
        k + needle@.len() <= hay@.len(),
    ensures
        r == occurs_at(hay@, needle@, k as int),
{
    let size: usize = hay.len();
    let mut j: usize = 0;
    while j < needle.len()
        invariant
            j <= needle@.len(),
            size == hay@.len(),
            k + needle@.len() <= hay@.len(),
            forall|m: int| 0 <= m < j ==> hay@[k + m] == needle@[m],
        decreases needle@.len() - j,
    {
        if hay[k + j] != needle[j] {
            assert(hay@.subrange(k as int, k + needle@.len())[j as int] == hay@[k + j]);
            return false;
        }
        j = j + 1;
    }
    assert(hay@.subrange(k as int, k + needle@.len()) =~= needle@);
    true
}

/// Tells whether the bytes of `filter` stand somewhere in the bytes of
/// `item`.
pub fn contains_text(item: &str, filter: &str) -> (r: bool)
    ensures
        r == occurs_in(encode_utf8(item@), encode_utf8(filter@)),
{
    let hay = item.as_bytes();
    let needle = filter.as_bytes();
    if needle.len() > hay.len() {
        return false;
    }
    let last: usize = hay.len() - needle.len();
    let mut k: usize = 0;
    loop
        invariant
            k <= last,
            last == hay@.len() - needle@.len(),
            hay@ == encode_utf8(item@),
            needle@ == encode_utf8(filter@),
            forall|m: int| 0 <= m < k ==> !occurs_at(hay@, needle@, m),
        decreases last - k,
    {
        if stands_at(hay, needle, k) {
            assert(occurs_at(hay@, needle@, k as int));
            return true;
        }
        if k == last {
            return false;
        }
        k = k + 1;
    }
}

/// The positions of the items that a filter keeps, in ascending order.
pub fn matching(items: &[String], filter: &str) -> (kept: Vec<usize>)
    ensures
        forall|a: int, b: int| 0 <= a < b < kept@.len() ==> kept@[a] < kept@[b],
        forall|a: int|
            0 <= a < kept@.len() ==> kept@[a] < items@.len() && occurs_in(
                encode_utf8(items@[#[trigger] kept@[a] as int]@),
                encode_utf8(filter@),
            ),
        forall|i: int|
            0 <= i < items@.len() && occurs_in(encode_utf8((#[trigger] items@[i])@), encode_utf8(filter@))
                ==> kept@.contains(i as usize),
{
    let mut kept: Vec<usize> = Vec::new();
    let mut i: usize = 0;
    while i < items.len()
        invariant
            i <= items@.len(),
            forall|a: int| 0 <= a < kept@.len() ==> kept@[a] < i,
            forall|a: int, b: int| 0 <= a < b < kept@.len() ==> kept@[a] < kept@[b],
            forall|a: int|
                0 <= a < kept@.len() ==> occurs_in(
                    encode_utf8(items@[#[trigger] kept@[a] as int]@),
                    encode_utf8(filter@),
                ),
            forall|j: int|
                0 <= j < i && occurs_in(encode_utf8((#[trigger] items@[j])@), encode_utf8(filter@))
                    ==> kept@.contains(j as usize),
        decreases items@.len() - i,
    {
        if contains_text(items[i].as_str(), filter) {
            let ghost before = kept@;
            kept.push(i);
            proof {
                assert(kept@[before.len() as int] == i);
                assert forall|j: int|
                    0 <= j < i + 1 && occurs_in(
                        encode_utf8((#[trigger] items@[j])@),
                        encode_utf8(filter@),
                    ) implies kept@.contains(j as usize) by {
                    if j < i {
                        let a = choose|a: int| 0 <= a < before.len() && before[a] == j as usize;
                        assert(kept@[a] == j as usize);
                    }
                }
            }
        }
        i = i + 1;
    }
    kept
}

} // verus!
