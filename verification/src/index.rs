//! Entries kept in ascending order of their names, and the mapping from
//! names to secrets that such a sequence stands for.

use vstd::prelude::*;
use crate::entry::records_of;
use crate::entry::Entry;
use crate::entry::Record;
use crate::name::lemma_name_key_injective;
use crate::name::name_key;
use crate::order::lemma_precedes_asymmetric;
use crate::order::lemma_precedes_irreflexive;
use crate::order::lemma_precedes_total;
use crate::order::lemma_precedes_transitive;
use crate::order::precedes;
use crate::order::rank_of;
use crate::order::Rank;

verus! {

/// The records stand in strictly ascending order of their names' bytes, so
/// no name occurs twice.
pub open spec fn ascending(rs: Seq<Record>) -> bool {
    forall|i: int, j: int|
        0 <= i < j < rs.len() ==> precedes(
            name_key(#[trigger] rs[i].name),
            name_key(#[trigger] rs[j].name),
        )
}

/// The record at position `i` is called `name`.
pub open spec fn named_at(rs: Seq<Record>, i: int, name: Seq<char>) -> bool {
    0 <= i < rs.len() && rs[i].name == name
}

/// Some record is called `name`.
pub open spec fn has_name(rs: Seq<Record>, name: Seq<char>) -> bool {
    exists|i: int| named_at(rs, i, name)
}

/// A position at which a record called `name` stands.
pub open spec fn slot_of(rs: Seq<Record>, name: Seq<char>) -> int {
    choose|i: int| named_at(rs, i, name)
}

/// The mapping from names to secrets that the records stand for.
pub open spec fn entry_map(rs: Seq<Record>) -> Map<Seq<char>, Seq<u8>> {
    Map::new(|name: Seq<char>| has_name(rs, name), |name: Seq<char>| rs[slot_of(rs, name)].secret)
}

/// Position `i` is where a record with the bytes `key` for its name stands
/// or would have to be put: all records before it come before `key`, and
/// none from it on does.
pub open spec fn is_slot(rs: Seq<Record>, key: Seq<u8>, i: int) -> bool {
    &&& 0 <= i <= rs.len()
    &&& forall|j: int| 0 <= j < i ==> precedes(name_key(#[trigger] rs[j].name), key)
    &&& forall|j: int| i <= j < rs.len() ==> !precedes(name_key(#[trigger] rs[j].name), key)
}

/// In an ascending sequence a name stands at one position at most.
pub proof fn lemma_one_slot(rs: Seq<Record>, i: int, j: int, name: Seq<char>)
    requires
        ascending(rs),
        named_at(rs, i, name),
        named_at(rs, j, name),
    ensures
        i == j,
{
    lemma_precedes_irreflexive(name_key(name));
}

/// In an ascending sequence the mapping gives each name the secret of the
/// record that carries it.
pub proof fn lemma_lookup(rs: Seq<Record>, i: int)
    requires
        ascending(rs),
        0 <= i < rs.len(),
    ensures
        entry_map(rs).contains_key(rs[i].name),
        entry_map(rs)[rs[i].name] == rs[i].secret,
{
    let name = rs[i].name;
    assert(named_at(rs, i, name));
    lemma_one_slot(rs, i, slot_of(rs, name), name);
}

/// Where the slot for a name holds another name, or nothing, the name is
/// absent; where it holds the name, the name is present.
pub proof fn lemma_slot_decides(rs: Seq<Record>, name: Seq<char>, i: int)
    requires
        ascending(rs),
        is_slot(rs, name_key(name), i),
    ensures
        has_name(rs, name) <==> (i < rs.len() && rs[i].name == name),
        entry_map(rs).contains_key(name) <==> (i < rs.len() && rs[i].name == name),
{
    let key = name_key(name);
    lemma_precedes_irreflexive(key);
    if has_name(rs, name) {
        let j = slot_of(rs, name);
        assert(named_at(rs, j, name));
        if j > i {
            assert(precedes(name_key(rs[i].name), name_key(rs[j].name)));
        }
    }
    if i < rs.len() && rs[i].name == name {
        assert(named_at(rs, i, name));
    }
}

/// Putting a record with a new name into its slot keeps the order, and adds
/// exactly that name with its secret to the mapping.
pub proof fn lemma_insert(rs: Seq<Record>, i: int, r: Record)
    requires
        ascending(rs),
        is_slot(rs, name_key(r.name), i),
        !has_name(rs, r.name),
    ensures
        ascending(rs.insert(i, r)),
        entry_map(rs.insert(i, r)) == entry_map(rs).insert(r.name, r.secret),
{
    let key = name_key(r.name);
    let grown = rs.insert(i, r);
    assert forall|j: int| i <= j < rs.len() implies precedes(key, name_key(#[trigger] rs[j].name)) by {
        let other = name_key(rs[j].name);
        lemma_precedes_total(key, other);
        if key == other {
            lemma_name_key_injective(r.name, rs[j].name);
            assert(named_at(rs, j, r.name));
        }
    }
    assert(ascending(grown)) by {
        assert forall|a: int, b: int| 0 <= a < b < grown.len() implies precedes(
            name_key(#[trigger] grown[a].name),
            name_key(#[trigger] grown[b].name),
        ) by {
            if b < i {
                assert(grown[a] == rs[a] && grown[b] == rs[b]);
            } else if b == i {
                assert(grown[a] == rs[a]);
            } else if a < i {
                assert(grown[a] == rs[a] && grown[b] == rs[b - 1]);
                if b - 1 == a {
                } else {
                    assert(precedes(name_key(rs[a].name), name_key(rs[b - 1].name)));
                }
                lemma_precedes_transitive(name_key(rs[a].name), key, name_key(rs[b - 1].name));
            } else if a == i {
                assert(grown[b] == rs[b - 1]);
            } else {
                assert(grown[a] == rs[a - 1] && grown[b] == rs[b - 1]);
            }
        }
    }
    let left = entry_map(grown);
    let right = entry_map(rs).insert(r.name, r.secret);
    assert forall|name: Seq<char>| left.contains_key(name) <==> right.contains_key(name) by {
        if has_name(grown, name) {
            let j = slot_of(grown, name);
            assert(named_at(grown, j, name));
            if j < i {
                assert(named_at(rs, j, name));
            } else if j > i {
                assert(named_at(rs, j - 1, name));
            }
        }
        if has_name(rs, name) {
            let j = slot_of(rs, name);
            assert(named_at(rs, j, name));
            if j < i {
                assert(named_at(grown, j, name));
            } else {
                assert(named_at(grown, j + 1, name));
            }
        }
        if name == r.name {
            assert(named_at(grown, i, name));
        }
    }
    assert forall|name: Seq<char>| left.contains_key(name) implies left[name] == right[name] by {
        let j = slot_of(grown, name);
        assert(named_at(grown, j, name));
        if j == i {
        } else if j < i {
            assert(grown[j] == rs[j]);
            lemma_lookup(rs, j);
        } else {
            assert(grown[j] == rs[j - 1]);
            lemma_lookup(rs, j - 1);
        }
    }
    assert(left =~= right);
}

/// Taking a record out keeps the order, and takes exactly its name out of
/// the mapping.
pub proof fn lemma_remove(rs: Seq<Record>, i: int)
    requires
        ascending(rs),
        0 <= i < rs.len(),
    ensures
        ascending(rs.remove(i)),
        entry_map(rs.remove(i)) == entry_map(rs).remove(rs[i].name),
{
    let gone = rs[i].name;
    let shrunk = rs.remove(i);
    assert(ascending(shrunk)) by {
        assert forall|a: int, b: int| 0 <= a < b < shrunk.len() implies precedes(
            name_key(#[trigger] shrunk[a].name),
            name_key(#[trigger] shrunk[b].name),
        ) by {
            let a0 = if a < i { a } else { a + 1 };
            let b0 = if b < i { b } else { b + 1 };
            assert(shrunk[a] == rs[a0] && shrunk[b] == rs[b0]);
            assert(precedes(name_key(rs[a0].name), name_key(rs[b0].name)));
        }
    }
    let left = entry_map(shrunk);
    let right = entry_map(rs).remove(gone);
    assert forall|name: Seq<char>| left.contains_key(name) <==> right.contains_key(name) by {
        if has_name(shrunk, name) {
            let j = slot_of(shrunk, name);
            assert(named_at(shrunk, j, name));
            let j0 = if j < i { j } else { j + 1 };
            assert(named_at(rs, j0, name));
            if name == gone {
                lemma_one_slot(rs, j0, i, name);
            }
        }
        if has_name(rs, name) && name != gone {
            let j = slot_of(rs, name);
            assert(named_at(rs, j, name));
            if j < i {
                assert(named_at(shrunk, j, name));
            } else {
                assert(named_at(shrunk, j - 1, name));
            }
        }
    }
    assert forall|name: Seq<char>| left.contains_key(name) implies left[name] == right[name] by {
        let j = slot_of(shrunk, name);
        assert(named_at(shrunk, j, name));
        let j0 = if j < i { j } else { j + 1 };
        assert(shrunk[j] == rs[j0]);
        lemma_lookup(rs, j0);
    }
    assert(left =~= right);
}

/// An ascending sequence is determined by its mapping: two of them that
/// stand for the same mapping are equal. So what a vault persists depends
/// on nothing but its mapping and its salt.
pub proof fn lemma_ascending_unique(a: Seq<Record>, b: Seq<Record>)
    requires
        ascending(a),
        ascending(b),
        entry_map(a) == entry_map(b),
    ensures
        a == b,
    decreases a.len(),
{
    if a.len() == 0 {
        if b.len() > 0 {
            assert(named_at(b, 0, b[0].name));
            assert(entry_map(b).contains_key(b[0].name));
            assert(has_name(a, b[0].name));
            let j = slot_of(a, b[0].name);
            assert(named_at(a, j, b[0].name));
        }
        assert(a =~= b);
    } else {
        let last = a.len() - 1;
        lemma_lookup(a, last);
        let name = a[last].name;
        assert(has_name(b, name));
        let k = slot_of(b, name);
        assert(named_at(b, k, name));
        lemma_lookup(b, k);
        if k < b.len() - 1 {
            // A later record of `b` would have to stand in `a` too, after its
            // last one.
            let late = b[b.len() - 1].name;
            lemma_lookup(b, b.len() - 1);
            assert(has_name(a, late));
            let m = slot_of(a, late);
            assert(named_at(a, m, late));
            assert(precedes(name_key(b[k].name), name_key(b[b.len() - 1].name)));
            if m < last {
                assert(precedes(name_key(a[m].name), name_key(a[last].name)));
                lemma_precedes_asymmetric(name_key(name), name_key(late));
            } else {
                lemma_precedes_irreflexive(name_key(name));
            }
        }
        lemma_remove(a, last);
        lemma_remove(b, k);
        lemma_ascending_unique(a.remove(last), b.remove(k));
        assert(a =~= a.remove(last).push(a[last]));
        assert(b =~= b.remove(k).push(b[k]));
    }
}

/// Finds the slot for `key` among entries in ascending order, and tells
/// whether the entry there carries `key` as its name.
fn locate(entries: &Vec<Entry>, key: &[u8]) -> (r: (usize, bool))
    requires
        ascending(records_of(entries@)),
    ensures
        is_slot(records_of(entries@), key@, r.0 as int),
        r.1 == (r.0 < entries@.len() && name_key(entries@[r.0 as int]@.name) == key@),
{
    let ghost rs = records_of(entries@);
    let mut lo: usize = 0;
    let mut hi: usize = entries.len();
    while lo < hi
        invariant
            lo <= hi <= entries@.len(),
            rs == records_of(entries@),
            ascending(rs),
            forall|j: int| 0 <= j < lo ==> precedes(name_key(#[trigger] rs[j].name), key@),
            forall|j: int| hi <= j < rs.len() ==> precedes(key@, name_key(#[trigger] rs[j].name)),
        decreases hi - lo,
    {
        let mid: usize = lo + (hi - lo) / 2;
        let here = entries[mid].name().as_bytes();
        assert(here@ == name_key(rs[mid as int].name));
        match rank_of(here, key) {
            Rank::Before => {
                assert forall|j: int| 0 <= j < mid + 1 implies precedes(
                    name_key(#[trigger] rs[j].name),
                    key@,
                ) by {
                    if j < mid {
                        assert(precedes(name_key(rs[j].name), name_key(rs[mid as int].name)));
                        lemma_precedes_transitive(name_key(rs[j].name), here@, key@);
                    }
                }
                lo = mid + 1;
            },
            Rank::Same => {
                proof {
                    lemma_precedes_irreflexive(key@);
                    assert forall|j: int| 0 <= j < mid implies precedes(
                        name_key(#[trigger] rs[j].name),
                        key@,
                    ) by {
                        assert(precedes(name_key(rs[j].name), name_key(rs[mid as int].name)));
                    }
                    assert forall|j: int| mid <= j < rs.len() implies !precedes(
                        name_key(#[trigger] rs[j].name),
                        key@,
                    ) by {
                        if j > mid {
                            assert(precedes(name_key(rs[mid as int].name), name_key(rs[j].name)));
                            lemma_precedes_asymmetric(key@, name_key(rs[j].name));
                        }
                    }
                }
                return (mid, true);
            },
            Rank::After => {
                proof {
                    lemma_precedes_total(here@, key@);
                    assert forall|j: int| mid <= j < rs.len() implies precedes(
                        key@,
                        name_key(#[trigger] rs[j].name),
                    ) by {
                        if j > mid {
                            assert(precedes(name_key(rs[mid as int].name), name_key(rs[j].name)));
                            lemma_precedes_transitive(key@, here@, name_key(rs[j].name));
                        }
                    }
                }
                hi = mid;
            },
        }
    }
    proof {
        lemma_precedes_irreflexive(key@);
        assert forall|j: int| lo <= j < rs.len() implies !precedes(
            name_key(#[trigger] rs[j].name),
            key@,
        ) by {
            lemma_precedes_asymmetric(key@, name_key(rs[j].name));
        }
        if lo < rs.len() {
            assert(precedes(key@, name_key(rs[lo as int].name)));
            assert(rs[lo as int] == entries@[lo as int]@);
        }
    }
    (lo, false)
}

/// Finds the slot for `name` among entries in ascending order, and tells
/// whether an entry is called `name`; if one is, it stands in that slot.
pub(crate) fn find(entries: &Vec<Entry>, name: &str) -> (r: (usize, bool))
    requires
        ascending(records_of(entries@)),
    ensures
        is_slot(records_of(entries@), name_key(name@), r.0 as int),
        r.1 == has_name(records_of(entries@), name@),
        r.1 == entry_map(records_of(entries@)).contains_key(name@),
        r.1 ==> r.0 < entries@.len() && records_of(entries@)[r.0 as int].name == name@,
{
    let ghost rs = records_of(entries@);
    let (i, found) = locate(entries, name.as_bytes());
    proof {
        lemma_slot_decides(rs, name@, i as int);
        if i < rs.len() && name_key(rs[i as int].name) == name_key(name@) {
            lemma_name_key_injective(rs[i as int].name, name@);
        }
    }
    (i, found)
}

} // verus!
