//! The lexicographic order on byte strings, by which a vault keeps its
//! entries.

use vstd::prelude::*;

verus! {

/// `a` comes strictly before `b` in lexicographic order: at the first
/// position where they differ `a` has the smaller byte, or `a` is a proper
/// prefix of `b`.
pub open spec fn precedes(a: Seq<u8>, b: Seq<u8>) -> bool
    decreases a.len(),
{
    if b.len() == 0 {
        false
    } else if a.len() == 0 {
        true
    } else if a[0] == b[0] {
        precedes(a.drop_first(), b.drop_first())
    } else {
        a[0] < b[0]
    }
}

/// How one byte string stands to another in lexicographic order.
#[derive(Clone, Copy, Debug, PartialEq, Eq, Structural)]
pub enum Rank {
    Before,
    Same,
    After,
}

/// The rank of `a` relative to `b`.
pub open spec fn rank(a: Seq<u8>, b: Seq<u8>) -> Rank {
    if a == b {
        Rank::Same
    } else if precedes(a, b) {
        Rank::Before
    } else {
        Rank::After
    }
}

/// No byte string comes before itself.
pub proof fn lemma_precedes_irreflexive(a: Seq<u8>)
    ensures
        !precedes(a, a),
    decreases a.len(),
{
    if a.len() > 0 {
        lemma_precedes_irreflexive(a.drop_first());
    }
}

/// Of two different byte strings, one comes before the other.
pub proof fn lemma_precedes_total(a: Seq<u8>, b: Seq<u8>)
    ensures
        a == b || precedes(a, b) || precedes(b, a),
    decreases a.len(),
{
    if a.len() == 0 || b.len() == 0 {
        if a.len() == 0 && b.len() == 0 {
            assert(a =~= b);
        }
    } else if a[0] == b[0] {
        lemma_precedes_total(a.drop_first(), b.drop_first());
        if a.drop_first() == b.drop_first() {
            assert(a =~= seq![a[0]] + a.drop_first());
            assert(b =~= seq![b[0]] + b.drop_first());
        }
    }
}

/// Two byte strings never come before each other.
pub proof fn lemma_precedes_asymmetric(a: Seq<u8>, b: Seq<u8>)
    requires
        precedes(a, b),
    ensures
        !precedes(b, a),
    decreases a.len(),
{
    if a.len() > 0 && b.len() > 0 && a[0] == b[0] {
        lemma_precedes_asymmetric(a.drop_first(), b.drop_first());
    }
}

/// The order is transitive.
pub proof fn lemma_precedes_transitive(a: Seq<u8>, b: Seq<u8>, c: Seq<u8>)
    requires
        precedes(a, b),
        precedes(b, c),
    ensures
        precedes(a, c),
    decreases a.len(),
{
    if a.len() > 0 && a[0] == b[0] && b[0] == c[0] {
        lemma_precedes_transitive(a.drop_first(), b.drop_first(), c.drop_first());
    }
}

/// Dropping a common prefix of length `k` does not change the order.
proof fn lemma_precedes_skip(a: Seq<u8>, b: Seq<u8>, k: int)
    requires
        0 <= k <= a.len(),
        k <= b.len(),
        a.take(k) == b.take(k),
    ensures
        precedes(a, b) == precedes(a.skip(k), b.skip(k)),
    decreases k,
{
    if k == 0 {
        assert(a.skip(0) =~= a);
        assert(b.skip(0) =~= b);
    } else {
        assert(a[0] == a.take(k)[0]);
        assert(b[0] == b.take(k)[0]);
        assert(a.drop_first().take(k - 1) =~= a.take(k).drop_first());
        assert(b.drop_first().take(k - 1) =~= b.take(k).drop_first());
        lemma_precedes_skip(a.drop_first(), b.drop_first(), k - 1);
        assert(a.drop_first().skip(k - 1) =~= a.skip(k));
        assert(b.drop_first().skip(k - 1) =~= b.skip(k));
    }
}

/// Compares two byte strings lexicographically.
pub fn rank_of(a: &[u8], b: &[u8]) -> (r: Rank)
    ensures
        r == rank(a@, b@),
{
    let mut i: usize = 0;
    while i < a.len() && i < b.len()
        invariant
            i <= a@.len(),
            i <= b@.len(),
            a@.take(i as int) == b@.take(i as int),
        decreases a@.len() - i,
    {
        if a[i] != b[i] {
            proof {
                lemma_precedes_skip(a@, b@, i as int);
                assert(a@.take(i as int + 1)[i as int] != b@.take(i as int + 1)[i as int]);
            }
            return if a[i] < b[i] {
                Rank::Before
            } else {
                Rank::After
            };
        }
        assert(a@.take(i as int + 1) =~= a@.take(i as int).push(a@[i as int]));
        assert(b@.take(i as int + 1) =~= b@.take(i as int).push(b@[i as int]));
        i = i + 1;
    }
    proof {
        lemma_precedes_skip(a@, b@, i as int);
    }
    if i < b.len() {
        Rank::Before
    } else if i < a.len() {
        Rank::After
    } else {
        assert(a@ =~= a@.take(i as int));
        assert(b@ =~= b@.take(i as int));
        Rank::Same
    }
}

} // verus!
