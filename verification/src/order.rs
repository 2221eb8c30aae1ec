//! Lexicographic order on byte-sequence keys, and the tie-breaking order on
//! (key, priority index) pairs that the merge cursor uses.

use vstd::prelude::*;

verus! {

/// Strict lexicographic order on byte sequences: `a` comes before `b`.
pub open spec fn key_lt(a: Seq<u8>, b: Seq<u8>) -> bool
    decreases a.len(),
{
    if b.len() == 0 {
        false
    } else if a.len() == 0 {
        true
    } else if a[0] < b[0] {
        true
    } else if b[0] < a[0] {
        false
    } else {
        key_lt(a.drop_first(), b.drop_first())
    }
}

/// Non-strict lexicographic order on byte sequences.
pub open spec fn key_le(a: Seq<u8>, b: Seq<u8>) -> bool {
    key_lt(a, b) || a == b
}

/// `key_lt` is a strict total order: exactly one of `a < b`, `b < a`, `a == b` holds.
pub proof fn lemma_key_lt_total(a: Seq<u8>, b: Seq<u8>)
    ensures
        key_lt(a, b) || key_lt(b, a) || a == b,
        !(key_lt(a, b) && key_lt(b, a)),
        key_lt(a, b) ==> a != b,
    decreases a.len(),
{
    if a.len() == 0 && b.len() == 0 {
        assert(a =~= b);
    } else if a.len() > 0 && b.len() > 0 && a[0] == b[0] {
        lemma_key_lt_total(a.drop_first(), b.drop_first());
        if !key_lt(a, b) && !key_lt(b, a) {
            assert(a.drop_first() == b.drop_first());
            assert forall|i: int| 0 <= i < a.len() implies a[i] == b[i] by {
                if i > 0 {
                    assert(a[i] == a.drop_first()[i - 1]);
                    assert(b[i] == b.drop_first()[i - 1]);
                }
            }
            assert(a =~= b);
        }
        if a == b {
            assert(a.drop_first() =~= b.drop_first());
        }
    }
}

pub proof fn lemma_key_lt_transitive(a: Seq<u8>, b: Seq<u8>, c: Seq<u8>)
    requires
        key_lt(a, b),
        key_lt(b, c),
    ensures
        key_lt(a, c),
    decreases a.len(),
{
    if a.len() > 0 && b.len() > 0 && c.len() > 0 && a[0] == b[0] && b[0] == c[0] {
        lemma_key_lt_transitive(a.drop_first(), b.drop_first(), c.drop_first());
    }
}

pub proof fn lemma_key_le_transitive(a: Seq<u8>, b: Seq<u8>, c: Seq<u8>)
    requires
        key_le(a, b),
        key_le(b, c),
    ensures
        key_le(a, c),
{
    if key_lt(a, b) && key_lt(b, c) {
        lemma_key_lt_transitive(a, b, c);
    }
}

/// Order on the pair (current key, priority index): keys ascending, and on
/// equal keys the smaller priority index first. This is the total order the
/// cursor's queue respects.
pub open spec fn entry_le(k1: Seq<u8>, i1: int, k2: Seq<u8>, i2: int) -> bool {
    key_lt(k1, k2) || (k1 == k2 && i1 <= i2)
}

pub proof fn lemma_entry_le_total(k1: Seq<u8>, i1: int, k2: Seq<u8>, i2: int)
    ensures
        entry_le(k1, i1, k2, i2) || entry_le(k2, i2, k1, i1),
        entry_le(k1, i1, k2, i2) && entry_le(k2, i2, k1, i1) ==> k1 == k2 && i1 == i2,
{
    lemma_key_lt_total(k1, k2);
}

pub proof fn lemma_entry_le_transitive(
    k1: Seq<u8>,
    i1: int,
    k2: Seq<u8>,
    i2: int,
    k3: Seq<u8>,
    i3: int,
)
    requires
        entry_le(k1, i1, k2, i2),
        entry_le(k2, i2, k3, i3),
    ensures
        entry_le(k1, i1, k3, i3),
{
    if key_lt(k1, k2) && key_lt(k2, k3) {
        lemma_key_lt_transitive(k1, k2, k3);
    }
}

/// A key/value record: the pairing of a key with the bytes stored under it.
pub struct Record {
    pub key: Vec<u8>,
    pub value: Vec<u8>,
}

impl Record {
    /// The mathematical view of a record: a pair of byte sequences.
    pub open spec fn view_pair(self) -> (Seq<u8>, Seq<u8>) {
        (self.key@, self.value@)
    }
}

/// The records of `s` have non-decreasing keys.
pub open spec fn entries_sorted(s: Seq<(Seq<u8>, Seq<u8>)>) -> bool {
    forall|p: int, q: int| 0 <= p < q < s.len() ==> key_le(#[trigger] s[p].0, #[trigger] s[q].0)
}

/// The records of `s` have strictly increasing keys: no key repeats.
pub open spec fn entries_strictly_sorted(s: Seq<(Seq<u8>, Seq<u8>)>) -> bool {
    forall|p: int, q: int| 0 <= p < q < s.len() ==> key_lt(#[trigger] s[p].0, #[trigger] s[q].0)
}

/// The outcome of a three-way key comparison.
pub enum KeyOrdering {
    Less,
    Equal,
    Greater,
}

/// If the first `i` bytes agree and position `i` decides in favour of `a`
/// (smaller byte, or `a` ends first), then `a` is lexicographically smaller.
proof fn lemma_key_lt_from_index(a: Seq<u8>, b: Seq<u8>, i: int)
    requires
        0 <= i <= a.len(),
        i <= b.len(),
        forall|j: int| 0 <= j < i ==> a[j] == b[j],
        (i < a.len() && i < b.len() && a[i] < b[i]) || (i == a.len() && i < b.len()),
    ensures
        key_lt(a, b),
    decreases i,
{
    if i > 0 {
        assert forall|j: int| 0 <= j < i - 1 implies a.drop_first()[j] == b.drop_first()[j] by {
            assert(a.drop_first()[j] == a[j + 1]);
            assert(b.drop_first()[j] == b[j + 1]);
        }
        if i < a.len() && i < b.len() {
            assert(a.drop_first()[i - 1] == a[i]);
            assert(b.drop_first()[i - 1] == b[i]);
        }
        lemma_key_lt_from_index(a.drop_first(), b.drop_first(), i - 1);
    }
}

/// Three-way lexicographic comparison of two keys.
pub fn key_compare(a: &Vec<u8>, b: &Vec<u8>) -> (o: KeyOrdering)
    ensures
        (o is Less) == key_lt(a@, b@),
        (o is Greater) == key_lt(b@, a@),
        (o is Equal) == (a@ == b@),
{
    let mut i: usize = 0;
    loop
        invariant
            i <= a@.len(),
            i <= b@.len(),
            forall|j: int| 0 <= j < i ==> a@[j] == b@[j],
        decreases a@.len() - i,
    {
        if i < a.len() && i < b.len() {
            if a[i] < b[i] {
                proof {
                    lemma_key_lt_from_index(a@, b@, i as int);
                    lemma_key_lt_total(a@, b@);
                }
                return KeyOrdering::Less;
            } else if b[i] < a[i] {
                proof {
                    lemma_key_lt_from_index(b@, a@, i as int);
                    lemma_key_lt_total(a@, b@);
                }
                return KeyOrdering::Greater;
            }
            i = i + 1;
        } else if i < b.len() {
            proof {
                lemma_key_lt_from_index(a@, b@, i as int);
                lemma_key_lt_total(a@, b@);
            }
            return KeyOrdering::Less;
        } else if i < a.len() {
            proof {
                lemma_key_lt_from_index(b@, a@, i as int);
                lemma_key_lt_total(a@, b@);
            }
            return KeyOrdering::Greater;
        } else {
            proof {
                assert(a@ =~= b@);
                lemma_key_lt_total(a@, b@);
            }
            return KeyOrdering::Equal;
        }
    }
}

} // verus!
