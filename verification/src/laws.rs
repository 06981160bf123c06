//! What holds of every double array and trie matrix that was built from a
//! key set.

use vstd::prelude::*;
use crate::enumeration::{lemma_enumeration, rooted};
use crate::keys::{in_closure, key_set, labels, walkable};
use crate::matrix::{row_accepts, rows_represent};
use crate::placement::layout;
use crate::slots::Slots;

verus! {

/// Every key of the set has a path in its double array.
pub proof fn lemma_keys_contained(s: Slots, ks: Set<Seq<u8>>, k: Seq<u8>)
    requires
        s.represents(ks),
        ks.contains(k),
    ensures
        s.accepts(k),
{
    assert(k =~= k.subrange(0, k.len() as int));
    assert(in_closure(ks, k));
    assert(walkable(ks, k));
}

/// A string that is not empty and is the prefix of no key has no path in
/// the double array.
pub proof fn lemma_strangers_rejected(s: Slots, ks: Set<Seq<u8>>, q: Seq<u8>)
    requires
        s.represents(ks),
        q.len() > 0,
        !in_closure(ks, q),
    ensures
        !s.accepts(q),
{
    assert(!walkable(ks, q));
}

/// A key with a suffix appended has no path in the double array, unless
/// some key of the set starts with the two together.
pub proof fn lemma_suffixed_key_rejected(s: Slots, ks: Set<Seq<u8>>, k: Seq<u8>, suffix: Seq<u8>)
    requires
        s.represents(ks),
        ks.contains(k),
        suffix.len() > 0,
        forall|k2: Seq<u8>| #[trigger] ks.contains(k2) ==> !(k + suffix).is_prefix_of(k2),
    ensures
        !s.accepts(k + suffix),
{
    lemma_strangers_rejected(s, ks, k + suffix);
}

/// The double array and the trie matrix of one key set give the same answer
/// for every string.
pub proof fn lemma_oracle_equivalence(
    s: Slots,
    rows: Seq<Seq<(u8, usize)>>,
    ks: Set<Seq<u8>>,
    q: Seq<u8>,
)
    requires
        s.represents(ks),
        rows_represent(rows, ks),
    ensures
        s.accepts(q) == row_accepts(rows, q),
{
    assert(s.accepts(q) <==> walkable(ks, q));
    assert(row_accepts(rows, q) <==> walkable(ks, q));
}

/// The enumeration of the double array of a key set holds exactly the
/// walkable strings that no key goes on from: every key that is not a proper
/// prefix of another key, and the empty string alone where there is no key.
pub proof fn lemma_enumeration_of_keys(s: Slots, ks: Set<Seq<u8>>, q: Seq<u8>)
    requires
        s.shaped(),
        s.represents(ks),
    ensures
        s.enumeration().contains(q) <==> walkable(ks, q) && labels(ks, q) =~= Set::empty(),
{
    assert(rooted(s));
    lemma_enumeration(s, q);
    assert(s.leaf_at(q) <==> walkable(ks, q) && labels(ks, q) =~= Set::empty());
}

/// The enumeration holds every key that is not a proper prefix of another
/// key.
pub proof fn lemma_enumeration_complete(s: Slots, ks: Set<Seq<u8>>, k: Seq<u8>)
    requires
        s.shaped(),
        s.represents(ks),
        ks.contains(k),
        forall|k2: Seq<u8>| #[trigger] ks.contains(k2) && k.is_prefix_of(k2) ==> k2 == k,
    ensures
        s.enumeration().contains(k),
{
    assert(k =~= k.subrange(0, k.len() as int));
    assert(in_closure(ks, k));
    assert forall|c: u8| !labels(ks, k).contains(c) by {
        if in_closure(ks, k.push(c)) {
            let k2 = choose|k2: Seq<u8>| #[trigger] ks.contains(k2) && k.push(c).is_prefix_of(k2);
            crate::keys::lemma_prefix_push(k, c, k2);
        }
    }
    assert(labels(ks, k) =~= Set::empty());
    lemma_enumeration_of_keys(s, ks, k);
}

/// Two lists with the same keys, in whatever order and however often, have
/// the same double array.
pub proof fn lemma_build_deterministic(keys1: Seq<Vec<u8>>, keys2: Seq<Vec<u8>>)
    requires
        key_set(keys1) == key_set(keys2),
    ensures
        layout(key_set(keys1)) == layout(key_set(keys2)),
{
}

/// Every slot in use is the child of its parent by a label: the parent has a
/// base, and the slot lies at that base plus a byte.
pub proof fn lemma_child_of_parent(s: Slots, i: int)
    requires
        s.shaped(),
        0 <= i < s.check.len(),
        s.check[i] is Some,
    ensures
        ({
            let p = s.check[i]->0 as int;
            &&& 0 <= p < s.base.len()
            &&& s.base[p] is Some
            &&& exists|c: u8| s.base[p]->0 + c == i && s.child(p, c) == Some(i)
        }),
{
    assert(s.linked(i));
    let p = s.check[i]->0 as int;
    let b = s.base[p]->0 as int;
    let c = (i - b) as u8;
    assert(s.base[p]->0 + c == i && s.child(p, c) == Some(i));
}

/// No slot is the child of two parents: the slots of the children of one
/// node and those of another have nothing in common.
pub proof fn lemma_no_collision(s: Slots, p: int, c: u8, q: int, d: u8)
    requires
        s.child(p, c) is Some,
        s.child(q, d) is Some,
        p != q,
        0 <= p,
        0 <= q,
    ensures
        s.child(p, c) != s.child(q, d),
{
}

/// In the double array of a key set, two strings end at two slots.
pub proof fn lemma_one_string_per_slot(s: Slots, ks: Set<Seq<u8>>, q1: Seq<u8>, q2: Seq<u8>)
    requires
        s.represents(ks),
        s.accepts(q1),
        s.walk(q1) == s.walk(q2),
    ensures
        q1 == q2,
{
}

/// The last slot of a double array is in use.
pub proof fn lemma_trimmed(s: Slots)
    requires
        s.shaped(),
        s.check.len() > 0,
    ensures
        s.check[s.check.len() - 1] is Some,
{
}

} // verus!
