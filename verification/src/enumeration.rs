//! What the enumeration of a double array holds: the strings of its leaves.

use vstd::prelude::*;
use vstd::set_lib::{lemma_int_range, lemma_len_subset, set_int_range};
use crate::keys::{below_at, lemma_prefix_push, lex_le, strictly_sorted};
use crate::slots::Slots;

verus! {

/// The root names no parent.
pub open spec fn rooted(s: Slots) -> bool {
    s.check_at(0) is None
}

/// The slots on the path along `q`: the root, then the slot after each byte.
pub open spec fn trail(s: Slots, q: Seq<u8>) -> Seq<int> {
    Seq::new(q.len() + 1, |j: int| s.walk(q.take(j))->0)
}

/// A string with a path has a path along each of its prefixes, and each slot
/// after the root names the slot before it as its parent.
pub proof fn lemma_walk_prefix(s: Slots, q: Seq<u8>, j: int)
    requires
        s.walk(q) is Some,
        0 <= j <= q.len(),
    ensures
        s.walk(q.take(j)) is Some,
        j > 0 ==> 0 <= s.walk(q.take(j))->0 < s.check.len() && s.check[s.walk(q.take(j))->0]
            == Some(s.walk(q.take(j - 1))->0 as usize) && s.walk(q.take(j - 1)) is Some
            && s.child(s.walk(q.take(j - 1))->0, q[j - 1]) == s.walk(q.take(j)),
    decreases q.len() - j,
{
    if j < q.len() {
        lemma_walk_prefix(s, q, j + 1);
        assert(q.take(j + 1).drop_last() =~= q.take(j));
    } else {
        assert(q.take(j) =~= q);
    }
    if j > 0 {
        assert(q.take(j).drop_last() =~= q.take(j - 1));
        assert(q.take(j).last() == q[j - 1]);
    }
}

/// On a path from a root without a parent, no slot comes twice.
pub proof fn lemma_trail_distinct(s: Slots, q: Seq<u8>, i: int, j: int)
    requires
        rooted(s),
        s.walk(q) is Some,
        0 <= i < j <= q.len(),
    ensures
        trail(s, q)[i] != trail(s, q)[j],
    decreases i,
{
    lemma_walk_prefix(s, q, j);
    lemma_walk_prefix(s, q, i);
    if i == 0 {
        assert(q.take(0) =~= Seq::<u8>::empty());
    } else {
        lemma_trail_distinct(s, q, i - 1, j - 1);
        lemma_walk_prefix(s, q, i - 1);
        lemma_walk_prefix(s, q, j - 1);
    }
}

/// A path from a root without a parent has fewer edges than there are slots.
pub proof fn lemma_path_short(s: Slots, q: Seq<u8>)
    requires
        rooted(s),
        s.walk(q) is Some,
        q.len() > 0,
    ensures
        q.len() < s.check.len(),
{
    let t = trail(s, q);
    let n = s.check.len() as int;
    assert forall|i: int, j: int| 0 <= i < t.len() && 0 <= j < t.len() && i != j implies t[i]
        != t[j] by {
        if i < j {
            lemma_trail_distinct(s, q, i, j);
        } else {
            lemma_trail_distinct(s, q, j, i);
        }
    }
    assert(t.no_duplicates());
    t.unique_seq_to_set();
    lemma_walk_prefix(s, q, 1);
    assert forall|x: int| t.to_set().contains(x) implies set_int_range(0, n).contains(x) by {
        let j = choose|j: int| 0 <= j < t.len() && t[j] == x;
        lemma_walk_prefix(s, q, j);
        if j == 0 {
            assert(q.take(0) =~= Seq::<u8>::empty());
        }
    }
    lemma_int_range(0, n);
    lemma_len_subset(t.to_set(), set_int_range(0, n));
}

/// The path along a string that ends with `c` goes by the edge `c` from the
/// end of the path along the rest.
pub proof fn lemma_walk_push(s: Slots, q: Seq<u8>, c: u8)
    ensures
        s.walk(q.push(c)) == match s.walk(q) {
            Some(cur) => s.child(cur, c),
            None => None,
        },
{
    assert(q.push(c).drop_last() =~= q);
}

/// Every string listed below a node is the string of a leaf, and starts with
/// the string of the node.
pub proof fn lemma_leaves_sound(s: Slots, cur: int, pref: Seq<u8>, room: nat, x: Seq<u8>)
    requires
        s.walk(pref) == Some(cur),
        s.leaves(cur, pref, room).contains(x),
    ensures
        s.leaf_at(x),
        pref.is_prefix_of(x),
    decreases room, 257int,
{
    if s.base_at(cur) is None {
        assert(s.leaves(cur, pref, room)[0] == pref);
        assert(x == pref);
        assert(pref =~= pref.subrange(0, pref.len() as int));
    } else if room > 0 {
        lemma_leaves_from_sound(s, cur, pref, room, 0, x);
    }
}

/// Every string listed below the children of a node is the string of a leaf,
/// and starts with the string of the node.
pub proof fn lemma_leaves_from_sound(
    s: Slots,
    cur: int,
    pref: Seq<u8>,
    room: nat,
    c: int,
    x: Seq<u8>,
)
    requires
        s.walk(pref) == Some(cur),
        0 <= c,
        room > 0,
        s.leaves_from(cur, pref, room, c).contains(x),
    ensures
        s.leaf_at(x),
        pref.is_prefix_of(x),
    decreases room, 256 - c,
{
    if c < 256 {
        let head = match s.child(cur, c as u8) {
            Some(next) => s.leaves(next, pref.push(c as u8), (room - 1) as nat),
            None => Seq::empty(),
        };
        let rest = s.leaves_from(cur, pref, room, c + 1);
        let all = head + rest;
        let k = choose|k: int| 0 <= k < all.len() && all[k] == x;
        if k < head.len() {
            assert(head[k] == x);
            let next = s.child(cur, c as u8)->0;
            lemma_walk_push(s, pref, c as u8);
            lemma_leaves_sound(s, next, pref.push(c as u8), (room - 1) as nat, x);
            lemma_prefix_push(pref, c as u8, x);
        } else {
            assert(rest[k - head.len()] == x);
            lemma_leaves_from_sound(s, cur, pref, room, c + 1, x);
        }
    }
}

/// What is listed below a child is listed below the children from any label
/// up to that of the child.
pub proof fn lemma_leaves_from_holds(
    s: Slots,
    cur: int,
    pref: Seq<u8>,
    room: nat,
    c0: int,
    c: u8,
    x: Seq<u8>,
)
    requires
        0 <= c0 <= c,
        room > 0,
        s.child(cur, c) is Some,
        s.leaves(s.child(cur, c)->0, pref.push(c), (room - 1) as nat).contains(x),
    ensures
        s.leaves_from(cur, pref, room, c0).contains(x),
    decreases c - c0,
{
    let head = match s.child(cur, c0 as u8) {
        Some(next) => s.leaves(next, pref.push(c0 as u8), (room - 1) as nat),
        None => Seq::empty(),
    };
    let rest = s.leaves_from(cur, pref, room, c0 + 1);
    let all = head + rest;
    if c0 == c {
        let k = choose|k: int| 0 <= k < head.len() && head[k] == x;
        assert(all[k] == x);
    } else {
        lemma_leaves_from_holds(s, cur, pref, room, c0 + 1, c, x);
        let k = choose|k: int| 0 <= k < rest.len() && rest[k] == x;
        assert(all[head.len() + k] == x);
    }
}

/// The string of every leaf below a node is listed below that node, where
/// there is room for its path.
pub proof fn lemma_leaves_complete(s: Slots, cur: int, pref: Seq<u8>, room: nat, x: Seq<u8>)
    requires
        s.walk(pref) == Some(cur),
        pref.is_prefix_of(x),
        s.leaf_at(x),
        x.len() - pref.len() <= room,
    ensures
        s.leaves(cur, pref, room).contains(x),
    decreases x.len() - pref.len(),
{
    let d = pref.len() as int;
    if x.len() == d {
        assert(x =~= x.subrange(0, d));
        assert(x == pref);
        assert(s.leaves(cur, pref, room)[0] == pref);
    } else {
        let c = x[d];
        let pc = pref.push(c);
        lemma_prefix_push(pref, c, x);
        assert(pc =~= x.take(d + 1));
        assert(pref =~= x.take(d));
        lemma_walk_prefix(s, x, d + 1);
        lemma_walk_push(s, pref, c);
        let next = s.child(cur, c)->0;
        lemma_leaves_complete(s, next, pc, (room - 1) as nat, x);
        lemma_leaves_from_holds(s, cur, pref, room, 0, c, x);
    }
}

/// The enumeration of a double array whose root has no parent holds exactly
/// the strings of its leaves.
pub proof fn lemma_enumeration(s: Slots, x: Seq<u8>)
    requires
        rooted(s),
    ensures
        s.enumeration().contains(x) <==> s.leaf_at(x),
{
    let e = Seq::<u8>::empty();
    if s.enumeration().contains(x) {
        lemma_leaves_sound(s, 0, e, s.check.len(), x);
    }
    if s.leaf_at(x) {
        if x.len() > 0 {
            lemma_path_short(s, x);
        }
        assert(e =~= x.subrange(0, 0));
        lemma_leaves_complete(s, 0, e, s.check.len(), x);
    }
}

/// Every string listed below a node starts with the string of the node.
pub proof fn lemma_leaves_start(s: Slots, cur: int, pref: Seq<u8>, room: nat, x: Seq<u8>)
    requires
        s.leaves(cur, pref, room).contains(x),
    ensures
        pref.is_prefix_of(x),
    decreases room, 257int,
{
    if s.base_at(cur) is None {
        assert(s.leaves(cur, pref, room)[0] == pref);
        assert(pref =~= pref.subrange(0, pref.len() as int));
    } else if room > 0 {
        lemma_leaves_from_start(s, cur, pref, room, 0, x);
    }
}

/// Every string listed below the children of a node from label `c` on
/// starts with the string of the node and goes on with a byte of at least
/// `c`.
pub proof fn lemma_leaves_from_start(
    s: Slots,
    cur: int,
    pref: Seq<u8>,
    room: nat,
    c: int,
    x: Seq<u8>,
)
    requires
        0 <= c,
        room > 0,
        s.leaves_from(cur, pref, room, c).contains(x),
    ensures
        pref.is_prefix_of(x),
        x.len() > pref.len(),
        x[pref.len() as int] >= c,
    decreases room, 256 - c,
{
    if c < 256 {
        let head = match s.child(cur, c as u8) {
            Some(next) => s.leaves(next, pref.push(c as u8), (room - 1) as nat),
            None => Seq::empty(),
        };
        let rest = s.leaves_from(cur, pref, room, c + 1);
        let all = head + rest;
        let k = choose|k: int| 0 <= k < all.len() && all[k] == x;
        if k < head.len() {
            assert(head[k] == x);
            lemma_leaves_start(s, s.child(cur, c as u8)->0, pref.push(c as u8), (room - 1) as nat, x);
            lemma_prefix_push(pref, c as u8, x);
        } else {
            assert(rest[k - head.len()] == x);
            lemma_leaves_from_start(s, cur, pref, room, c + 1, x);
        }
    }
}

/// The strings listed below a node ascend strictly.
pub proof fn lemma_leaves_ascend(s: Slots, cur: int, pref: Seq<u8>, room: nat)
    ensures
        strictly_sorted(s.leaves(cur, pref, room)),
    decreases room, 257int,
{
    if s.base_at(cur) is Some && room > 0 {
        lemma_leaves_from_ascend(s, cur, pref, room, 0);
    }
}

/// The strings listed below the children of a node from label `c` on ascend
/// strictly.
pub proof fn lemma_leaves_from_ascend(s: Slots, cur: int, pref: Seq<u8>, room: nat, c: int)
    requires
        0 <= c,
        room > 0,
    ensures
        strictly_sorted(s.leaves_from(cur, pref, room, c)),
    decreases room, 256 - c,
{
    if c < 256 {
        let d = pref.len() as int;
        let head = match s.child(cur, c as u8) {
            Some(next) => s.leaves(next, pref.push(c as u8), (room - 1) as nat),
            None => Seq::empty(),
        };
        let rest = s.leaves_from(cur, pref, room, c + 1);
        let all = head + rest;
        if s.child(cur, c as u8) is Some {
            lemma_leaves_ascend(s, s.child(cur, c as u8)->0, pref.push(c as u8), (room - 1) as nat);
        }
        lemma_leaves_from_ascend(s, cur, pref, room, c + 1);
        assert forall|i: int, j: int| 0 <= i < j < all.len() implies lex_le(
            #[trigger] all[i],
            #[trigger] all[j],
        ) && all[i] != all[j] by {
            if j < head.len() {
                assert(lex_le(head[i], head[j]) && head[i] != head[j]);
            } else if i >= head.len() {
                let i2 = i - head.len();
                let j2 = j - head.len();
                assert(lex_le(rest[i2], rest[j2]) && rest[i2] != rest[j2]);
            } else {
                let a = head[i];
                let b = rest[j - head.len()];
                assert(head.contains(a));
                assert(rest.contains(b));
                lemma_leaves_start(s, s.child(cur, c as u8)->0, pref.push(c as u8), (room - 1) as nat, a);
                lemma_prefix_push(pref, c as u8, a);
                lemma_leaves_from_start(s, cur, pref, room, c + 1, b);
                assert(a.subrange(0, d) =~= pref);
                assert(b.subrange(0, d) =~= pref);
                assert(below_at(a, b, d));
            }
        }
    }
}

/// The enumeration of a double array ascends strictly in the lexicographic
/// order: it holds no string twice.
pub proof fn lemma_enumeration_ascends(s: Slots)
    ensures
        strictly_sorted(s.enumeration()),
{
    lemma_leaves_ascend(s, 0, Seq::empty(), s.check.len());
}

} // verus!
