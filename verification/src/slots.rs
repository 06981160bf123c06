//! The two parallel arrays of a double array as a mathematical value, and
//! what it means to walk them.

use vstd::prelude::*;
use crate::keys::{labels, walkable};

verus! {

/// The `base` and `check` arrays. A slot holds `None` while it is empty.
pub struct Slots {
    pub base: Seq<Option<usize>>,
    pub check: Seq<Option<usize>>,
}

/// Index one past the last non-empty entry; 0 where all are empty.
pub open spec fn extent(check: Seq<Option<usize>>) -> nat
    decreases check.len(),
{
    if check.len() == 0 {
        0
    } else if check.last() is Some {
        check.len()
    } else {
        extent(check.drop_last())
    }
}

/// How many of the first `n` entries are non-empty.
pub open spec fn used_below(check: Seq<Option<usize>>, n: nat) -> nat
    decreases n,
{
    if n == 0 {
        0
    } else {
        used_below(check, (n - 1) as nat) + if check[n - 1] is Some {
            1nat
        } else {
            0nat
        }
    }
}

impl Slots {
    /// `n` empty slots.
    pub open spec fn blank(n: nat) -> Slots {
        Slots {
            base: Seq::new(n, |i: int| None::<usize>),
            check: Seq::new(n, |i: int| None::<usize>),
        }
    }

    /// The entry of `base` at `i`; empty beyond the array.
    pub open spec fn base_at(self, i: int) -> Option<usize> {
        if 0 <= i < self.base.len() {
            self.base[i]
        } else {
            None
        }
    }

    /// The entry of `check` at `i`; empty beyond the array.
    pub open spec fn check_at(self, i: int) -> Option<usize> {
        if 0 <= i < self.check.len() {
            self.check[i]
        } else {
            None
        }
    }

    /// The slot that the edge with label `c` leads to from `cur`, if `cur`
    /// has such an edge: `base[cur] + c`, where `check` names `cur` there.
    pub open spec fn child(self, cur: int, c: u8) -> Option<int> {
        match self.base_at(cur) {
            Some(b) => match self.check_at(b + c) {
                Some(parent) => if parent == cur {
                    Some(b + c)
                } else {
                    None
                },
                None => None,
            },
            None => None,
        }
    }

    /// The slot reached from the root along `q`, if every edge exists.
    pub open spec fn walk(self, q: Seq<u8>) -> Option<int>
        decreases q.len(),
    {
        if q.len() == 0 {
            Some(0)
        } else {
            match self.walk(q.drop_last()) {
                Some(cur) => self.child(cur, q.last()),
                None => None,
            }
        }
    }

    /// The root has a path along `q`.
    pub open spec fn accepts(self, q: Seq<u8>) -> bool {
        self.walk(q) is Some
    }

    /// One more block of 256 empty slots at the end of each array.
    pub open spec fn grown(self) -> Slots {
        Slots {
            base: self.base + Seq::new(256, |i: int| None::<usize>),
            check: self.check + Seq::new(256, |i: int| None::<usize>),
        }
    }

    /// Every slot `b + c` with `c` in `ls` lies below the last block and is
    /// empty in `check`.
    pub open spec fn fits(self, ls: Set<u8>, b: int) -> bool {
        &&& 1 <= b < self.check.len() - 256
        &&& forall|c: u8| ls.contains(c) ==> self.check[b + c] is None
    }

    /// `b` is the least position at which `ls` fits.
    pub open spec fn first_fit(self, ls: Set<u8>, b: int) -> bool {
        &&& self.fits(ls, b)
        &&& forall|b2: int| 1 <= b2 < b ==> !self.fits(ls, b2)
    }

    /// `ls` fits somewhere.
    pub open spec fn has_fit(self, ls: Set<u8>) -> bool {
        exists|b: int| self.fits(ls, b)
    }

    /// The base chosen for a node with labels `ls`: the first position at
    /// which they fit, else the start of the block that is then appended.
    pub open spec fn chosen_base(self, ls: Set<u8>) -> int {
        if self.has_fit(ls) {
            choose|b: int| self.first_fit(ls, b)
        } else {
            self.check.len() as int
        }
    }

    /// The arrays, grown by one block where `ls` fits nowhere.
    pub open spec fn with_room(self, ls: Set<u8>) -> Slots {
        if self.has_fit(ls) {
            self
        } else {
            self.grown()
        }
    }

    /// The node at `slot` gets base `b`, and each slot `b + c` with `c` in
    /// `ls` names `slot` as its parent.
    pub open spec fn with_node(self, slot: int, b: int, ls: Set<u8>) -> Slots {
        Slots {
            base: self.base.update(slot, Some(b as usize)),
            check: Seq::new(
                self.check.len(),
                |i: int|
                    if b <= i < b + 256 && ls.contains((i - b) as u8) {
                        Some(slot as usize)
                    } else {
                        self.check[i]
                    },
            ),
        }
    }

    /// Both arrays cut after the last non-empty entry of `check`.
    pub open spec fn trimmed(self) -> Slots {
        Slots {
            base: self.base.take(extent(self.check) as int),
            check: self.check.take(extent(self.check) as int),
        }
    }

    /// The number of non-empty entries of `check`.
    pub open spec fn used(self) -> nat {
        used_below(self.check, self.check.len())
    }

    /// The slot `i`, if it is in use, names a parent that has a base, and
    /// lies in the block of 256 slots that starts at that base.
    pub open spec fn linked(self, i: int) -> bool {
        match self.check[i] {
            None => true,
            Some(parent) => parent < self.check.len() && match self.base[parent as int] {
                None => false,
                Some(b) => b <= i < b + 256,
            },
        }
    }

    /// The slot `i`, if it has a base, is a node, and has at least one edge.
    /// No base is 0.
    pub open spec fn branching(self, i: int) -> bool {
        match self.base[i] {
            None => true,
            Some(b) => 1 <= b && (i == 0 || self.check[i] is Some) && exists|c: u8|
                self.child(i, c) is Some,
        }
    }

    /// The invariants of a double array: the arrays are equally long; the
    /// root has no parent; the last slot is in use; every slot in use is the
    /// child of a node by one label; and a node has a base exactly if it has
    /// an edge.
    pub open spec fn shaped(self) -> bool {
        &&& self.base.len() == self.check.len()
        &&& self.check.len() > 0 ==> self.check[0] is None && self.check.last() is Some
        &&& forall|i: int| 0 <= i < self.check.len() ==> #[trigger] self.linked(i)
        &&& forall|i: int| 0 <= i < self.base.len() ==> #[trigger] self.branching(i)
    }

    /// The root has a path along `q` that ends at a node without a base.
    pub open spec fn leaf_at(self, q: Seq<u8>) -> bool {
        match self.walk(q) {
            Some(i) => self.base_at(i) is None,
            None => false,
        }
    }

    /// The arrays are a trie of `ks`: the root has a path along exactly the
    /// empty string and the prefixes of the keys; the path of a string ends
    /// at a node without a base exactly if no key goes on from that string;
    /// and the paths of two strings end at two slots.
    pub open spec fn represents(self, ks: Set<Seq<u8>>) -> bool {
        &&& forall|q: Seq<u8>| #[trigger] self.accepts(q) <==> walkable(ks, q)
        &&& forall|q: Seq<u8>| #[trigger]
            self.leaf_at(q) <==> walkable(ks, q) && labels(ks, q) =~= Set::empty()
        &&& forall|q1: Seq<u8>, q2: Seq<u8>|
            self.accepts(q1) && #[trigger] self.walk(q1) == #[trigger] self.walk(q2) ==> q1 == q2
    }

    /// The strings of the leaves below `cur`, each after `pref`, in ascending
    /// order; a leaf is a node without a base. Paths of more than `room`
    /// edges are left out.
    pub open spec fn leaves(self, cur: int, pref: Seq<u8>, room: nat) -> Seq<Seq<u8>>
        decreases room, 257int,
    {
        if self.base_at(cur) is None {
            seq![pref]
        } else if room == 0 {
            Seq::empty()
        } else {
            self.leaves_from(cur, pref, room, 0)
        }
    }

    /// The strings of the leaves below the children of `cur` with a label of
    /// at least `c`.
    pub open spec fn leaves_from(self, cur: int, pref: Seq<u8>, room: nat, c: int) -> Seq<Seq<u8>>
        decreases room, 256 - c,
    {
        if c >= 256 || room == 0 {
            Seq::empty()
        } else {
            (match self.child(cur, c as u8) {
                Some(next) => self.leaves(next, pref.push(c as u8), (room - 1) as nat),
                None => Seq::empty(),
            }) + self.leaves_from(cur, pref, room, c + 1)
        }
    }

    /// The strings of all leaves, in ascending order. No path from the root
    /// has more edges than there are slots, unless the root has a parent.
    pub open spec fn enumeration(self) -> Seq<Seq<u8>> {
        self.leaves(0, Seq::empty(), self.check.len())
    }
}

/// A string with a prefix that the arrays do not accept is not accepted.
pub proof fn lemma_walk_stuck(s: Slots, q: Seq<u8>, n: int)
    requires
        0 <= n <= q.len(),
        s.walk(q.take(n)) is None,
    ensures
        s.walk(q) is None,
    decreases q.len() - n,
{
    if n < q.len() {
        assert(q.take(n + 1).drop_last() =~= q.take(n));
        lemma_walk_stuck(s, q, n + 1);
    } else {
        assert(q.take(n) =~= q);
    }
}

/// The extent of an array is within it, the entry before it is non-empty, and
/// all entries from it on are empty.
pub proof fn lemma_extent(check: Seq<Option<usize>>)
    ensures
        extent(check) <= check.len(),
        extent(check) > 0 ==> check[extent(check) - 1] is Some,
        forall|i: int| extent(check) <= i < check.len() ==> check[i] is None,
    decreases check.len(),
{
    if check.len() > 0 && check.last() is None {
        let front = check.drop_last();
        lemma_extent(front);
        assert forall|i: int| extent(check) <= i < check.len() implies check[i] is None by {
            if i < front.len() {
                assert(front[i] is None);
            }
        }
    }
}

} // verus!
