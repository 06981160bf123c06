//! Why the layout of a key set is a trie of that key set: every slot in use
//! stands for one string, the strings are the prefixes of the keys, and every
//! node has all its edges.

use vstd::prelude::*;
use crate::keys::{
    depth_bound, has_bound, in_closure, labels, lemma_label_depth, lemma_prefix_push,
    lemma_prefix_trans, lemma_walkable_drop_last, walkable,
};
use crate::placement::{layout, place, place_children, representable, untrimmed};
use crate::slots::{extent, lemma_extent, Slots};

verus! {

/// The slot `i` in use names a parent with a base, lies in the block of that
/// base, and stands for the string of the parent followed by its label.
pub open spec fn parent_ok(s: Slots, paths: Map<int, Seq<u8>>, i: int) -> bool {
    match s.check[i] {
        None => true,
        Some(par) => paths.dom().contains(par as int) && paths.dom().contains(i)
            && match s.base[par as int] {
            None => false,
            Some(b) => b <= i < b + 256 && paths[i] == paths[par as int].push((i - b) as u8),
        },
    }
}

/// A base is held by a node only, lies after slot 0, has its block within the
/// arrays, and is held only where the node branches.
pub open spec fn base_ok(s: Slots, paths: Map<int, Seq<u8>>, ks: Set<Seq<u8>>, i: int) -> bool {
    match s.base[i] {
        None => true,
        Some(b) => paths.dom().contains(i) && 1 <= b && b + 256 <= s.check.len() && exists|c: u8|
            labels(ks, paths[i]).contains(c),
    }
}

/// The node at `i` is a slot of the arrays, stands for a walkable string, and
/// is the root or has a parent.
pub open spec fn node_ok(s: Slots, paths: Map<int, Seq<u8>>, ks: Set<Seq<u8>>, i: int) -> bool {
    &&& 0 <= i < s.check.len()
    &&& i <= usize::MAX
    &&& walkable(ks, paths[i])
    &&& (i == 0 || s.check[i] is Some)
}

/// The arrays hold a part of the trie of `ks`, where `paths` gives the string
/// of each node.
pub open spec fn tree(s: Slots, paths: Map<int, Seq<u8>>, ks: Set<Seq<u8>>) -> bool {
    &&& s.base.len() == s.check.len()
    &&& s.check.len() >= 1
    &&& s.check[0] is None
    &&& paths.dom().contains(0)
    &&& paths[0] =~= Seq::empty()
    &&& forall|i: int| #[trigger] paths.dom().contains(i) ==> node_ok(s, paths, ks, i)
    &&& forall|i: int| 0 <= i < s.check.len() ==> #[trigger] parent_ok(s, paths, i)
    &&& forall|i: int| 0 <= i < s.check.len() ==> #[trigger] base_ok(s, paths, ks, i)
}

/// The node at `i` has an edge for every byte by which its string branches.
pub open spec fn complete(s: Slots, paths: Map<int, Seq<u8>>, ks: Set<Seq<u8>>, i: int) -> bool {
    forall|c: u8| #[trigger] labels(ks, paths[i]).contains(c) ==> s.child(i, c) is Some
}

/// No node but the one at `slot` stands for a string that starts with `p`.
pub open spec fn fresh(paths: Map<int, Seq<u8>>, p: Seq<u8>, slot: int) -> bool {
    forall|i: int| #[trigger] paths.dom().contains(i) && p.is_prefix_of(paths[i]) ==> i == slot
}

/// The node at `i` is in the later arrays what it was in the earlier ones.
pub open spec fn kept(
    s: Slots,
    paths: Map<int, Seq<u8>>,
    s2: Slots,
    paths2: Map<int, Seq<u8>>,
    i: int,
) -> bool {
    paths2.dom().contains(i) && paths2[i] == paths[i] && s2.check[i] == s.check[i]
}

/// The child of the node of `p` with label `c` has its slot and no base yet,
/// and nothing else stands for a string below it.
pub open spec fn pending(
    s: Slots,
    paths: Map<int, Seq<u8>>,
    p: Seq<u8>,
    slot: int,
    b: int,
    c: u8,
) -> bool {
    &&& paths.dom().contains(b + c)
    &&& s.check[b + c] == Some(slot as usize)
    &&& paths[b + c] == p.push(c)
    &&& s.base[b + c] is None
    &&& fresh(paths, p.push(c), b + c)
}

/// From `(s, paths)` to `(s2, paths2)` nodes were added below the node of
/// `p`, through its edges with a label of at least `c`, and nothing else
/// changed. Every node that was there keeps its string and its parent; every
/// node that is not the child of such an edge, or below one, keeps its base.
pub open spec fn grown_below(
    s: Slots,
    paths: Map<int, Seq<u8>>,
    s2: Slots,
    paths2: Map<int, Seq<u8>>,
    p: Seq<u8>,
    c: int,
) -> bool {
    &&& s.check.len() <= s2.check.len()
    &&& forall|i: int| #[trigger]
        paths.dom().contains(i) ==> kept(s, paths, s2, paths2, i) && (!(p.is_prefix_of(paths[i])
            && paths[i].len() > p.len() && paths[i][p.len() as int] >= c) ==> s2.base[i]
            == s.base[i])
    &&& forall|i: int| #[trigger]
        paths2.dom().contains(i) && !paths.dom().contains(i) ==> p.is_prefix_of(paths2[i])
            && paths2[i].len() > p.len() && paths2[i][p.len() as int] >= c
}

/// From `(s, paths)` to `(s2, paths2)` the node of `p` and nodes below it
/// were added or got a base, and nothing else changed.
pub open spec fn planted(
    s: Slots,
    paths: Map<int, Seq<u8>>,
    s2: Slots,
    paths2: Map<int, Seq<u8>>,
    p: Seq<u8>,
) -> bool {
    &&& s.check.len() <= s2.check.len()
    &&& forall|i: int| #[trigger]
        paths.dom().contains(i) ==> kept(s, paths, s2, paths2, i) && (!p.is_prefix_of(paths[i])
            ==> s2.base[i] == s.base[i])
    &&& forall|i: int| #[trigger]
        paths2.dom().contains(i) && !paths.dom().contains(i) ==> p.is_prefix_of(paths2[i])
            && paths2[i].len() > p.len()
}

/// The strings given to the slots of the children of a node.
pub open spec fn with_children(
    paths: Map<int, Seq<u8>>,
    p: Seq<u8>,
    b: int,
    ls: Set<u8>,
) -> Map<int, Seq<u8>> {
    Map::new(
        |i: int| paths.dom().contains(i) || (b <= i < b + 256 && ls.contains((i - b) as u8)),
        |i: int|
            if paths.dom().contains(i) {
                paths[i]
            } else {
                p.push((i - b) as u8)
            },
    )
}

/// Where a set of labels fits at all, it fits at a least position.
pub proof fn lemma_least_fit(s: Slots, ls: Set<u8>, b: int)
    requires
        s.fits(ls, b),
    ensures
        exists|b0: int| s.first_fit(ls, b0),
    decreases b,
{
    if exists|b2: int| 1 <= b2 < b && s.fits(ls, b2) {
        let b2 = choose|b2: int| 1 <= b2 < b && s.fits(ls, b2);
        lemma_least_fit(s, ls, b2);
    } else {
        assert(s.first_fit(ls, b));
    }
}

/// The base chosen for a set of labels lies after slot 0, its block is
/// within the arrays once room was made, and the slots of the labels are
/// empty there.
pub proof fn lemma_chosen_base(s: Slots, ls: Set<u8>)
    requires
        s.base.len() == s.check.len(),
        s.check.len() >= 1,
    ensures
        ({
            let b = s.chosen_base(ls);
            let r = s.with_room(ls);
            &&& 1 <= b
            &&& b + 256 <= r.check.len()
            &&& r.base.len() == r.check.len()
            &&& s.check.len() <= r.check.len() <= s.check.len() + 256
            &&& forall|i: int| 0 <= i < s.check.len() ==> r.check[i] == s.check[i]
            &&& forall|i: int| 0 <= i < s.check.len() ==> r.base[i] == s.base[i]
            &&& forall|i: int| s.check.len() <= i < r.check.len() ==> r.check[i] is None
            &&& forall|i: int| s.check.len() <= i < r.check.len() ==> r.base[i] is None
            &&& forall|c: u8| ls.contains(c) ==> r.check[b + c] is None
        }),
{
    if s.has_fit(ls) {
        let b1 = choose|b1: int| s.fits(ls, b1);
        lemma_least_fit(s, ls, b1);
        let b = s.chosen_base(ls);
        assert(s.first_fit(ls, b));
    }
}

/// Giving a node without a base its base and its children their slots keeps
/// the arrays a part of the trie, and leaves each child waiting for its own
/// subtree.
pub proof fn lemma_node_placed(
    s: Slots,
    paths: Map<int, Seq<u8>>,
    ks: Set<Seq<u8>>,
    p: Seq<u8>,
    slot: int,
)
    requires
        tree(s, paths, ks),
        paths.dom().contains(slot),
        paths[slot] == p,
        s.base[slot] is None,
        fresh(paths, p, slot),
        exists|c: u8| labels(ks, p).contains(c),
        s.with_room(labels(ks, p)).check.len() <= usize::MAX,
    ensures
        ({
            let ls = labels(ks, p);
            let b = s.chosen_base(ls);
            let s1 = s.with_room(ls).with_node(slot, b, ls);
            let paths1 = with_children(paths, p, b, ls);
            &&& tree(s1, paths1, ks)
            &&& s1.base[slot] == Some(b as usize)
            &&& 1 <= b <= usize::MAX
            &&& b + 256 <= s1.check.len()
            &&& planted(s, paths, s1, paths1, p)
            &&& forall|c: u8| ls.contains(c) ==> pending(s1, paths1, p, slot, b, c)
        }),
{
    let ls = labels(ks, p);
    let b = s.chosen_base(ls);
    let r = s.with_room(ls);
    let s1 = r.with_node(slot, b, ls);
    let paths1 = with_children(paths, p, b, ls);
    let n = s.check.len() as int;
    lemma_chosen_base(s, ls);
    assert(node_ok(s, paths, ks, slot));
    // a slot that the children get was not a node before
    assert forall|i: int| b <= i < b + 256 && ls.contains((i - b) as u8) implies !paths.dom().contains(
        i,
    ) && r.base[i] is None && i != slot by {
        let c = (i - b) as u8;
        assert(r.check[b + c] is None);
        if paths.dom().contains(i) {
            assert(node_ok(s, paths, ks, i));
        }
        if i < n {
            assert(base_ok(s, paths, ks, i));
        }
    }
    assert forall|i: int| #[trigger] paths1.dom().contains(i) implies node_ok(s1, paths1, ks, i) by {
        if paths.dom().contains(i) {
            assert(node_ok(s, paths, ks, i));
        } else {
            let c = (i - b) as u8;
            assert(labels(ks, p).contains(c));
            assert(in_closure(ks, p.push(c)));
        }
    }
    assert forall|i: int| 0 <= i < s1.check.len() implies #[trigger] parent_ok(s1, paths1, i) by {
        if b <= i < b + 256 && ls.contains((i - b) as u8) {
        } else if i < n {
            assert(parent_ok(s, paths, i));
            match s.check[i] {
                Some(par) => {
                    assert(node_ok(s, paths, ks, par as int));
                },
                None => {},
            }
        }
    }
    assert forall|i: int| 0 <= i < s1.check.len() implies #[trigger] base_ok(s1, paths1, ks, i) by {
        if i == slot {
            assert(s1.base[i] == Some(b as usize));
            assert(paths1[i] == p);
            let c = choose|c: u8| labels(ks, p).contains(c);
            assert(labels(ks, paths1[i]).contains(c));
        } else if i < n {
            assert(base_ok(s, paths, ks, i));
            assert(s1.base[i] == s.base[i]);
            if s.base[i] is Some {
                let c = choose|c: u8| labels(ks, paths[i]).contains(c);
                assert(labels(ks, paths1[i]).contains(c));
            }
        } else {
            assert(s1.base[i] is None);
        }
    }
    assert(tree(s1, paths1, ks));
    assert forall|i: int| #[trigger] paths.dom().contains(i) implies kept(s, paths, s1, paths1, i)
        && (!p.is_prefix_of(paths[i]) ==> s1.base[i] == s.base[i]) by {
        assert(node_ok(s, paths, ks, i));
        if i == slot {
            assert(p =~= p.subrange(0, p.len() as int));
        }
    }
    assert forall|i: int| #[trigger]
        paths1.dom().contains(i) && !paths.dom().contains(i) implies p.is_prefix_of(paths1[i])
        && paths1[i].len() > p.len() by {
        lemma_prefix_push(p, (i - b) as u8, paths1[i]);
        assert(paths1[i] =~= paths1[i].subrange(0, paths1[i].len() as int));
    }
    assert forall|c: u8| ls.contains(c) implies pending(s1, paths1, p, slot, b, c) by {
        let i = b + c;
        assert((i - b) as u8 == c);
        assert forall|j: int| #[trigger]
            paths1.dom().contains(j) && p.push(c).is_prefix_of(paths1[j]) implies j == i by {
            lemma_prefix_push(p, c, paths1[j]);
            if paths.dom().contains(j) {
                assert(j == slot);
            } else {
                assert(paths1[j] == p.push((j - b) as u8));
            }
        }
    }
}

/// Placing a subtree never shortens the arrays.
pub proof fn lemma_place_len(s: Slots, ks: Set<Seq<u8>>, p: Seq<u8>, slot: int)
    requires
        has_bound(ks),
    ensures
        place(s, ks, p, slot).check.len() >= s.check.len(),
    decreases depth_bound(ks) - p.len(), 257int,
{
    let ls = labels(ks, p);
    if !(ls =~= Set::empty()) {
        let b = s.chosen_base(ls);
        lemma_place_children_len(s.with_room(ls).with_node(slot, b, ls), ks, p, b, 0);
    }
}

/// Placing the subtrees of children never shortens the arrays.
pub proof fn lemma_place_children_len(s: Slots, ks: Set<Seq<u8>>, p: Seq<u8>, b: int, c: int)
    requires
        has_bound(ks),
    ensures
        place_children(s, ks, p, b, c).check.len() >= s.check.len(),
    decreases depth_bound(ks) - p.len(), 256 - c,
{
    if c >= 256 {
    } else if labels(ks, p).contains(c as u8) {
        lemma_label_depth(ks, p, c as u8);
        lemma_place_len(s, ks, p.push(c as u8), b + c);
        lemma_place_children_len(place(s, ks, p.push(c as u8), b + c), ks, p, b, c + 1);
    } else {
        lemma_place_children_len(s, ks, p, b, c + 1);
    }
}

/// A node that has all its edges keeps them while it keeps its base and all
/// nodes keep their parents.
pub proof fn lemma_complete_kept(
    s: Slots,
    paths: Map<int, Seq<u8>>,
    s2: Slots,
    paths2: Map<int, Seq<u8>>,
    ks: Set<Seq<u8>>,
    i: int,
)
    requires
        tree(s, paths, ks),
        paths.dom().contains(i),
        complete(s, paths, ks, i),
        s.check.len() <= s2.check.len(),
        s2.base.len() == s2.check.len(),
        forall|j: int| #[trigger] paths.dom().contains(j) ==> kept(s, paths, s2, paths2, j),
        s2.base[i] == s.base[i],
    ensures
        complete(s2, paths2, ks, i),
{
    assert(kept(s, paths, s2, paths2, i));
    assert(node_ok(s, paths, ks, i));
    assert forall|c: u8| #[trigger] labels(ks, paths2[i]).contains(c) implies s2.child(i, c) is Some by {
        assert(labels(ks, paths[i]).contains(c));
        assert(s.child(i, c) is Some);
        let j = s.child(i, c)->0;
        assert(parent_ok(s, paths, j));
        assert(kept(s, paths, s2, paths2, j));
    }
}

/// Placing the subtree of a node keeps the arrays a part of the trie, changes
/// nothing outside the subtree, and gives every node of the subtree all its
/// edges. Returns the strings of the nodes afterwards.
pub proof fn lemma_place(
    s: Slots,
    paths: Map<int, Seq<u8>>,
    ks: Set<Seq<u8>>,
    p: Seq<u8>,
    slot: int,
) -> (paths2: Map<int, Seq<u8>>)
    requires
        has_bound(ks),
        tree(s, paths, ks),
        paths.dom().contains(slot),
        paths[slot] == p,
        s.base[slot] is None,
        fresh(paths, p, slot),
        place(s, ks, p, slot).check.len() <= usize::MAX,
    ensures
        tree(place(s, ks, p, slot), paths2, ks),
        planted(s, paths, place(s, ks, p, slot), paths2, p),
        forall|i: int| #[trigger]
            paths2.dom().contains(i) && p.is_prefix_of(paths2[i]) ==> complete(
                place(s, ks, p, slot),
                paths2,
                ks,
                i,
            ),
    decreases depth_bound(ks) - p.len(), 257int,
{
    let ls = labels(ks, p);
    assert(node_ok(s, paths, ks, slot));
    if ls =~= Set::empty() {
        assert forall|i: int| #[trigger]
            paths.dom().contains(i) && p.is_prefix_of(paths[i]) implies complete(s, paths, ks, i) by {
            assert(i == slot);
        }
        paths
    } else {
        let b = s.chosen_base(ls);
        let s1 = s.with_room(ls).with_node(slot, b, ls);
        let paths1 = with_children(paths, p, b, ls);
        let s2 = place(s, ks, p, slot);
        assert(s2 == place_children(s1, ks, p, b, 0));
        lemma_place_children_len(s1, ks, p, b, 0);
        assert(exists|c: u8| ls.contains(c)) by {
            if forall|c: u8| !ls.contains(c) {
                assert(ls =~= Set::empty());
            }
        }
        lemma_node_placed(s, paths, ks, p, slot);
        assert forall|i: int| #[trigger]
            paths1.dom().contains(i) && p.is_prefix_of(paths1[i]) && i != slot implies paths1[i].len()
            > p.len() && (paths1[i][p.len() as int] < 0 ==> complete(s1, paths1, ks, i)) by {
            if paths.dom().contains(i) {
                assert(kept(s, paths, s1, paths1, i));
            }
        }
        let paths2 = lemma_place_children(s1, paths1, ks, p, slot, b, 0);
        assert(kept(s, paths, s1, paths1, slot));
        assert(kept(s1, paths1, s2, paths2, slot));
        assert forall|i: int| #[trigger] paths.dom().contains(i) implies kept(s, paths, s2, paths2, i)
            && (!p.is_prefix_of(paths[i]) ==> s2.base[i] == s.base[i]) by {
            assert(kept(s, paths, s1, paths1, i));
            assert(paths1.dom().contains(i));
            assert(kept(s1, paths1, s2, paths2, i));
        }
        assert forall|i: int| #[trigger]
            paths2.dom().contains(i) && !paths.dom().contains(i) implies p.is_prefix_of(paths2[i])
            && paths2[i].len() > p.len() by {
            if paths1.dom().contains(i) {
                assert(kept(s1, paths1, s2, paths2, i));
            }
        }
        assert forall|i: int| #[trigger]
            paths2.dom().contains(i) && p.is_prefix_of(paths2[i]) implies complete(
            s2,
            paths2,
            ks,
            i,
        ) by {
            if i == slot {
                assert(node_ok(s2, paths2, ks, slot));
                assert forall|c: u8| #[trigger] labels(ks, paths2[slot]).contains(c) implies s2.child(
                    slot,
                    c,
                ) is Some by {
                    assert(pending(s1, paths1, p, slot, b, c));
                    assert(kept(s1, paths1, s2, paths2, b + c));
                    assert(node_ok(s2, paths2, ks, b + c));
                }
            }
        }
        paths2
    }
}

/// Placing the subtrees of the children of a node, from label `c` on, keeps
/// the arrays a part of the trie, changes nothing outside those subtrees, and
/// leaves every node below the node with all its edges.
pub proof fn lemma_place_children(
    s: Slots,
    paths: Map<int, Seq<u8>>,
    ks: Set<Seq<u8>>,
    p: Seq<u8>,
    slot: int,
    b: int,
    c: int,
) -> (paths2: Map<int, Seq<u8>>)
    requires
        has_bound(ks),
        tree(s, paths, ks),
        0 <= c <= 256,
        paths.dom().contains(slot),
        paths[slot] == p,
        s.base[slot] == Some(b as usize),
        1 <= b <= usize::MAX,
        forall|x: u8| x >= c && labels(ks, p).contains(x) ==> pending(s, paths, p, slot, b, x),
        forall|i: int| #[trigger]
            paths.dom().contains(i) && p.is_prefix_of(paths[i]) && i != slot ==> paths[i].len()
                > p.len() && (paths[i][p.len() as int] < c ==> complete(s, paths, ks, i)),
        place_children(s, ks, p, b, c).check.len() <= usize::MAX,
    ensures
        tree(place_children(s, ks, p, b, c), paths2, ks),
        grown_below(s, paths, place_children(s, ks, p, b, c), paths2, p, c),
        forall|i: int| #[trigger]
            paths2.dom().contains(i) && p.is_prefix_of(paths2[i]) && i != slot ==> paths2[i].len()
                > p.len() && complete(place_children(s, ks, p, b, c), paths2, ks, i),
    decreases depth_bound(ks) - p.len(), 256 - c,
{
    let ls = labels(ks, p);
    let d = p.len() as int;
    let s2 = place_children(s, ks, p, b, c);
    if c >= 256 {
        paths
    } else if ls.contains(c as u8) {
        let x = c as u8;
        let px = p.push(x);
        let s1 = place(s, ks, px, b + x);
        lemma_label_depth(ks, p, x);
        assert(s2 == place_children(s1, ks, p, b, c + 1));
        lemma_place_children_len(s1, ks, p, b, c + 1);
        assert(pending(s, paths, p, slot, b, x));
        let paths1 = lemma_place(s, paths, ks, px, b + x);
        assert(node_ok(s, paths, ks, slot));
        assert(kept(s, paths, s1, paths1, slot));
        assert(p =~= p.subrange(0, d));
        assert(!px.is_prefix_of(p));
        assert forall|y: u8| y >= c + 1 && labels(ks, p).contains(y) implies pending(
            s1,
            paths1,
            p,
            slot,
            b,
            y,
        ) by {
            let py = p.push(y);
            assert(pending(s, paths, p, slot, b, y));
            assert(kept(s, paths, s1, paths1, b + y));
            lemma_prefix_push(p, x, py);
            assert(!px.is_prefix_of(py));
            assert forall|j: int| #[trigger]
                paths1.dom().contains(j) && py.is_prefix_of(paths1[j]) implies j == b + y by {
                if paths.dom().contains(j) {
                    assert(kept(s, paths, s1, paths1, j));
                } else {
                    lemma_prefix_push(p, x, paths1[j]);
                    lemma_prefix_push(p, y, paths1[j]);
                }
            }
        }
        assert forall|i: int| #[trigger]
            paths1.dom().contains(i) && p.is_prefix_of(paths1[i]) && i != slot implies paths1[i].len()
            > d && (paths1[i][d] < c + 1 ==> complete(s1, paths1, ks, i)) by {
            lemma_prefix_push(p, x, paths1[i]);
            if paths.dom().contains(i) {
                assert(kept(s, paths, s1, paths1, i));
                if paths[i][d] < c {
                    lemma_complete_kept(s, paths, s1, paths1, ks, i);
                }
            }
        }
        let paths2 = lemma_place_children(s1, paths1, ks, p, slot, b, c + 1);
        assert forall|i: int| #[trigger] paths.dom().contains(i) implies kept(s, paths, s2, paths2, i)
            && (!(p.is_prefix_of(paths[i]) && paths[i].len() > d && paths[i][d] >= c) ==> s2.base[i]
            == s.base[i]) by {
            assert(kept(s, paths, s1, paths1, i));
            assert(paths1.dom().contains(i));
            assert(kept(s1, paths1, s2, paths2, i));
            lemma_prefix_push(p, x, paths[i]);
        }
        assert forall|i: int| #[trigger]
            paths2.dom().contains(i) && !paths.dom().contains(i) implies p.is_prefix_of(paths2[i])
            && paths2[i].len() > d && paths2[i][d] >= c by {
            if paths1.dom().contains(i) {
                assert(kept(s1, paths1, s2, paths2, i));
                lemma_prefix_push(p, x, paths1[i]);
            }
        }
        paths2
    } else {
        assert(s2 == place_children(s, ks, p, b, c + 1));
        assert forall|i: int| #[trigger]
            paths.dom().contains(i) && p.is_prefix_of(paths[i]) && i != slot implies paths[i].len()
            > d && (paths[i][d] < c + 1 ==> complete(s, paths, ks, i)) by {
            if paths[i][d] == c {
                assert(node_ok(s, paths, ks, i));
                let k = choose|k: Seq<u8>| #[trigger] ks.contains(k) && paths[i].is_prefix_of(k);
                lemma_prefix_push(p, c as u8, paths[i]);
                lemma_prefix_trans(p.push(c as u8), paths[i], k);
                assert(in_closure(ks, p.push(c as u8)));
            }
        }
        let paths2 = lemma_place_children(s, paths, ks, p, slot, b, c + 1);
        assert forall|i: int| #[trigger] paths.dom().contains(i) implies kept(s, paths, s2, paths2, i)
            && (!(p.is_prefix_of(paths[i]) && paths[i].len() > d && paths[i][d] >= c) ==> s2.base[i]
            == s.base[i]) by {
            assert(kept(s, paths, s2, paths2, i));
        }
        paths2
    }
}

/// Every node of the trie has all its edges.
pub open spec fn all_complete(s: Slots, paths: Map<int, Seq<u8>>, ks: Set<Seq<u8>>) -> bool {
    forall|i: int| #[trigger] paths.dom().contains(i) ==> complete(s, paths, ks, i)
}

/// A path from the root along `q` ends at the node that stands for `q`.
pub proof fn lemma_walk_paths(s: Slots, paths: Map<int, Seq<u8>>, ks: Set<Seq<u8>>, q: Seq<u8>)
    requires
        tree(s, paths, ks),
        s.walk(q) is Some,
    ensures
        paths.dom().contains(s.walk(q)->0),
        paths[s.walk(q)->0] == q,
    decreases q.len(),
{
    if q.len() > 0 {
        let front = q.drop_last();
        lemma_walk_paths(s, paths, ks, front);
        let cur = s.walk(front)->0;
        let j = s.child(cur, q.last())->0;
        assert(node_ok(s, paths, ks, cur));
        assert(parent_ok(s, paths, j));
        assert(front.push(q.last()) =~= q);
    }
}

/// Where every node has all its edges, every walkable string has a path.
pub proof fn lemma_walk_complete(s: Slots, paths: Map<int, Seq<u8>>, ks: Set<Seq<u8>>, q: Seq<u8>)
    requires
        tree(s, paths, ks),
        all_complete(s, paths, ks),
        walkable(ks, q),
    ensures
        s.walk(q) is Some,
    decreases q.len(),
{
    if q.len() > 0 {
        let front = q.drop_last();
        lemma_walkable_drop_last(ks, q);
        lemma_walk_complete(s, paths, ks, front);
        lemma_walk_paths(s, paths, ks, front);
        let cur = s.walk(front)->0;
        assert(complete(s, paths, ks, cur));
        assert(labels(ks, paths[cur]).contains(q.last()));
    }
}

/// Cutting off the unused end of the arrays of a trie removes only empty
/// entries.
pub proof fn lemma_trimmed_same(s: Slots, paths: Map<int, Seq<u8>>, ks: Set<Seq<u8>>)
    requires
        tree(s, paths, ks),
        all_complete(s, paths, ks),
    ensures
        forall|i: int| #[trigger] s.trimmed().base_at(i) == s.base_at(i),
        forall|i: int| #[trigger] s.trimmed().check_at(i) == s.check_at(i),
        forall|i: int, c: u8| #[trigger] s.trimmed().child(i, c) == s.child(i, c),
{
    let t = s.trimmed();
    let n = extent(s.check) as int;
    lemma_extent(s.check);
    assert forall|i: int| #[trigger] t.base_at(i) == s.base_at(i) by {
        if n <= i < s.base.len() && s.base[i] is Some {
            assert(base_ok(s, paths, ks, i));
            assert(node_ok(s, paths, ks, i));
            assert(i == 0);
            let c = choose|c: u8| labels(ks, paths[i]).contains(c);
            assert(complete(s, paths, ks, i));
            assert(s.child(i, c) is Some);
            let j = s.child(i, c)->0;
            assert(s.check[j] is Some);
        }
    }
    assert forall|i: int| #[trigger] t.check_at(i) == s.check_at(i) by {
        if n <= i < s.check.len() {
            assert(s.check[i] is None);
        }
    }
    assert forall|i: int, c: u8| #[trigger] t.child(i, c) == s.child(i, c) by {
        assert(t.base_at(i) == s.base_at(i));
        match s.base_at(i) {
            Some(b) => {
                assert(t.check_at(b + c) == s.check_at(b + c));
            },
            None => {},
        }
    }
}

/// Two arrays with the same edges have the same paths.
pub proof fn lemma_same_walk(s: Slots, t: Slots, q: Seq<u8>)
    requires
        forall|i: int, c: u8| #[trigger] t.child(i, c) == s.child(i, c),
    ensures
        t.walk(q) == s.walk(q),
    decreases q.len(),
{
    if q.len() > 0 {
        lemma_same_walk(s, t, q.drop_last());
        match s.walk(q.drop_last()) {
            Some(cur) => {
                assert(t.child(cur, q.last()) == s.child(cur, q.last()));
            },
            None => {},
        }
    }
}

/// The arrays of a key set, once their unused end is cut off, have the
/// invariants of a double array.
pub proof fn lemma_trimmed_shaped(s: Slots, paths: Map<int, Seq<u8>>, ks: Set<Seq<u8>>)
    requires
        tree(s, paths, ks),
        all_complete(s, paths, ks),
    ensures
        s.trimmed().shaped(),
{
    let t = s.trimmed();
    let n = extent(s.check) as int;
    lemma_extent(s.check);
    lemma_trimmed_same(s, paths, ks);
    assert forall|i: int| 0 <= i < t.check.len() implies #[trigger] t.linked(i) by {
        assert(parent_ok(s, paths, i));
        match s.check[i] {
            Some(parent) => {
                assert(node_ok(s, paths, ks, parent as int));
                if parent >= n {
                    assert(s.check[parent as int] is None);
                }
            },
            None => {},
        }
    }
    assert forall|i: int| 0 <= i < t.base.len() implies #[trigger] t.branching(i) by {
        assert(base_ok(s, paths, ks, i));
        if s.base[i] is Some {
            assert(node_ok(s, paths, ks, i));
            let c = choose|c: u8| labels(ks, paths[i]).contains(c);
            assert(complete(s, paths, ks, i));
            assert(s.child(i, c) is Some);
            assert(t.child(i, c) == s.child(i, c));
        }
    }
}

/// The arrays of a key set, once their unused end is cut off, are a trie of
/// the key set.
pub proof fn lemma_trimmed_represents(s: Slots, paths: Map<int, Seq<u8>>, ks: Set<Seq<u8>>)
    requires
        tree(s, paths, ks),
        all_complete(s, paths, ks),
    ensures
        s.trimmed().represents(ks),
{
    let t = s.trimmed();
    lemma_trimmed_same(s, paths, ks);
    assert forall|q: Seq<u8>| #[trigger] t.accepts(q) <==> walkable(ks, q) by {
        lemma_same_walk(s, t, q);
        if s.walk(q) is Some {
            lemma_walk_paths(s, paths, ks, q);
            assert(node_ok(s, paths, ks, s.walk(q)->0));
        }
        if walkable(ks, q) {
            lemma_walk_complete(s, paths, ks, q);
        }
    }
    assert forall|q: Seq<u8>| #[trigger]
        t.leaf_at(q) <==> walkable(ks, q) && labels(ks, q) =~= Set::empty() by {
        lemma_same_walk(s, t, q);
        if walkable(ks, q) {
            lemma_walk_complete(s, paths, ks, q);
        }
        if s.walk(q) is Some {
            lemma_walk_paths(s, paths, ks, q);
            let i = s.walk(q)->0;
            assert(node_ok(s, paths, ks, i));
            assert(t.base_at(i) == s.base_at(i));
            assert(base_ok(s, paths, ks, i));
            assert(complete(s, paths, ks, i));
            if s.base[i] is None && !(labels(ks, q) =~= Set::empty()) {
                let c = choose|c: u8| labels(ks, q).contains(c);
                assert(s.child(i, c) is Some);
            }
        }
    }
    assert forall|q1: Seq<u8>, q2: Seq<u8>|
        t.accepts(q1) && #[trigger] t.walk(q1) == #[trigger] t.walk(q2) implies q1 == q2 by {
        lemma_same_walk(s, t, q1);
        lemma_same_walk(s, t, q2);
        lemma_walk_paths(s, paths, ks, q1);
        lemma_walk_paths(s, paths, ks, q2);
    }
}

/// The double array of a key set has the invariants of a double array and is
/// a trie of the key set.
pub proof fn lemma_layout(ks: Set<Seq<u8>>)
    requires
        has_bound(ks),
        representable(ks),
    ensures
        layout(ks).shaped(),
        layout(ks).represents(ks),
{
    let s0 = Slots::blank(512);
    let p0 = Seq::<u8>::empty();
    let paths0 = Map::<int, Seq<u8>>::empty().insert(0, p0);
    assert forall|i: int| 0 <= i < s0.check.len() implies #[trigger] parent_ok(s0, paths0, i) by {}
    assert forall|i: int| 0 <= i < s0.check.len() implies #[trigger] base_ok(s0, paths0, ks, i) by {}
    assert(tree(s0, paths0, ks));
    let paths = lemma_place(s0, paths0, ks, p0, 0);
    let s = untrimmed(ks);
    assert forall|i: int| #[trigger] paths.dom().contains(i) implies complete(s, paths, ks, i) by {
        assert(p0 =~= paths[i].subrange(0, 0));
    }
    lemma_trimmed_shaped(s, paths, ks);
    lemma_trimmed_represents(s, paths, ks);
}

} // verus!
