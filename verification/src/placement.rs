//! The layout of a double array as a function of its key set: nodes are
//! placed depth first, children in ascending order of their label, each node
//! at the first base where its labels fit.

use vstd::prelude::*;
use crate::keys::{depth_bound, has_bound, labels, lemma_label_depth};
use crate::slots::Slots;

verus! {

/// The arrays after the subtree of the node of `p`, which sits at `slot`, has
/// been placed into `s`.
pub open spec fn place(s: Slots, ks: Set<Seq<u8>>, p: Seq<u8>, slot: int) -> Slots
    decreases depth_bound(ks) - p.len(), 257int,
    when has_bound(ks)
{
    let ls = labels(ks, p);
    if ls =~= Set::empty() {
        s
    } else {
        let b = s.chosen_base(ls);
        place_children(s.with_room(ls).with_node(slot, b, ls), ks, p, b, 0)
    }
}

/// The arrays after the subtrees of the children of the node of `p` with a
/// label of at least `c` have been placed into `s`, where the node has base
/// `b`.
pub open spec fn place_children(s: Slots, ks: Set<Seq<u8>>, p: Seq<u8>, b: int, c: int) -> Slots
    decreases depth_bound(ks) - p.len(), 256 - c,
    when has_bound(ks)
{
    if c >= 256 {
        s
    } else if labels(ks, p).contains(c as u8) {
        proof {
            lemma_label_depth(ks, p, c as u8);
        }
        place_children(place(s, ks, p.push(c as u8), b + c), ks, p, b, c + 1)
    } else {
        place_children(s, ks, p, b, c + 1)
    }
}

/// The arrays of a key set before their unused end is cut off.
pub open spec fn untrimmed(ks: Set<Seq<u8>>) -> Slots {
    place(Slots::blank(512), ks, Seq::empty(), 0)
}

/// The double array of a key set.
pub open spec fn layout(ks: Set<Seq<u8>>) -> Slots {
    untrimmed(ks).trimmed()
}

/// Every index of the arrays of `ks` is a machine word.
pub open spec fn representable(ks: Set<Seq<u8>>) -> bool {
    untrimmed(ks).check.len() <= usize::MAX
}

/// Labels that the node does not have are passed over.
pub proof fn lemma_skip_unlabelled(s: Slots, ks: Set<Seq<u8>>, p: Seq<u8>, b: int, c: int, c2: int)
    requires
        has_bound(ks),
        0 <= c <= c2 <= 256,
        forall|x: u8| c <= x < c2 ==> !labels(ks, p).contains(x),
    ensures
        place_children(s, ks, p, b, c) == place_children(s, ks, p, b, c2),
    decreases c2 - c,
{
    if c < c2 {
        assert(!labels(ks, p).contains(c as u8));
        lemma_skip_unlabelled(s, ks, p, b, c + 1, c2);
    }
}

} // verus!
