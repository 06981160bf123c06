//! The rows of a trie matrix as a mathematical value, what it means to walk
//! them, and the rows of a key set.

use vstd::prelude::*;
use crate::keys::{depth_bound, has_bound, labels, lemma_label_depth, walkable};

verus! {

/// The rows of a list of vectors, each as a sequence.
pub open spec fn rows_of(mat: Seq<Vec<(u8, usize)>>) -> Seq<Seq<(u8, usize)>> {
    mat.map_values(|row: Vec<(u8, usize)>| row@)
}

/// The edge `j` of node `n` leads to a node with a greater number.
pub open spec fn leads_on(rows: Seq<Seq<(u8, usize)>>, n: int, j: int) -> bool {
    n < rows[n][j].1 < rows.len()
}

/// The labels of the row ascend strictly, so no two are equal.
pub open spec fn row_ascends(row: Seq<(u8, usize)>) -> bool {
    forall|j: int, k: int| 0 <= j < k < row.len() ==> (#[trigger] row[j]).0 < (#[trigger] row[k]).0
}

/// Some edge leads to node `m`.
pub open spec fn has_parent(rows: Seq<Seq<(u8, usize)>>, m: int) -> bool {
    exists|n: int, j: int| 0 <= n < rows.len() && 0 <= j < rows[n].len() && (#[trigger] rows[n][j]).1 == m
}

/// The invariants of a trie matrix: there is a root; every edge leads to a
/// node with a greater number than the one it leaves; the labels of a node
/// are distinct; and exactly one edge leads to each node but the root.
pub open spec fn matrix_shaped(rows: Seq<Seq<(u8, usize)>>) -> bool {
    &&& rows.len() >= 1
    &&& forall|n: int, j: int|
        0 <= n < rows.len() && 0 <= j < rows[n].len() ==> #[trigger] leads_on(rows, n, j)
    &&& forall|n: int| 0 <= n < rows.len() ==> row_ascends(#[trigger] rows[n])
    &&& forall|m: int| 1 <= m < rows.len() ==> #[trigger] has_parent(rows, m)
    &&& forall|n1: int, j1: int, n2: int, j2: int|
        0 <= n1 < rows.len() && 0 <= j1 < rows[n1].len() && 0 <= n2 < rows.len() && 0 <= j2
            < rows[n2].len() && (#[trigger] rows[n1][j1]).1 == (#[trigger] rows[n2][j2]).1 ==> n1
            == n2 && j1 == j2
}

/// `j` is the first position of `row` with label `c`.
pub open spec fn first_with(row: Seq<(u8, usize)>, c: u8, j: int) -> bool {
    &&& 0 <= j < row.len()
    &&& row[j].0 == c
    &&& forall|k: int| 0 <= k < j ==> (#[trigger] row[k]).0 != c
}

/// The node that the first edge of `row` with label `c` leads to.
pub open spec fn target(row: Seq<(u8, usize)>, c: u8) -> Option<usize> {
    if exists|j: int| first_with(row, c, j) {
        Some(row[choose|j: int| first_with(row, c, j)].1)
    } else {
        None
    }
}

/// The node that the edge with label `c` leads to from `cur`.
pub open spec fn row_child(rows: Seq<Seq<(u8, usize)>>, cur: int, c: u8) -> Option<int> {
    if 0 <= cur < rows.len() {
        match target(rows[cur], c) {
            Some(id) => Some(id as int),
            None => None,
        }
    } else {
        None
    }
}

/// The node reached from the root along `q`, if every edge exists.
pub open spec fn row_walk(rows: Seq<Seq<(u8, usize)>>, q: Seq<u8>) -> Option<int>
    decreases q.len(),
{
    if q.len() == 0 {
        Some(0)
    } else {
        match row_walk(rows, q.drop_last()) {
            Some(cur) => row_child(rows, cur, q.last()),
            None => None,
        }
    }
}

/// The root has a path along `q`.
pub open spec fn row_accepts(rows: Seq<Seq<(u8, usize)>>, q: Seq<u8>) -> bool {
    row_walk(rows, q) is Some
}

/// The rows are a trie of `ks`: the root has a path along exactly the empty
/// string and the prefixes of the keys, and the paths of two strings end at
/// two nodes.
pub open spec fn rows_represent(rows: Seq<Seq<(u8, usize)>>, ks: Set<Seq<u8>>) -> bool {
    &&& forall|q: Seq<u8>| #[trigger] row_accepts(rows, q) <==> walkable(ks, q)
    &&& forall|q1: Seq<u8>, q2: Seq<u8>|
        row_accepts(rows, q1) && #[trigger] row_walk(rows, q1) == #[trigger] row_walk(rows, q2)
            ==> q1 == q2
}

/// The rows after node `nid`, which stands for `p`, has got its edges with a
/// label of at least `c`, and the subtrees below them. Label by label in
/// ascending order, a new node is appended, the edge to it is recorded, and
/// the subtree of the new node is added.
pub open spec fn grow(
    rows: Seq<Seq<(u8, usize)>>,
    ks: Set<Seq<u8>>,
    p: Seq<u8>,
    nid: int,
    c: int,
) -> Seq<Seq<(u8, usize)>>
    decreases depth_bound(ks) - p.len(), 256 - c,
    when has_bound(ks)
{
    if c >= 256 {
        rows
    } else if labels(ks, p).contains(c as u8) {
        proof {
            lemma_label_depth(ks, p, c as u8);
        }
        grow(
            grow(with_edge(rows, nid, c as u8), ks, p.push(c as u8), rows.len() as int, 0),
            ks,
            p,
            nid,
            c + 1,
        )
    } else {
        grow(rows, ks, p, nid, c + 1)
    }
}

/// The rows with one more node, and an edge to it from `nid` with label `c`.
pub open spec fn with_edge(rows: Seq<Seq<(u8, usize)>>, nid: int, c: u8) -> Seq<Seq<(u8, usize)>> {
    rows.push(Seq::empty()).update(nid, rows[nid].push((c, rows.len() as usize)))
}

/// The trie matrix of a key set.
pub open spec fn matrix_of(ks: Set<Seq<u8>>) -> Seq<Seq<(u8, usize)>> {
    grow(seq![Seq::<(u8, usize)>::empty()], ks, Seq::empty(), 0, 0)
}

/// Labels that the node does not have are passed over.
pub proof fn lemma_grow_skip(
    rows: Seq<Seq<(u8, usize)>>,
    ks: Set<Seq<u8>>,
    p: Seq<u8>,
    nid: int,
    c: int,
    c2: int,
)
    requires
        has_bound(ks),
        0 <= c <= c2 <= 256,
        forall|x: u8| c <= x < c2 ==> !labels(ks, p).contains(x),
    ensures
        grow(rows, ks, p, nid, c) == grow(rows, ks, p, nid, c2),
    decreases c2 - c,
{
    if c < c2 {
        assert(!labels(ks, p).contains(c as u8));
        lemma_grow_skip(rows, ks, p, nid, c + 1, c2);
    }
}

/// A string with a prefix that the rows do not accept is not accepted.
pub proof fn lemma_row_walk_stuck(rows: Seq<Seq<(u8, usize)>>, q: Seq<u8>, n: int)
    requires
        0 <= n <= q.len(),
        row_walk(rows, q.take(n)) is None,
    ensures
        row_walk(rows, q) is None,
    decreases q.len() - n,
{
    if n < q.len() {
        assert(q.take(n + 1).drop_last() =~= q.take(n));
        lemma_row_walk_stuck(rows, q, n + 1);
    } else {
        assert(q.take(n) =~= q);
    }
}

} // verus!
