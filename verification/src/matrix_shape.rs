//! Why the rows of a key set are a trie of that key set: every node stands
//! for one string, the strings are the prefixes of the keys, and every node
//! has all its edges.

use vstd::prelude::*;
use crate::keys::{
    depth_bound, has_bound, in_closure, labels, lemma_label_depth, lemma_prefix_push,
    lemma_walkable_drop_last, walkable,
};
use crate::matrix::{
    first_with, grow, has_parent, leads_on, matrix_of, matrix_shaped, row_accepts, row_ascends,
    row_walk, rows_represent, target, with_edge,
};

verus! {

/// The edge `j` of node `n` leads on to the node that stands for the string
/// of `n` followed by the label of the edge.
pub open spec fn edge_ok(rows: Seq<Seq<(u8, usize)>>, paths: Seq<Seq<u8>>, n: int, j: int) -> bool {
    &&& leads_on(rows, n, j)
    &&& paths[rows[n][j].1 as int] == paths[n].push(rows[n][j].0)
}

/// The rows hold a part of the trie of `ks`, where `paths` gives the string
/// of each node.
pub open spec fn row_tree(rows: Seq<Seq<(u8, usize)>>, paths: Seq<Seq<u8>>, ks: Set<Seq<u8>>) -> bool {
    &&& rows.len() == paths.len()
    &&& 1 <= rows.len() <= usize::MAX
    &&& paths[0] =~= Seq::empty()
    &&& forall|n: int| 0 <= n < rows.len() ==> walkable(ks, #[trigger] paths[n])
    &&& forall|n: int, j: int|
        0 <= n < rows.len() && 0 <= j < rows[n].len() ==> #[trigger] edge_ok(rows, paths, n, j)
    &&& forall|n: int| 0 <= n < rows.len() ==> row_ascends(#[trigger] rows[n])
    &&& forall|m: int| 1 <= m < rows.len() ==> #[trigger] has_parent(rows, m)
    &&& forall|n: int, m: int|
        0 <= n < m < rows.len() ==> #[trigger] paths[n] != #[trigger] paths[m]
}

/// Node `n` has an edge for every byte by which its string branches.
pub open spec fn row_complete(
    rows: Seq<Seq<(u8, usize)>>,
    paths: Seq<Seq<u8>>,
    ks: Set<Seq<u8>>,
    n: int,
) -> bool {
    forall|c: u8| #[trigger] labels(ks, paths[n]).contains(c) ==> target(rows[n], c) is Some
}

/// The nodes below the node of `p` came by an edge with a label under `c`,
/// and have all their edges.
pub open spec fn below_done(
    rows: Seq<Seq<(u8, usize)>>,
    paths: Seq<Seq<u8>>,
    ks: Set<Seq<u8>>,
    p: Seq<u8>,
    nid: int,
    c: int,
) -> bool {
    forall|n: int|
        0 <= n < rows.len() && n != nid && p.is_prefix_of(#[trigger] paths[n]) ==> paths[n].len()
            > p.len() && paths[n][p.len() as int] < c && row_complete(rows, paths, ks, n)
}

/// The row has an edge for each label of `ls` under `c`, and for no label
/// from `c` on.
pub open spec fn row_done(row: Seq<(u8, usize)>, ls: Set<u8>, c: int) -> bool {
    &&& forall|j: int| 0 <= j < row.len() ==> (#[trigger] row[j]).0 < c
    &&& forall|x: u8| x < c && #[trigger] ls.contains(x) ==> target(row, x) is Some
}

/// Adding edges and subtrees never removes a node.
pub proof fn lemma_grow_len(
    rows: Seq<Seq<(u8, usize)>>,
    ks: Set<Seq<u8>>,
    p: Seq<u8>,
    nid: int,
    c: int,
)
    requires
        has_bound(ks),
        0 <= nid < rows.len(),
    ensures
        grow(rows, ks, p, nid, c).len() >= rows.len(),
    decreases depth_bound(ks) - p.len(), 256 - c,
{
    if c >= 256 {
    } else if labels(ks, p).contains(c as u8) {
        let x = c as u8;
        lemma_label_depth(ks, p, x);
        let rows1 = with_edge(rows, nid, x);
        let rows3 = grow(rows1, ks, p.push(x), rows.len() as int, 0);
        lemma_grow_len(rows1, ks, p.push(x), rows.len() as int, 0);
        lemma_grow_len(rows3, ks, p, nid, c + 1);
    } else {
        lemma_grow_len(rows, ks, p, nid, c + 1);
    }
}

/// An edge that a row has, it still has after another edge is appended.
pub proof fn lemma_target_push(row: Seq<(u8, usize)>, e: (u8, usize), x: u8)
    requires
        target(row, x) is Some,
    ensures
        target(row.push(e), x) is Some,
{
    let j = choose|j: int| first_with(row, x, j);
    assert forall|k: int| 0 <= k < j implies (#[trigger] row.push(e)[k]).0 != x by {
        assert(row[k].0 != x);
    }
    assert(first_with(row.push(e), x, j));
}

/// One more node, with an edge to it from a node whose other labels are
/// smaller, keeps the rows a part of the trie.
pub proof fn lemma_edge_added(
    rows: Seq<Seq<(u8, usize)>>,
    paths: Seq<Seq<u8>>,
    ks: Set<Seq<u8>>,
    p: Seq<u8>,
    nid: int,
    x: u8,
)
    requires
        row_tree(rows, paths, ks),
        0 <= nid < rows.len(),
        paths[nid] == p,
        labels(ks, p).contains(x),
        below_done(rows, paths, ks, p, nid, x as int),
        row_done(rows[nid], labels(ks, p), x as int),
        rows.len() + 1 <= usize::MAX,
    ensures
        row_tree(with_edge(rows, nid, x), paths.push(p.push(x)), ks),
        below_done(
            with_edge(rows, nid, x),
            paths.push(p.push(x)),
            ks,
            p.push(x),
            rows.len() as int,
            0,
        ),
        row_done(with_edge(rows, nid, x)[nid], labels(ks, p), x + 1),
{
    let n0 = rows.len() as int;
    let px = p.push(x);
    let rows1 = with_edge(rows, nid, x);
    let paths1 = paths.push(px);
    let row = rows[nid];
    let row1 = rows1[nid];
    assert(row1 == row.push((x, n0 as usize)));
    assert(in_closure(ks, px));
    assert forall|n: int| 0 <= n < rows1.len() implies walkable(ks, #[trigger] paths1[n]) by {
        if n < n0 {
            assert(walkable(ks, paths[n]));
        }
    }
    assert forall|n: int, j: int| 0 <= n < rows1.len() && 0 <= j < rows1[n].len() implies #[trigger] edge_ok(
        rows1,
        paths1,
        n,
        j,
    ) by {
        if n == nid {
            if j < row.len() {
                assert(edge_ok(rows, paths, n, j));
            }
        } else {
            assert(edge_ok(rows, paths, n, j));
        }
    }
    assert forall|n: int| 0 <= n < rows1.len() implies row_ascends(#[trigger] rows1[n]) by {
        if n == nid {
            assert(row_ascends(rows[n]));
            assert forall|j: int, k: int| 0 <= j < k < row1.len() implies (#[trigger] row1[j]).0 < (
            #[trigger] row1[k]).0 by {
                if k < row.len() {
                    assert(row[j].0 < row[k].0);
                } else {
                    assert(row[j].0 < x);
                }
            }
        } else if n < n0 {
            assert(row_ascends(rows[n]));
        }
    }
    assert forall|m: int| 1 <= m < rows1.len() implies #[trigger] has_parent(rows1, m) by {
        if m < n0 {
            assert(has_parent(rows, m));
            let (n, j) = choose|n: int, j: int|
                0 <= n < rows.len() && 0 <= j < rows[n].len() && (#[trigger] rows[n][j]).1 == m;
            assert(rows1[n][j].1 == m);
        } else {
            assert(rows1[nid][row.len() as int].1 == m);
        }
    }
    assert forall|n: int| 0 <= n < n0 implies !px.is_prefix_of(#[trigger] paths[n]) by {
        lemma_prefix_push(p, x, paths[n]);
    }
    assert forall|n: int, m: int| 0 <= n < m < rows1.len() implies #[trigger] paths1[n]
        != #[trigger] paths1[m] by {
        if m == n0 {
            assert(!px.is_prefix_of(paths[n]));
            assert(px =~= px.subrange(0, px.len() as int));
        } else {
            assert(paths[n] != paths[m]);
        }
    }
    assert(row_tree(rows1, paths1, ks));
    assert forall|n: int|
        0 <= n < rows1.len() && n != n0 && px.is_prefix_of(#[trigger] paths1[n]) implies paths1[n].len()
        > px.len() && paths1[n][px.len() as int] < 0 && row_complete(rows1, paths1, ks, n) by {
        assert(!px.is_prefix_of(paths[n]));
    }
    assert forall|y: u8| y < x + 1 && #[trigger] labels(ks, p).contains(y) implies target(row1, y) is Some by {
        if y < x {
            lemma_target_push(row, (x, n0 as usize), y);
        } else {
            assert forall|k: int| 0 <= k < row.len() implies (#[trigger] row1[k]).0 != x by {
                assert(row[k].0 < x);
            }
            assert(first_with(row1, x, row.len() as int));
        }
    }
    assert forall|j: int| 0 <= j < row1.len() implies (#[trigger] row1[j]).0 < x + 1 by {
        if j < row.len() {
            assert(row[j].0 < x);
        }
    }
}

/// Adding to a node its edges from label `c` on, and the subtrees below
/// them, keeps the rows a part of the trie, changes no other node that was
/// there, and leaves the node and every node below it with all their edges.
/// Returns the strings of the nodes afterwards.
pub proof fn lemma_grow(
    rows: Seq<Seq<(u8, usize)>>,
    paths: Seq<Seq<u8>>,
    ks: Set<Seq<u8>>,
    p: Seq<u8>,
    nid: int,
    c: int,
) -> (paths2: Seq<Seq<u8>>)
    requires
        has_bound(ks),
        row_tree(rows, paths, ks),
        0 <= c <= 256,
        0 <= nid < rows.len(),
        paths[nid] == p,
        below_done(rows, paths, ks, p, nid, c),
        row_done(rows[nid], labels(ks, p), c),
        grow(rows, ks, p, nid, c).len() <= usize::MAX,
    ensures
        row_tree(grow(rows, ks, p, nid, c), paths2, ks),
        rows.len() <= grow(rows, ks, p, nid, c).len(),
        forall|n: int|
            0 <= n < rows.len() ==> #[trigger] paths2[n] == paths[n] && (n != nid ==> grow(
                rows,
                ks,
                p,
                nid,
                c,
            )[n] == rows[n]),
        forall|n: int|
            rows.len() <= n < paths2.len() ==> p.is_prefix_of(#[trigger] paths2[n]) && paths2[n].len()
                > p.len(),
        forall|n: int|
            0 <= n < paths2.len() && p.is_prefix_of(#[trigger] paths2[n]) ==> row_complete(
                grow(rows, ks, p, nid, c),
                paths2,
                ks,
                n,
            ),
    decreases depth_bound(ks) - p.len(), 256 - c,
{
    let ls = labels(ks, p);
    let d = p.len() as int;
    let rows2 = grow(rows, ks, p, nid, c);
    if c >= 256 {
        assert forall|n: int| 0 <= n < paths.len() && p.is_prefix_of(#[trigger] paths[n]) implies row_complete(
            rows,
            paths,
            ks,
            n,
        ) by {}
        paths
    } else if ls.contains(c as u8) {
        let x = c as u8;
        let px = p.push(x);
        let n0 = rows.len() as int;
        let rows1 = with_edge(rows, nid, x);
        let paths1 = paths.push(px);
        let rows3 = grow(rows1, ks, px, n0, 0);
        lemma_label_depth(ks, p, x);
        assert(rows2 == grow(rows3, ks, p, nid, c + 1));
        assert(rows1.len() == n0 + 1);
        lemma_grow_len(rows1, ks, px, n0, 0);
        lemma_grow_len(rows3, ks, p, nid, c + 1);
        lemma_edge_added(rows, paths, ks, p, nid, x);
        assert(row_done(rows1[n0], labels(ks, px), 0));
        let paths3 = lemma_grow(rows1, paths1, ks, px, n0, 0);
        assert(paths3[nid] == paths1[nid]);
        assert forall|n: int|
            0 <= n < rows3.len() && n != nid && p.is_prefix_of(#[trigger] paths3[n]) implies paths3[n].len()
            > d && paths3[n][d] < c + 1 && row_complete(rows3, paths3, ks, n) by {
            if n < n0 {
                assert(paths3[n] == paths1[n]);
                assert(p.is_prefix_of(paths[n]));
                assert(row_complete(rows, paths, ks, n));
            } else {
                if n == n0 {
                    assert(paths3[n] == paths1[n]);
                    assert(px =~= px.subrange(0, px.len() as int));
                }
                assert(px.is_prefix_of(paths3[n]));
                lemma_prefix_push(p, x, paths3[n]);
            }
        }
        let paths2 = lemma_grow(rows3, paths3, ks, p, nid, c + 1);
        assert forall|n: int| 0 <= n < rows.len() implies #[trigger] paths2[n] == paths[n] && (n
            != nid ==> rows2[n] == rows[n]) by {
            assert(paths3[n] == paths1[n]);
            assert(paths1[n] == paths[n]);
            assert(paths2[n] == paths3[n]);
            if n != nid {
                assert(rows3[n] == rows1[n]);
                assert(rows1[n] == rows[n]);
                assert(rows2[n] == rows3[n]);
            }
        }
        assert forall|n: int| rows.len() <= n < paths2.len() implies p.is_prefix_of(
            #[trigger] paths2[n],
        ) && paths2[n].len() > d by {
            if n < rows3.len() {
                assert(paths2[n] == paths3[n]);
                if n == n0 {
                    assert(paths3[n] == paths1[n]);
                    assert(px =~= px.subrange(0, px.len() as int));
                }
                assert(px.is_prefix_of(paths3[n]));
                lemma_prefix_push(p, x, paths3[n]);
            }
        }
        paths2
    } else {
        assert(rows2 == grow(rows, ks, p, nid, c + 1));
        assert forall|n: int|
            0 <= n < rows.len() && n != nid && p.is_prefix_of(#[trigger] paths[n]) implies paths[n].len()
            > d && paths[n][d] < c + 1 && row_complete(rows, paths, ks, n) by {}
        lemma_grow(rows, paths, ks, p, nid, c + 1)
    }
}

/// A path from the root along `q` ends at the node that stands for `q`.
pub proof fn lemma_row_walk_paths(
    rows: Seq<Seq<(u8, usize)>>,
    paths: Seq<Seq<u8>>,
    ks: Set<Seq<u8>>,
    q: Seq<u8>,
)
    requires
        row_tree(rows, paths, ks),
        row_walk(rows, q) is Some,
    ensures
        0 <= row_walk(rows, q)->0 < rows.len(),
        paths[row_walk(rows, q)->0] == q,
    decreases q.len(),
{
    if q.len() > 0 {
        let front = q.drop_last();
        lemma_row_walk_paths(rows, paths, ks, front);
        let cur = row_walk(rows, front)->0;
        let j = choose|j: int| first_with(rows[cur], q.last(), j);
        assert(edge_ok(rows, paths, cur, j));
        assert(front.push(q.last()) =~= q);
    }
}

/// Where every node has all its edges, every walkable string has a path.
pub proof fn lemma_row_walk_complete(
    rows: Seq<Seq<(u8, usize)>>,
    paths: Seq<Seq<u8>>,
    ks: Set<Seq<u8>>,
    q: Seq<u8>,
)
    requires
        row_tree(rows, paths, ks),
        forall|n: int| 0 <= n < rows.len() ==> #[trigger] row_complete(rows, paths, ks, n),
        walkable(ks, q),
    ensures
        row_walk(rows, q) is Some,
    decreases q.len(),
{
    if q.len() > 0 {
        let front = q.drop_last();
        lemma_walkable_drop_last(ks, q);
        lemma_row_walk_complete(rows, paths, ks, front);
        lemma_row_walk_paths(rows, paths, ks, front);
        let cur = row_walk(rows, front)->0;
        assert(row_complete(rows, paths, ks, cur));
        assert(labels(ks, paths[cur]).contains(q.last()));
    }
}

/// Rows that are a part of a trie have the invariants of a trie matrix.
pub proof fn lemma_tree_shaped(rows: Seq<Seq<(u8, usize)>>, paths: Seq<Seq<u8>>, ks: Set<Seq<u8>>)
    requires
        row_tree(rows, paths, ks),
    ensures
        matrix_shaped(rows),
{
    assert forall|n: int, j: int| 0 <= n < rows.len() && 0 <= j < rows[n].len() implies #[trigger] leads_on(
        rows,
        n,
        j,
    ) by {
        assert(edge_ok(rows, paths, n, j));
    }
    assert forall|n1: int, j1: int, n2: int, j2: int|
        0 <= n1 < rows.len() && 0 <= j1 < rows[n1].len() && 0 <= n2 < rows.len() && 0 <= j2
            < rows[n2].len() && (#[trigger] rows[n1][j1]).1 == (#[trigger] rows[n2][j2]).1 implies n1
        == n2 && j1 == j2 by {
        assert(edge_ok(rows, paths, n1, j1));
        assert(edge_ok(rows, paths, n2, j2));
        let a = paths[n1].push(rows[n1][j1].0);
        let b = paths[n2].push(rows[n2][j2].0);
        assert(a == b);
        assert(paths[n1] =~= a.drop_last());
        assert(paths[n2] =~= b.drop_last());
        assert(rows[n1][j1].0 == a.last());
        assert(rows[n2][j2].0 == b.last());
        if n1 < n2 {
            assert(paths[n1] != paths[n2]);
        }
        if n2 < n1 {
            assert(paths[n2] != paths[n1]);
        }
        assert(row_ascends(rows[n1]));
        if j1 < j2 {
            assert(rows[n1][j1].0 < rows[n1][j2].0);
        }
        if j2 < j1 {
            assert(rows[n1][j2].0 < rows[n1][j1].0);
        }
    }
}

/// The trie matrix of a key set has the invariants of a trie matrix and is a
/// trie of the key set.
pub proof fn lemma_matrix(ks: Set<Seq<u8>>)
    requires
        has_bound(ks),
        matrix_of(ks).len() <= usize::MAX,
    ensures
        matrix_shaped(matrix_of(ks)),
        rows_represent(matrix_of(ks), ks),
{
    let rows0 = seq![Seq::<(u8, usize)>::empty()];
    let p0 = Seq::<u8>::empty();
    let paths0 = seq![p0];
    assert(row_tree(rows0, paths0, ks));
    let rows = matrix_of(ks);
    let paths = lemma_grow(rows0, paths0, ks, p0, 0, 0);
    assert forall|n: int| 0 <= n < rows.len() implies #[trigger] row_complete(rows, paths, ks, n) by {
        assert(p0 =~= paths[n].subrange(0, 0));
    }
    lemma_tree_shaped(rows, paths, ks);
    assert forall|q: Seq<u8>| #[trigger] row_accepts(rows, q) <==> walkable(ks, q) by {
        if row_walk(rows, q) is Some {
            lemma_row_walk_paths(rows, paths, ks, q);
        }
        if walkable(ks, q) {
            lemma_row_walk_complete(rows, paths, ks, q);
        }
    }
    assert forall|q1: Seq<u8>, q2: Seq<u8>|
        row_accepts(rows, q1) && #[trigger] row_walk(rows, q1) == #[trigger] row_walk(
            rows,
            q2,
        ) implies q1 == q2 by {
        lemma_row_walk_paths(rows, paths, ks, q1);
        lemma_row_walk_paths(rows, paths, ks, q2);
    }
}

} // verus!
