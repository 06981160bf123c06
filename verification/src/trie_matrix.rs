//! The trie matrix: a trie as a list of nodes, each with the list of its
//! edges.

use vstd::prelude::*;
use crate::keys::{
    ascending, child_runs, covers, depth_bound, has_bound, key_set, label_from, labels,
    lemma_label_depth, lemma_list_has_bound, lemma_no_label_between, lemma_permutation_key_set,
    lemma_prefix_push, sort_keys, sorted, views,
};
use crate::matrix::{
    first_with, grow, leads_on, lemma_grow_skip, lemma_row_walk_stuck, matrix_of, matrix_shaped,
    row_accepts, row_walk, rows_of, rows_represent, target, with_edge,
};
use crate::matrix_shape::lemma_matrix;
use crate::util::CharType;

verus! {

/// A trie of byte strings. Node 0 is the root; row `n` lists the edges of
/// node `n`, each as its label and the node it leads to.
pub struct TrieMatrix {
    mat: Vec<Vec<(CharType, usize)>>,
}

impl View for TrieMatrix {
    type V = Seq<Seq<(u8, usize)>>;

    closed spec fn view(&self) -> Seq<Seq<(u8, usize)>> {
        rows_of(self.mat@)
    }
}

impl TrieMatrix {
    /// The rows have the invariants of a trie matrix.
    #[verifier::type_invariant]
    pub closed spec fn wf(&self) -> bool {
        matrix_shaped(rows_of(self.mat@))
    }

    /// Builds the trie matrix of the given keys. The result depends on the
    /// set of keys alone, not on their order or on repetitions.
    pub fn build(keys: Vec<Vec<CharType>>) -> (tm: Self)
        ensures
            tm@ == matrix_of(key_set(keys@)),
            matrix_shaped(tm@),
            rows_represent(tm@, key_set(keys@)),
    {
        let ghost given = views(keys@);
        let mut keys = keys;
        sort_keys(&mut keys);
        proof {
            lemma_permutation_key_set(views(keys@), given);
            lemma_list_has_bound(views(keys@));
        }
        let mut mat: Vec<Vec<(CharType, usize)>> = Vec::new();
        mat.push(Vec::new());
        assert(rows_of(mat@) =~= seq![Seq::<(u8, usize)>::empty()]);
        proof {
            let all = views(keys@);
            assert forall|i: int| 0 <= i < all.len() implies Seq::<u8>::empty().is_prefix_of(
                #[trigger] all[i],
            ) by {
                assert(Seq::<u8>::empty() =~= all[i].subrange(0, 0));
            }
        }
        Self::build_mat(&mut mat, &keys, 0, 0, keys.len(), 0, Ghost(Seq::empty()));
        proof {
            assert(rows_of(mat@).len() <= usize::MAX);
            lemma_matrix(key_set(keys@));
        }
        Self { mat }
    }

    /// The rows of the matrix, for a caller that stores them.
    pub fn rows(&self) -> (mat: &Vec<Vec<(CharType, usize)>>)
        ensures
            rows_of(mat@) == self@,
    {
        &self.mat
    }

    /// Whether the trie has a path from the root along `key`. A path need not
    /// end at the end of a key: every prefix of a key has one.
    pub fn contain(&self, key: &[CharType]) -> (found: bool)
        ensures
            found == row_accepts(self@, key@),
    {
        proof {
            use_type_invariant(self);
        }
        let mut cur: usize = 0;
        let mut i: usize = 0;
        assert(key@.take(0) =~= Seq::<u8>::empty());
        while i < key.len()
            invariant
                i <= key.len(),
                cur < self.mat.len(),
                matrix_shaped(self@),
                row_walk(self@, key@.take(i as int)) == Some(cur as int),
            decreases key.len() - i,
        {
            proof {
                assert(key@.take(i + 1).drop_last() =~= key@.take(i as int));
                assert(key@.take(i + 1).last() == key@[i as int]);
            }
            match self.next(cur, key[i]) {
                Some(child_id) => {
                    cur = child_id;
                },
                None => {
                    proof {
                        lemma_row_walk_stuck(self@, key@, i + 1);
                    }
                    return false;
                },
            }
            i = i + 1;
        }
        assert(key@.take(i as int) =~= key@);
        true
    }

    /// The node that the first edge of node `nid` with label `c` leads to.
    fn next(&self, nid: usize, c: CharType) -> (r: Option<usize>)
        requires
            nid < self.mat.len(),
            matrix_shaped(self@),
        ensures
            r == target(self@[nid as int], c),
            r matches Some(id) ==> id < self.mat.len(),
    {
        let row = &self.mat[nid];
        assert(row@ == self@[nid as int]);
        let mut j: usize = 0;
        while j < row.len()
            invariant
                j <= row.len(),
                row@ == self@[nid as int],
                nid < self@.len(),
                matrix_shaped(self@),
                forall|k: int| 0 <= k < j ==> (#[trigger] row@[k]).0 != c,
            decreases row.len() - j,
        {
            if row[j].0 == c {
                proof {
                    assert(first_with(row@, c, j as int));
                    let j2 = choose|j2: int| first_with(row@, c, j2);
                    assert(j2 == j) by {
                        if j2 < j {
                            assert(row@[j2].0 != c);
                        }
                        if j < j2 {
                            assert(row@[j as int].0 != c);
                        }
                    }
                    assert(leads_on(self@, nid as int, j as int));
                }
                return Some(row[j].1);
            }
            j = j + 1;
        }
        proof {
            assert forall|j2: int| !first_with(row@, c, j2) by {
                if 0 <= j2 < row@.len() {
                    assert(row@[j2].0 != c);
                }
            }
        }
        None
    }

    /// Adds the subtree of node `nid`, whose string `p` has length
    /// `char_idx`, where `keys[key_beg..key_end]` are the keys that start
    /// with `p`.
    fn build_mat(
        mat: &mut Vec<Vec<(CharType, usize)>>,
        keys: &Vec<Vec<CharType>>,
        nid: usize,
        key_beg: usize,
        key_end: usize,
        char_idx: usize,
        Ghost(p): Ghost<Seq<u8>>,
    )
        requires
            nid < old(mat).len(),
            rows_of(old(mat)@)[nid as int].len() == 0,
            sorted(views(keys@)),
            covers(views(keys@), key_beg as int, key_end as int, p),
            p.len() == char_idx,
            has_bound(key_set(keys@)),
        ensures
            rows_of(final(mat)@) == grow(rows_of(old(mat)@), key_set(keys@), p, nid as int, 0),
            final(mat).len() >= old(mat).len(),
        decreases depth_bound(key_set(keys@)) - char_idx,
    {
        let ghost ks = key_set(keys@);
        let ghost all = views(keys@);
        let ghost ls = labels(ks, p);
        let ghost target = grow(rows_of(mat@), ks, p, nid as int, 0);
        let (children, chars) = child_runs(keys, key_beg, key_end, char_idx, Ghost(p));
        proof {
            assert(ls =~= chars@.to_set());
            lemma_no_label_between(chars@, 0);
            lemma_grow_skip(rows_of(mat@), ks, p, nid as int, 0, label_from(chars@, 0));
        }
        let mut i: usize = 0;
        while i < children.len()
            invariant
                i <= children.len(),
                children.len() == chars.len(),
                ks == key_set(keys@),
                all == views(keys@),
                ls == labels(ks, p),
                ls == chars@.to_set(),
                has_bound(ks),
                sorted(all),
                ascending(chars@),
                p.len() == char_idx,
                forall|j: int|
                    0 <= j < chars.len() ==> (#[trigger] children[j]).0 < children[j].1 && covers(
                        all,
                        children[j].0 as int,
                        children[j].1 as int,
                        p.push(chars[j]),
                    ),
                nid < old(mat).len() <= mat.len(),
                grow(rows_of(mat@), ks, p, nid as int, label_from(chars@, i as int)) == target,
            decreases children.len() - i,
        {
            let c: u8 = chars[i];
            let child_id: usize = mat.len();
            let (kb, ke) = children[i];
            proof {
                assert(chars@.contains(chars@[i as int]));
                assert(ls.contains(c));
                lemma_label_depth(ks, p, c);
                assert(covers(all, children[i as int].0 as int, children[i as int].1 as int, p.push(c)));
                assert(p.push(c).is_prefix_of(all[kb as int]));
                lemma_prefix_push(p, c, all[kb as int]);
                assert(char_idx < keys@[kb as int].len());
            }
            let ghost before = rows_of(mat@);
            mat.push(Vec::new());
            mat[nid].push((c, child_id));
            assert(rows_of(mat@) =~= with_edge(before, nid as int, c));
            Self::build_mat(mat, keys, child_id, kb, ke, char_idx + 1, Ghost(p.push(c)));
            proof {
                let nxt = label_from(chars@, i + 1);
                assert(grow(before, ks, p, nid as int, c as int) == grow(
                    rows_of(mat@),
                    ks,
                    p,
                    nid as int,
                    c + 1,
                ));
                lemma_no_label_between(chars@, i + 1);
                lemma_grow_skip(rows_of(mat@), ks, p, nid as int, c + 1, nxt);
            }
            i = i + 1;
        }
    }
}

} // verus!
