//! The double array: a trie packed into two parallel arrays.

use vstd::prelude::*;
use crate::enumeration::{lemma_enumeration, lemma_enumeration_ascends, rooted};
use crate::keys::{
    ascending, child_runs, covers, depth_bound, has_bound, key_set, label_from, labels,
    lemma_label_depth, lemma_list_has_bound, lemma_no_label_between, lemma_permutation_key_set,
    lemma_prefix_push, sort_keys, sorted, strictly_sorted, views,
};
use crate::placement::{layout, lemma_skip_unlabelled, place, place_children, untrimmed};
use crate::shape::lemma_layout;
use crate::slots::{extent, lemma_walk_stuck, used_below, Slots};
use crate::util::{CharType, CHAR_SIZE};

verus! {

/// The slot of the root node.
pub const ROOT: usize = 0;

/// A trie of byte strings in two parallel arrays. The node at slot `p` has an
/// edge with label `c` exactly if `check[base[p] + c]` is `p`, and that edge
/// leads to slot `base[p] + c`. The root is slot 0.
pub struct DoubleArray {
    pub base: Vec<Option<usize>>,
    pub check: Vec<Option<usize>>,
}

impl View for DoubleArray {
    type V = Slots;

    open spec fn view(&self) -> Slots {
        Slots { base: self.base@, check: self.check@ }
    }
}

impl DoubleArray {
    /// Builds the double array of the given keys. The result depends on the
    /// set of keys alone, not on their order or on repetitions.
    pub fn build(keys: Vec<Vec<CharType>>) -> (da: Self)
        ensures
            da@ == layout(key_set(keys@)),
            da@.shaped(),
            da@.represents(key_set(keys@)),
    {
        let ghost given = views(keys@);
        let mut keys = keys;
        sort_keys(&mut keys);
        proof {
            lemma_permutation_key_set(views(keys@), given);
            lemma_list_has_bound(views(keys@));
        }
        let mut da = Self { base: Vec::new(), check: Vec::new() };
        da.expand();
        da.expand();
        assert(da@.base =~= Slots::blank(512).base);
        assert(da@.check =~= Slots::blank(512).check);
        proof {
            let all = views(keys@);
            assert forall|i: int| 0 <= i < all.len() implies Seq::<u8>::empty().is_prefix_of(
                #[trigger] all[i],
            ) by {
                assert(Seq::<u8>::empty() =~= all[i].subrange(0, 0));
            }
        }
        da.add(ROOT, 0, keys.len(), 0, &keys, Ghost(Seq::empty()));
        proof {
            assert(da@ == untrimmed(key_set(keys@)));
            assert(da.check@.len() <= usize::MAX);
            lemma_layout(key_set(keys@));
        }
        da.trim();
        da
    }

    /// The number of slots.
    pub fn len(&self) -> (n: usize)
        ensures
            n == self@.check.len(),
    {
        self.check.len()
    }

    /// Whether there is no slot at all, which is so where no key has a byte.
    pub fn is_empty(&self) -> (r: bool)
        ensures
            r == (self@.check.len() == 0),
    {
        self.len() == 0
    }

    /// Whether the trie has a path from the root along `key`. A path need not
    /// end at the end of a key: every prefix of a key has one.
    pub fn contain(&self, key: &[CharType]) -> (found: bool)
        ensures
            found == self@.accepts(key@),
    {
        let mut cur: usize = ROOT;
        let mut i: usize = 0;
        assert(key@.take(0) =~= Seq::<u8>::empty());
        while i < key.len()
            invariant
                i <= key.len(),
                self@.walk(key@.take(i as int)) == Some(cur as int),
            decreases key.len() - i,
        {
            proof {
                assert(key@.take(i + 1).drop_last() =~= key@.take(i as int));
                assert(key@.take(i + 1).last() == key@[i as int]);
            }
            match self.next(cur, key[i]) {
                Some(next) => {
                    cur = next;
                },
                None => {
                    proof {
                        lemma_walk_stuck(self@, key@, i + 1);
                    }
                    return false;
                },
            }
            i = i + 1;
        }
        assert(key@.take(i as int) =~= key@);
        true
    }

    /// The slot that the edge with label `c` leads to from `parent`.
    fn next(&self, parent: usize, c: CharType) -> (r: Option<usize>)
        ensures
            match r {
                Some(i) => self@.child(parent as int, c) == Some(i as int),
                None => self@.child(parent as int, c) is None,
            },
    {
        if parent < self.base.len() {
            match self.base[parent] {
                Some(base) => {
                    if base < self.check.len() && (c as usize) < self.check.len() - base {
                        match self.check[base + c as usize] {
                            Some(check) => {
                                if check == parent {
                                    return Some(base + c as usize);
                                }
                            },
                            None => {},
                        }
                    }
                },
                None => {},
            }
        }
        None
    }

    /// Appends one block of empty slots to both arrays and returns the index
    /// of its first slot.
    fn expand(&mut self) -> (first: usize)
        requires
            old(self).base.len() == old(self).check.len(),
        ensures
            final(self)@ == old(self)@.grown(),
            first == old(self).check.len(),
    {
        let mut i: usize = 0;
        while i < CHAR_SIZE
            invariant
                i <= CHAR_SIZE,
                self.base@ =~= old(self).base@ + Seq::new(i as nat, |k: int| None::<usize>),
                self.check@ =~= old(self).check@ + Seq::new(i as nat, |k: int| None::<usize>),
            decreases CHAR_SIZE - i,
        {
            self.base.push(None);
            self.check.push(None);
            i = i + 1;
        }
        self.base.len() - CHAR_SIZE
    }

    /// Cuts both arrays after the last slot in use.
    fn trim(&mut self)
        requires
            old(self).base.len() == old(self).check.len(),
        ensures
            final(self)@ == old(self)@.trimmed(),
    {
        let mut num_used: usize = self.check.len();
        assert(self.check@.take(num_used as int) =~= self.check@);
        while num_used > 0 && self.check[num_used - 1].is_none()
            invariant
                num_used <= self.check.len(),
                extent(self.check@.take(num_used as int)) == extent(self.check@),
            decreases num_used,
        {
            assert(self.check@.take(num_used as int).drop_last() =~= self.check@.take(
                num_used - 1,
            ));
            num_used = num_used - 1;
        }
        assert(extent(self.check@) == num_used);
        self.base.resize(num_used, None);
        self.check.resize(num_used, None);
    }

    /// The number of slots in use.
    pub fn num_used(&self) -> (n: usize)
        ensures
            n == self@.used(),
    {
        let mut n: usize = 0;
        let mut i: usize = 0;
        while i < self.check.len()
            invariant
                i <= self.check.len(),
                n <= i,
                n == used_below(self.check@, i as nat),
            decreases self.check.len() - i,
        {
            if self.check[i].is_some() {
                n = n + 1;
            }
            i = i + 1;
        }
        n
    }

    /// Appends to `keys` the strings of the leaves below `cur`, each after
    /// `pref`, along paths of at most `room` edges.
    fn enum_keys_rec(
        &self,
        keys: &mut Vec<Vec<CharType>>,
        pref: Vec<CharType>,
        cur: usize,
        room: usize,
    )
        ensures
            views(final(keys)@) == views(old(keys)@) + self@.leaves(
                cur as int,
                pref@,
                room as nat,
            ),
        decreases room,
    {
        let ghost start = views(keys@);
        let leaf: bool = if cur < self.base.len() {
            self.base[cur].is_none()
        } else {
            true
        };
        if leaf {
            keys.push(pref);
            assert(views(keys@) =~= start + seq![pref@]);
            return ;
        }
        if room == 0 {
            assert(views(keys@) =~= start + Seq::<Seq<u8>>::empty());
            return ;
        }
        let ghost all = self@.leaves_from(cur as int, pref@, room as nat, 0);
        let ghost mut done = Seq::<Seq<u8>>::empty();
        let mut c: usize = 0;
        assert(views(keys@) =~= start + done);
        assert(done + all =~= all);
        while c < CHAR_SIZE
            invariant
                c <= CHAR_SIZE,
                room > 0,
                views(keys@) == start + done,
                done + self@.leaves_from(cur as int, pref@, room as nat, c as int) == all,
            decreases CHAR_SIZE - c,
        {
            let ghost rest = self@.leaves_from(cur as int, pref@, room as nat, c + 1);
            match self.next(cur, c as CharType) {
                Some(next) => {
                    let mut pref_next = pref.clone();
                    pref_next.push(c as CharType);
                    assert(pref_next@ =~= pref@.push(c as u8));
                    self.enum_keys_rec(keys, pref_next, next, room - 1);
                    proof {
                        let below = self@.leaves(next as int, pref@.push(c as u8), (room - 1) as nat);
                        assert(views(keys@) =~= start + (done + below));
                        assert((done + below) + rest =~= done + (below + rest));
                        done = done + below;
                    }
                },
                None => {
                    proof {
                        assert(done + rest =~= done + (Seq::<Seq<u8>>::empty() + rest));
                    }
                },
            }
            c = c + 1;
        }
        assert(done + Seq::<Seq<u8>>::empty() =~= done);
    }

    /// The strings of all leaves of the trie, in ascending order. For a
    /// double array that was built, these are the keys that are not a proper
    /// prefix of another key. A path of more edges than there are slots is
    /// not followed; only arrays whose root has a parent have such a path.
    pub fn enum_keys(&self) -> (keys: Vec<Vec<CharType>>)
        ensures
            views(keys@) == self@.enumeration(),
            strictly_sorted(views(keys@)),
            rooted(self@) ==> forall|q: Seq<u8>|
                #![trigger views(keys@).contains(q)]
                views(keys@).contains(q) <==> self@.leaf_at(q),
    {
        let mut keys: Vec<Vec<CharType>> = Vec::new();
        assert(views(keys@) =~= Seq::<Seq<u8>>::empty());
        self.enum_keys_rec(&mut keys, Vec::new(), ROOT, self.check.len());
        proof {
            assert(Seq::<Seq<u8>>::empty() + self@.enumeration() =~= self@.enumeration());
            lemma_enumeration_ascends(self@);
            if rooted(self@) {
                assert forall|q: Seq<u8>| #![trigger views(keys@).contains(q)]
                    views(keys@).contains(q) <==> self@.leaf_at(q) by {
                    lemma_enumeration(self@, q);
                }
            }
        }
        keys
    }

    /// Finds the first base at which the slots of all the given labels are
    /// free. Returns `None` if there is none below the last block.
    fn find_base(&self, chars: &[CharType]) -> (r: Option<usize>)
        ensures
            match r {
                Some(b) => self@.first_fit(chars@.to_set(), b as int),
                None => !self@.has_fit(chars@.to_set()),
            },
    {
        let ghost ls = chars@.to_set();
        if self.check.len() < CHAR_SIZE {
            return None;
        }
        let limit: usize = self.check.len() - CHAR_SIZE;
        let mut i: usize = 1;
        while i < limit
            invariant
                1 <= i,
                limit == self.check.len() - CHAR_SIZE,
                ls == chars@.to_set(),
                forall|b: int| 1 <= b < i ==> !self@.fits(ls, b),
            decreases limit - i,
        {
            let mut j: usize = 0;
            while j < chars.len() && self.check[i + chars[j] as usize].is_none()
                invariant
                    j <= chars.len(),
                    i < limit,
                    limit == self.check.len() - CHAR_SIZE,
                    forall|k: int| 0 <= k < j ==> self.check@[i + chars@[k]] is None,
                decreases chars.len() - j,
            {
                j = j + 1;
            }
            if j == chars.len() {
                assert forall|c: u8| ls.contains(c) implies self@.check[i + c] is None by {
                    let k = choose|k: int| 0 <= k < chars@.len() && chars@[k] == c;
                    assert(self.check@[i + chars@[k]] is None);
                }
                return Some(i);
            }
            assert(ls.contains(chars@[j as int]));
            i = i + 1;
        }
        assert forall|b: int| !self@.fits(ls, b) by {
            if 1 <= b < self.check.len() - 256 {
                assert(b < i);
            }
        }
        None
    }

    /// Gives the node at `parent` the base `base`, and marks the slot of
    /// each of its labels as a child of `parent`.
    fn set_base_check(&mut self, parent: usize, base: usize, chars: &[u8])
        requires
            old(self).base.len() == old(self).check.len(),
            parent < old(self).base.len(),
            base + 256 <= old(self).check.len(),
        ensures
            final(self)@ == old(self)@.with_node(parent as int, base as int, chars@.to_set()),
    {
        self.base[parent] = Some(base);
        let mut j: usize = 0;
        while j < chars.len()
            invariant
                j <= chars.len(),
                base + 256 <= self.check.len(),
                self.base@ == old(self).base@.update(parent as int, Some(base)),
                self.check.len() == old(self).check.len(),
                forall|i: int|
                    0 <= i < self.check.len() ==> #[trigger] self.check@[i] == if base <= i < base
                        + 256 && chars@.take(j as int).contains((i - base) as u8) {
                        Some(parent)
                    } else {
                        old(self).check@[i]
                    },
            decreases chars.len() - j,
        {
            let ghost before = self.check@;
            let c: u8 = chars[j];
            self.check[base + c as usize] = Some(parent);
            proof {
                let done = chars@.take(j as int);
                let next = chars@.take(j + 1);
                assert(next =~= done.push(c));
                assert forall|i: int| 0 <= i < self.check.len() implies #[trigger] self.check@[i]
                    == if base <= i < base + 256 && next.contains((i - base) as u8) {
                    Some(parent)
                } else {
                    old(self).check@[i]
                } by {
                    let x = (i - base) as u8;
                    if base <= i < base + 256 {
                        if done.contains(x) {
                            let k = choose|k: int| 0 <= k < done.len() && done[k] == x;
                            assert(next[k] == x);
                        }
                        if i == base + c {
                            assert(next[j as int] == x);
                        }
                        if next.contains(x) {
                            let k = choose|k: int| 0 <= k < next.len() && next[k] == x;
                            if k < j {
                                assert(done[k] == x);
                            }
                        }
                    }
                }
            }
            j = j + 1;
        }
        proof {
            assert(chars@.take(j as int) =~= chars@);
            let want = old(self)@.with_node(parent as int, base as int, chars@.to_set());
            assert(self@.check =~= want.check);
            assert(self@.base =~= want.base);
        }
    }

    /// Places the subtree of the node at `parent`, whose string `p` has
    /// length `char_idx`, where `keys[key_beg..key_end]` are the keys that
    /// start with `p`.
    fn add(
        &mut self,
        parent: usize,
        key_beg: usize,
        key_end: usize,
        char_idx: usize,
        keys: &Vec<Vec<u8>>,
        Ghost(p): Ghost<Seq<u8>>,
    )
        requires
            old(self).base.len() == old(self).check.len(),
            parent < old(self).base.len(),
            sorted(views(keys@)),
            covers(views(keys@), key_beg as int, key_end as int, p),
            p.len() == char_idx,
            has_bound(key_set(keys@)),
        ensures
            final(self)@ == place(old(self)@, key_set(keys@), p, parent as int),
            final(self).base.len() == final(self).check.len(),
            final(self).base.len() >= old(self).base.len(),
        decreases depth_bound(key_set(keys@)) - char_idx,
    {
        let ghost ks = key_set(keys@);
        let ghost all = views(keys@);
        let ghost ls = labels(ks, p);
        let ghost target = place(self@, ks, p, parent as int);
        let (children, chars) = child_runs(keys, key_beg, key_end, char_idx, Ghost(p));
        if chars.len() == 0 {
            assert(ls =~= Set::empty()) by {
                assert forall|c: u8| !ls.contains(c) by {
                    assert(!chars@.contains(c));
                }
            }
            return ;
        }
        proof {
            assert(chars@.contains(chars@[0]));
            assert(ls.contains(chars@[0]));
            assert(ls =~= chars@.to_set());
        }
        let base: usize = match self.find_base(chars.as_slice()) {
            Some(pos) => {
                proof {
                    let b = self@.chosen_base(ls);
                    assert(self@.fits(ls, pos as int));
                    assert(self@.first_fit(ls, b));
                }
                pos
            },
            None => self.expand(),
        };
        assert(base == old(self)@.chosen_base(ls));
        assert(self@ == old(self)@.with_room(ls));
        self.set_base_check(parent, base, chars.as_slice());
        proof {
            assert(target == place_children(self@, ks, p, base as int, 0));
            lemma_no_label_between(chars@, 0);
            lemma_skip_unlabelled(self@, ks, p, base as int, 0, label_from(chars@, 0));
        }
        let mut i: usize = 0;
        while i < children.len()
            invariant
                i <= children.len(),
                children.len() == chars.len(),
                ks == key_set(keys@),
                all == views(keys@),
                ls == labels(ks, p),
                ls == chars@.to_set(),
                has_bound(ks),
                sorted(all),
                ascending(chars@),
                p.len() == char_idx,
                forall|j: int|
                    0 <= j < chars.len() ==> (#[trigger] children[j]).0 < children[j].1 && covers(
                        all,
                        children[j].0 as int,
                        children[j].1 as int,
                        p.push(chars[j]),
                    ),
                self.base.len() == self.check.len(),
                self.base.len() >= old(self).base.len(),
                base + 256 <= self.check.len(),
                place_children(self@, ks, p, base as int, label_from(chars@, i as int)) == target,
            decreases children.len() - i,
        {
            let c: u8 = chars[i];
            let child: usize = base + c as usize;
            let (kb, ke) = children[i];
            proof {
                assert(chars@.contains(chars@[i as int]));
                assert(ls.contains(c));
                lemma_label_depth(ks, p, c);
                assert(covers(all, children[i as int].0 as int, children[i as int].1 as int, p.push(c)));
                assert(p.push(c).is_prefix_of(all[kb as int]));
                lemma_prefix_push(p, c, all[kb as int]);
                assert(char_idx < keys@[kb as int].len());
            }
            let ghost before = self@;
            self.add(child, kb, ke, char_idx + 1, keys, Ghost(p.push(c)));
            proof {
                let nxt = label_from(chars@, i + 1);
                assert(place_children(before, ks, p, base as int, c as int) == place_children(
                    self@,
                    ks,
                    p,
                    base as int,
                    c + 1,
                ));
                lemma_no_label_between(chars@, i + 1);
                lemma_skip_unlabelled(self@, ks, p, base as int, c + 1, nxt);
            }
            i = i + 1;
        }
    }
}

} // verus!
