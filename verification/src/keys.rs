//! Byte-string keys: prefixes, key sets, the lexicographic order, and the
//! partition of a sorted range of keys by the byte at one position.

use vstd::prelude::*;

verus! {

/// The keys of a list, each as a sequence of bytes.
pub open spec fn views(keys: Seq<Vec<u8>>) -> Seq<Seq<u8>> {
    keys.map_values(|k: Vec<u8>| k@)
}

/// The set of keys that a list holds; order and repetition do not count.
pub open spec fn key_set(keys: Seq<Vec<u8>>) -> Set<Seq<u8>> {
    views(keys).to_set()
}

/// `p` is a prefix of at least one key of `ks`.
pub open spec fn in_closure(ks: Set<Seq<u8>>, p: Seq<u8>) -> bool {
    exists|k: Seq<u8>| #[trigger] ks.contains(k) && p.is_prefix_of(k)
}

/// The strings that a trie over `ks` can walk: the empty string and every
/// prefix of a key.
pub open spec fn walkable(ks: Set<Seq<u8>>, q: Seq<u8>) -> bool {
    q.len() == 0 || in_closure(ks, q)
}

/// The bytes by which the trie node of `p` branches.
pub open spec fn labels(ks: Set<Seq<u8>>, p: Seq<u8>) -> Set<u8> {
    Set::new(|c: u8| in_closure(ks, p.push(c)))
}

/// No key of `ks` is longer than `h`.
pub open spec fn bounded(ks: Set<Seq<u8>>, h: nat) -> bool {
    forall|k: Seq<u8>| #[trigger] ks.contains(k) ==> k.len() <= h
}

/// The keys of `ks` have a common bound on their length.
pub open spec fn has_bound(ks: Set<Seq<u8>>) -> bool {
    exists|h: nat| bounded(ks, h)
}

/// Some bound on the length of the keys of `ks`, where there is one.
pub open spec fn depth_bound(ks: Set<Seq<u8>>) -> nat {
    choose|h: nat| bounded(ks, h)
}

/// `a` and `b` agree before position `i`, where `a` has the smaller byte.
pub open spec fn below_at(a: Seq<u8>, b: Seq<u8>, i: int) -> bool {
    &&& 0 <= i < a.len()
    &&& i < b.len()
    &&& a.subrange(0, i) =~= b.subrange(0, i)
    &&& a[i] < b[i]
}

/// `a` comes no later than `b` in the lexicographic order by unsigned byte
/// value: `a` is a prefix of `b`, or the first byte in which they differ is
/// smaller in `a`.
pub open spec fn lex_le(a: Seq<u8>, b: Seq<u8>) -> bool {
    a.is_prefix_of(b) || exists|i: int| below_at(a, b, i)
}

/// The list ascends strictly in the lexicographic order, so it holds no
/// string twice.
pub open spec fn strictly_sorted(ks: Seq<Seq<u8>>) -> bool {
    forall|i: int, j: int|
        0 <= i < j < ks.len() ==> lex_le(#[trigger] ks[i], #[trigger] ks[j]) && ks[i] != ks[j]
}

/// The list ascends in the lexicographic order.
pub open spec fn sorted(ks: Seq<Seq<u8>>) -> bool {
    forall|i: int, j: int| 0 <= i <= j < ks.len() ==> lex_le(#[trigger] ks[i], #[trigger] ks[j])
}

/// The keys at `beg..end` are exactly the keys of the list that start with `p`.
pub open spec fn covers(ks: Seq<Seq<u8>>, beg: int, end: int, p: Seq<u8>) -> bool {
    &&& 0 <= beg <= end <= ks.len()
    &&& forall|i: int|
        0 <= i < ks.len() ==> ((beg <= i < end) <==> p.is_prefix_of(#[trigger] ks[i]))
}

/// The bytes of `cs` ascend strictly.
pub open spec fn ascending(cs: Seq<u8>) -> bool {
    forall|i: int, j: int| 0 <= i < j < cs.len() ==> cs[i] < cs[j]
}

/// The label that a loop over the ascending labels of a node turns to at
/// step `i`: the `i`-th label, or 256 when none is left.
pub open spec fn label_from(chars: Seq<u8>, i: int) -> int {
    if 0 <= i < chars.len() {
        chars[i] as int
    } else {
        256
    }
}

/// No byte between two neighbours of an ascending list is in the list, nor
/// one before its first or after its last.
pub proof fn lemma_no_label_between(chars: Seq<u8>, i: int)
    requires
        ascending(chars),
        0 <= i <= chars.len(),
    ensures
        forall|x: u8|
            (if i == 0 {
                0
            } else {
                chars[i - 1] + 1
            }) <= x < label_from(chars, i) ==> !chars.to_set().contains(x),
{
    assert forall|x: u8|
        (if i == 0 {
            0
        } else {
            chars[i - 1] + 1
        }) <= x < label_from(chars, i) implies !chars.to_set().contains(x) by {
        if chars.contains(x) {
            let k = choose|k: int| 0 <= k < chars.len() && chars[k] == x;
            if k < i {
                assert(k < i - 1 ==> chars[k] < chars[i - 1]);
            } else {
                assert(i < k ==> chars[i] < chars[k]);
            }
        }
    }
}

/// A key starts with `p` followed by `c` exactly if it starts with `p`, is
/// longer than `p`, and has `c` at the next position.
pub proof fn lemma_prefix_push(p: Seq<u8>, c: u8, k: Seq<u8>)
    ensures
        p.push(c).is_prefix_of(k) <==> (p.is_prefix_of(k) && k.len() > p.len() && k[p.len() as int]
            == c),
{
    let n = p.len() as int;
    if p.push(c).is_prefix_of(k) {
        let q = k.subrange(0, n + 1);
        assert(p.push(c) =~= q);
        assert(q[n] == c);
        assert forall|i: int| 0 <= i < n implies p[i] == k[i] by {
            assert(p.push(c)[i] == q[i]);
        }
        assert(p =~= k.subrange(0, n));
    }
    if p.is_prefix_of(k) && k.len() > n && k[n] == c {
        assert(p =~= k.subrange(0, n));
        assert forall|i: int| 0 <= i < n + 1 implies p.push(c)[i] == k.subrange(0, n + 1)[i] by {
            if i < n {
                assert(p[i] == k.subrange(0, n)[i]);
            }
        }
        assert(p.push(c) =~= k.subrange(0, n + 1));
    }
}

/// A prefix of a prefix is a prefix.
pub proof fn lemma_prefix_trans(a: Seq<u8>, b: Seq<u8>, c: Seq<u8>)
    requires
        a.is_prefix_of(b),
        b.is_prefix_of(c),
    ensures
        a.is_prefix_of(c),
{
    assert(a =~= b.subrange(0, a.len() as int));
    assert(b =~= c.subrange(0, b.len() as int));
    assert forall|i: int| 0 <= i < a.len() implies a[i] == c[i] by {
        assert(a[i] == b.subrange(0, a.len() as int)[i]);
        assert(b[i] == c.subrange(0, b.len() as int)[i]);
    }
    assert(a =~= c.subrange(0, a.len() as int));
}

/// Every prefix of a walkable string is walkable.
pub proof fn lemma_walkable_drop_last(ks: Set<Seq<u8>>, q: Seq<u8>)
    requires
        q.len() > 0,
        walkable(ks, q),
    ensures
        walkable(ks, q.drop_last()),
        labels(ks, q.drop_last()).contains(q.last()),
{
    let k = choose|k: Seq<u8>| #[trigger] ks.contains(k) && q.is_prefix_of(k);
    assert(q.drop_last().push(q.last()) =~= q);
    lemma_prefix_push(q.drop_last(), q.last(), k);
}

/// A node branches only below the length bound of its keys.
pub proof fn lemma_label_depth(ks: Set<Seq<u8>>, p: Seq<u8>, c: u8)
    requires
        has_bound(ks),
        labels(ks, p).contains(c),
    ensures
        p.len() < depth_bound(ks),
{
    let h = depth_bound(ks);
    assert(bounded(ks, h));
    let k = choose|k: Seq<u8>| #[trigger] ks.contains(k) && p.push(c).is_prefix_of(k);
    assert(k.len() <= h);
}

/// The keys of a list have a common bound on their length.
pub proof fn lemma_list_has_bound(ks: Seq<Seq<u8>>)
    ensures
        has_bound(ks.to_set()),
    decreases ks.len(),
{
    if ks.len() == 0 {
        assert(bounded(ks.to_set(), 0));
    } else {
        let front = ks.drop_last();
        lemma_list_has_bound(front);
        let h0 = choose|h: nat| bounded(front.to_set(), h);
        let h: nat = if h0 >= ks.last().len() {
            h0
        } else {
            ks.last().len()
        };
        assert forall|k: Seq<u8>| #[trigger] ks.to_set().contains(k) implies k.len() <= h by {
            let i = choose|i: int| 0 <= i < ks.len() && ks[i] == k;
            if i < ks.len() - 1 {
                assert(front[i] == k);
                assert(front.to_set().contains(k));
            }
        }
        assert(bounded(ks.to_set(), h));
    }
}

/// Two lists with the same keys, each as often in one as in the other, have
/// the same key set.
pub proof fn lemma_permutation_key_set(a: Seq<Seq<u8>>, b: Seq<Seq<u8>>)
    requires
        a.to_multiset() == b.to_multiset(),
    ensures
        a.to_set() == b.to_set(),
{
    a.to_multiset_ensures();
    b.to_multiset_ensures();
    assert forall|k: Seq<u8>| a.to_set().contains(k) <==> b.to_set().contains(k) by {
        assert(a.contains(k) <==> a.to_multiset().count(k) > 0);
        assert(b.contains(k) <==> b.to_multiset().count(k) > 0);
    }
    assert(a.to_set() =~= b.to_set());
}

/// In a sorted list, among the keys that start with `p`, the keys longer than
/// `p` come last, and their bytes after `p` ascend.
pub proof fn lemma_column_ascends(ks: Seq<Seq<u8>>, p: Seq<u8>, i: int, j: int)
    requires
        sorted(ks),
        0 <= i <= j < ks.len(),
        p.is_prefix_of(ks[i]),
        p.is_prefix_of(ks[j]),
        ks[i].len() > p.len(),
    ensures
        ks[j].len() > p.len(),
        ks[i][p.len() as int] <= ks[j][p.len() as int],
{
    let a = ks[i];
    let b = ks[j];
    let d = p.len() as int;
    assert(lex_le(a, b));
    assert(p =~= a.subrange(0, d));
    assert(p =~= b.subrange(0, d));
    if a.is_prefix_of(b) {
        assert(a =~= b.subrange(0, a.len() as int));
        assert(a[d] == b.subrange(0, a.len() as int)[d]);
    } else {
        let t = choose|t: int| below_at(a, b, t);
        if t < d {
            assert(a[t] == a.subrange(0, d)[t]);
            assert(b[t] == b.subrange(0, d)[t]);
        } else if t > d {
            assert(a[d] == a.subrange(0, t)[d]);
            assert(b[d] == b.subrange(0, t)[d]);
        }
    }
}

/// `slice::sort_unstable` on a list of byte strings. Afterwards the list holds
/// the keys it held before, each as often as before, in ascending
/// lexicographic order by unsigned byte value.
#[verifier::external_body]
pub(crate) fn sort_keys(keys: &mut Vec<Vec<u8>>)
    ensures
        sorted(views(final(keys)@)),
        views(final(keys)@).to_multiset() == views(old(keys)@).to_multiset(),
{
    keys.sort_unstable();
}

/// Splits the keys at `key_beg..key_end`, which are the keys that start with
/// `p`, by the byte that follows `p`. Returns the sub-range of each byte that
/// occurs, and those bytes, both in ascending order of the byte. Keys that end
/// with `p` belong to no sub-range.
pub(crate) fn child_runs(
    keys: &Vec<Vec<u8>>,
    key_beg: usize,
    key_end: usize,
    char_idx: usize,
    Ghost(p): Ghost<Seq<u8>>,
) -> (r: (Vec<(usize, usize)>, Vec<u8>))
    requires
        sorted(views(keys@)),
        covers(views(keys@), key_beg as int, key_end as int, p),
        p.len() == char_idx,
    ensures
        r.0.len() == r.1.len(),
        ascending(r.1@),
        forall|j: int|
            0 <= j < r.1.len() ==> (#[trigger] r.0[j]).0 < r.0[j].1 && covers(
                views(keys@),
                r.0[j].0 as int,
                r.0[j].1 as int,
                p.push(r.1[j]),
            ),
        forall|c: u8| labels(key_set(keys@), p).contains(c) <==> r.1@.contains(c),
{
    let ghost ks = views(keys@);
    let ghost d = char_idx as int;
    let mut children: Vec<(usize, usize)> = Vec::new();
    let mut chars: Vec<u8> = Vec::new();
    let mut kb: usize = key_beg;
    while kb < key_end && keys[kb].len() <= char_idx
        invariant
            ks == views(keys@),
            covers(ks, key_beg as int, key_end as int, p),
            p.len() == char_idx,
            key_beg <= kb <= key_end,
            forall|i: int| key_beg <= i < kb ==> (#[trigger] ks[i]).len() == char_idx,
        decreases key_end - kb,
    {
        assert(p.is_prefix_of(ks[kb as int]));
        kb = kb + 1;
    }
    let ghost first = kb as int;
    proof {
        assert forall|i: int| first <= i < key_end implies (#[trigger] ks[i]).len() > d by {
            assert(p.is_prefix_of(ks[first]));
            assert(p.is_prefix_of(ks[i]));
            lemma_column_ascends(ks, p, first, i);
        }
    }
    while kb < key_end
        invariant
            ks == views(keys@),
            sorted(ks),
            covers(ks, key_beg as int, key_end as int, p),
            p.len() == char_idx,
            d == char_idx,
            key_beg <= first <= kb <= key_end,
            forall|i: int| key_beg <= i < first ==> (#[trigger] ks[i]).len() == d,
            forall|i: int| first <= i < key_end ==> (#[trigger] ks[i]).len() > d,
            children.len() == chars.len(),
            ascending(chars@),
            forall|j: int|
                0 <= j < chars.len() ==> first <= (#[trigger] children[j]).0 < children[j].1 <= kb
                    && covers(ks, children[j].0 as int, children[j].1 as int, p.push(chars[j])),
            forall|j: int, i: int|
                0 <= j < chars.len() && kb <= i < key_end ==> #[trigger] chars[j] < (
                #[trigger] ks[i])[d],
            forall|i: int| first <= i < kb ==> chars@.contains((#[trigger] ks[i])[d]),
        decreases key_end - kb,
    {
        assert(ks[kb as int].len() > d);
        let c: u8 = keys[kb][char_idx];
        let mut ke: usize = kb + 1;
        assert(ks[kb as int][d] == c);
        assert forall|i: int| first <= i < key_end implies (#[trigger] keys@[i])@.len() > d by {
            assert(ks[i].len() > d);
        }
        while ke < key_end && keys[ke][char_idx] == c
            invariant
                ks == views(keys@),
                d == char_idx,
                kb < ke <= key_end <= keys.len(),
                forall|i: int| first <= i < key_end ==> (#[trigger] keys@[i])@.len() > d,
                first <= kb,
                forall|i: int| kb <= i < ke ==> (#[trigger] ks[i])[d] == c,
            decreases key_end - ke,
        {
            ke = ke + 1;
        }
        proof {
            let pc = p.push(c);
            assert forall|i: int| 0 <= i < ks.len() implies ((kb <= i < ke) <==> pc.is_prefix_of(
                #[trigger] ks[i],
            )) by {
                lemma_prefix_push(p, c, ks[i]);
                if pc.is_prefix_of(ks[i]) {
                    assert(key_beg <= i < key_end);
                    assert(first <= i);
                    if i < kb {
                        assert(chars@.contains(ks[i][d]));
                        let j = choose|j: int| 0 <= j < chars.len() && chars@[j] == ks[i][d];
                        assert(chars[j] < ks[kb as int][d]);
                    }
                    if i >= ke {
                        assert(p.is_prefix_of(ks[ke as int]));
                        assert(p.is_prefix_of(ks[kb as int]));
                        lemma_column_ascends(ks, p, kb as int, ke as int);
                        lemma_column_ascends(ks, p, ke as int, i);
                    }
                }
                if kb <= i < ke {
                    assert(p.is_prefix_of(ks[i]));
                }
            }
            assert(covers(ks, kb as int, ke as int, pc));
            assert forall|j: int, i: int|
                0 <= j < chars.len() + 1 && ke <= i < key_end implies #[trigger] chars@.push(c)[j]
                < (#[trigger] ks[i])[d] by {
                if j == chars.len() {
                    assert(p.is_prefix_of(ks[ke as int]));
                    assert(p.is_prefix_of(ks[kb as int]));
                    assert(p.is_prefix_of(ks[i]));
                    lemma_column_ascends(ks, p, kb as int, ke as int);
                    lemma_column_ascends(ks, p, ke as int, i);
                } else {
                    assert(chars[j] < ks[i][d]);
                }
            }
            assert forall|i: int| first <= i < ke implies chars@.push(c).contains(
                (#[trigger] ks[i])[d],
            ) by {
                if i < kb {
                    let j = choose|j: int| 0 <= j < chars.len() && chars@[j] == ks[i][d];
                    assert(chars@.push(c)[j] == ks[i][d]);
                } else {
                    assert(chars@.push(c)[chars.len() as int] == c);
                }
            }
            assert forall|i: int, j: int| 0 <= i < j < chars.len() + 1 implies chars@.push(c)[i]
                < chars@.push(c)[j] by {
                if j == chars.len() {
                    assert(chars[i] < ks[kb as int][d]);
                }
            }
        }
        children.push((kb, ke));
        chars.push(c);
        kb = ke;
    }
    proof {
        let kset = key_set(keys@);
        assert forall|c: u8| labels(kset, p).contains(c) <==> chars@.contains(c) by {
            let pc = p.push(c);
            if labels(kset, p).contains(c) {
                let k = choose|k: Seq<u8>| #[trigger] kset.contains(k) && pc.is_prefix_of(k);
                let i = choose|i: int| 0 <= i < ks.len() && ks[i] == k;
                lemma_prefix_push(p, c, ks[i]);
                assert(p.is_prefix_of(ks[i]));
                assert(key_beg <= i < key_end);
                assert(first <= i);
                assert(chars@.contains(ks[i][d]));
            }
            if chars@.contains(c) {
                let j = choose|j: int| 0 <= j < chars.len() && chars@[j] == c;
                let i = children[j].0 as int;
                assert(covers(ks, children[j].0 as int, children[j].1 as int, p.push(chars[j])));
                assert(pc.is_prefix_of(ks[i]));
                assert(ks.contains(ks[i]));
                assert(kset.contains(ks[i]));
            }
        }
    }
    (children, chars)
}

} // verus!
