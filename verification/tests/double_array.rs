use lupid::double_array::DoubleArray;

fn keys(words: &[&str]) -> Vec<Vec<u8>> {
    words.iter().map(|w| w.as_bytes().to_vec()).collect()
}

#[test]
fn empty_key_set_has_no_slots() {
    let da = DoubleArray::build(vec![]);
    assert_eq!(da.len(), 0);
    assert!(da.is_empty());
    assert_eq!(da.base.len(), 0);
    assert_eq!(da.num_used(), 0);
    assert!(da.contain(b""));
    assert!(!da.contain(b"a"));
}

#[test]
fn single_key_is_placed_at_the_first_base() {
    let da = DoubleArray::build(keys(&["a"]));
    assert_eq!(da.base[0], Some(1));
    assert_eq!(da.check[1 + 0x61], Some(0));
    assert_eq!(da.len(), 1 + 0x61 + 1);
    assert_eq!(da.base.len(), da.check.len());
    assert_eq!(da.num_used(), 1);
    assert!(!da.is_empty());
    assert!(da.contain(b"a"));
    assert!(da.contain(b""));
    assert!(!da.contain(b"ab"));
    assert!(!da.contain(b"b"));
}

#[test]
fn one_spine_of_two_edges() {
    let da = DoubleArray::build(keys(&["a", "ab"]));
    assert!(da.contain(b"a"));
    assert!(da.contain(b"ab"));
    assert!(!da.contain(b"b"));
    assert!(!da.contain(b"abb"));
    assert_eq!(da.num_used(), 2);
    assert_eq!(da.enum_keys(), keys(&["ab"]));
}

#[test]
fn two_keys_share_their_first_edge() {
    let da = DoubleArray::build(keys(&["ab", "ac"]));
    assert!(da.contain(b"ab"));
    assert!(da.contain(b"ac"));
    assert!(da.contain(b"a"));
    assert!(!da.contain(b"ad"));
    assert!(!da.contain(b"b"));
    assert_eq!(da.num_used(), 3);
    // root at base 1: 'a' sits at 1 + 0x61 = 98; that node takes the next
    // base at which both 'b' and 'c' are free, which is 1 again.
    assert_eq!(da.base[0], Some(1));
    assert_eq!(da.check[98], Some(0));
    assert_eq!(da.base[98], Some(1));
    assert_eq!(da.check[1 + 0x62], Some(98));
    assert_eq!(da.check[1 + 0x63], Some(98));
    assert_eq!(da.len(), 101);
    assert_eq!(da.enum_keys(), keys(&["ab", "ac"]));
}

#[test]
fn order_and_repetition_of_keys_do_not_matter() {
    let sorted = DoubleArray::build(keys(&["a", "b", "ba"]));
    let shuffled = DoubleArray::build(keys(&["ba", "b", "a", "b", "ba"]));
    assert_eq!(sorted.base, shuffled.base);
    assert_eq!(sorted.check, shuffled.check);
    assert_eq!(shuffled.num_used(), 3);
    assert!(shuffled.contain(b"ba"));
    assert!(!shuffled.contain(b"ab"));
}

#[test]
fn two_builds_give_the_same_arrays() {
    let words = keys(&["tea", "ten", "to", "inn", "in", "i"]);
    let first = DoubleArray::build(words.clone());
    let second = DoubleArray::build(words);
    assert_eq!(first.base, second.base);
    assert_eq!(first.check, second.check);
}

#[test]
fn the_empty_key_alone_leaves_no_slot() {
    let da = DoubleArray::build(vec![vec![]]);
    assert_eq!(da.len(), 0);
    assert!(da.contain(b""));
    assert!(!da.contain(b"x"));
    assert_eq!(da.enum_keys(), vec![Vec::<u8>::new()]);
}

#[test]
fn enumeration_of_no_keys_is_the_empty_string() {
    let da = DoubleArray::build(vec![]);
    assert_eq!(da.enum_keys(), vec![Vec::<u8>::new()]);
}

#[test]
fn enumeration_lists_the_keys_that_no_key_extends() {
    let da = DoubleArray::build(keys(&["to", "tea", "ten", "te", "i", "inn"]));
    assert_eq!(da.enum_keys(), keys(&["inn", "tea", "ten", "to"]));
}

#[test]
fn every_used_slot_is_a_child_of_its_parent() {
    let da = DoubleArray::build(keys(&["banana", "band", "bar", "car", "cat"]));
    let n = da.len();
    assert_eq!(da.base.len(), n);
    assert!(da.check[n - 1].is_some());
    assert!(da.check[0].is_none());
    for i in 0..n {
        if let Some(p) = da.check[i] {
            let b = da.base[p].unwrap();
            assert!(b >= 1);
            assert!(b <= i && i < b + 256);
        }
    }
    let used = da.check.iter().filter(|x| x.is_some()).count();
    assert_eq!(da.num_used(), used);
    // one slot for each prefix of a key but the empty one: six of "banana",
    // then "band", "bar", three of "car", and "cat"
    assert_eq!(used, 12);
}

#[test]
fn a_node_is_placed_at_the_first_base_that_is_free() {
    // "a" puts the root at base 1, with 'a' at slot 98. The node of "a" has
    // the label 'a' too; base 1 is taken for it, base 2 is free.
    let da = DoubleArray::build(keys(&["aa"]));
    assert_eq!(da.base[0], Some(1));
    assert_eq!(da.check[98], Some(0));
    assert_eq!(da.base[98], Some(2));
    assert_eq!(da.check[99], Some(98));
    assert_eq!(da.len(), 100);
}

#[test]
fn a_label_of_255_makes_the_arrays_grow() {
    // The scan for a base stops before the last block, so the lowest and the
    // highest byte together still fit into the first two blocks.
    let da = DoubleArray::build(vec![vec![0u8], vec![255u8]]);
    assert_eq!(da.base[0], Some(1));
    assert_eq!(da.check[1], Some(0));
    assert_eq!(da.check[256], Some(0));
    assert_eq!(da.len(), 257);
    assert!(da.contain(&[0u8]));
    assert!(da.contain(&[255u8]));
    assert!(!da.contain(&[1u8]));
}

#[test]
fn arrays_that_were_not_built_are_walked_without_fault() {
    let da = DoubleArray { base: vec![Some(usize::MAX)], check: vec![None] };
    assert!(da.contain(b""));
    assert!(!da.contain(b"a"));
    assert_eq!(da.enum_keys(), Vec::<Vec<u8>>::new());
    let da = DoubleArray { base: vec![Some(5)], check: vec![] };
    assert!(!da.contain(b"a"));
    assert_eq!(da.num_used(), 0);
    assert!(da.is_empty());
}

#[test]
fn a_loop_among_the_slots_ends_the_enumeration() {
    // slot 1 names itself as parent through the label 0
    let da = DoubleArray { base: vec![Some(1), Some(1)], check: vec![None, Some(1)] };
    assert!(!da.contain(&[0u8]));
    assert_eq!(da.enum_keys(), Vec::<Vec<u8>>::new());
}
