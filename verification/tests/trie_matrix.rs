use lupid::trie_matrix::TrieMatrix;

fn words(list: &[&str]) -> Vec<Vec<u8>> {
    list.iter().map(|w| w.as_bytes().to_vec()).collect()
}

#[test]
fn matrix_of_no_keys_is_a_root() {
    let tm = TrieMatrix::build(vec![]);
    assert_eq!(tm.rows(), &vec![Vec::<(u8, usize)>::new()]);
    assert!(tm.contain(b""));
    assert!(!tm.contain(b"a"));
}

#[test]
fn matrix_of_one_key() {
    let tm = TrieMatrix::build(words(&["a"]));
    assert_eq!(tm.rows(), &vec![vec![(b'a', 1usize)], vec![]]);
    assert!(tm.contain(b"a"));
    assert!(!tm.contain(b"ab"));
}

#[test]
fn matrix_walks_every_prefix() {
    let tm = TrieMatrix::build(words(&["ab", "ac"]));
    assert!(tm.contain(b"ab"));
    assert!(tm.contain(b"ac"));
    assert!(tm.contain(b"a"));
    assert!(!tm.contain(b"b"));
    assert!(!tm.contain(b"abc"));
    assert_eq!(
        tm.rows(),
        &vec![vec![(b'a', 1usize)], vec![(b'b', 2usize), (b'c', 3usize)], vec![], vec![]]
    );
}

#[test]
fn nodes_are_numbered_depth_first() {
    let tm = TrieMatrix::build(words(&["b", "ab"]));
    assert_eq!(
        tm.rows(),
        &vec![vec![(b'a', 1usize), (b'b', 3usize)], vec![(b'b', 2usize)], vec![], vec![]]
    );
}

#[test]
fn matrix_ignores_order_and_repetition() {
    let one = TrieMatrix::build(words(&["a", "ab", "b"]));
    let two = TrieMatrix::build(words(&["b", "ab", "a", "ab"]));
    assert_eq!(one.rows(), two.rows());
}
