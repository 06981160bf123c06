use lupid::double_array::DoubleArray;
use lupid::trie_matrix::TrieMatrix;
use std::collections::BTreeMap;
use std::collections::BTreeSet;

/// A list of lower-case words of 3 to 9 letters, the same on every run.
fn word_list(count: usize) -> Vec<Vec<u8>> {
    let mut state: u64 = 0x2545_f491_4f6c_dd1d;
    let mut words = Vec::new();
    while words.len() < count {
        state = state.wrapping_mul(6364136223846793005).wrapping_add(1442695040888963407);
        let len = 3 + ((state >> 33) % 7) as usize;
        let mut word = Vec::new();
        let mut bits = state >> 8;
        for _ in 0..len {
            word.push(b'a' + (bits % 26) as u8);
            bits /= 26;
        }
        words.push(word);
    }
    words
}

fn with_suffix(word: &[u8]) -> Vec<u8> {
    let mut long = word.to_vec();
    long.extend_from_slice(b"hogehoge");
    long
}

#[test]
fn thousand_words_are_contained() {
    let words = word_list(1000);
    let da = DoubleArray::build(words.clone());
    let tm = TrieMatrix::build(words.clone());
    for word in &words {
        assert!(da.contain(word));
        assert!(tm.contain(word));
        let long = with_suffix(word);
        assert!(!da.contain(&long));
        assert!(!tm.contain(&long));
    }
    assert!(da.num_used() <= da.len());
    assert!(da.check[da.len() - 1].is_some());
}

#[test]
fn double_array_and_matrix_agree_on_every_query() {
    let words = word_list(300);
    let da = DoubleArray::build(words.clone());
    let tm = TrieMatrix::build(words.clone());
    let mut queries = word_list(600);
    for word in &words {
        for cut in 0..=word.len() {
            queries.push(word[..cut].to_vec());
        }
        let mut other = word.clone();
        other.push(b'z');
        queries.push(other);
    }
    let prefixes: BTreeSet<Vec<u8>> =
        words.iter().flat_map(|w| (0..=w.len()).map(move |n| w[..n].to_vec())).collect();
    for q in &queries {
        assert_eq!(da.contain(q), tm.contain(q));
        assert_eq!(da.contain(q), prefixes.contains(q));
    }
}

#[test]
fn enumeration_holds_the_keys_that_no_key_extends() {
    let words = word_list(500);
    let da = DoubleArray::build(words.clone());
    let listed = da.enum_keys();
    let set: BTreeSet<Vec<u8>> = words.iter().cloned().collect();
    let mut expected: Vec<Vec<u8>> = set
        .iter()
        .filter(|w| !set.iter().any(|k| k.len() > w.len() && k.starts_with(w)))
        .cloned()
        .collect();
    expected.sort();
    assert_eq!(listed, expected);
}

#[test]
fn each_used_slot_has_one_parent_and_one_label() {
    let da = DoubleArray::build(word_list(400));
    let mut children = BTreeSet::new();
    for (i, entry) in da.check.iter().enumerate() {
        if let Some(p) = entry {
            let b = da.base[*p].unwrap();
            assert!(b <= i && i - b < 256);
            assert!(children.insert((*p, i - b)));
        }
    }
    assert_eq!(children.len(), da.num_used());
}

#[test]
fn stored_and_loaded_arrays_enumerate_the_same_keys() {
    let da = DoubleArray::build(word_list(200));
    let mut document = BTreeMap::new();
    document.insert("base", &da.base);
    document.insert("check", &da.check);
    let text = serde_json::to_string(&document).unwrap();
    assert!(text.starts_with("{\"base\":[1,"));
    let mut loaded: BTreeMap<String, Vec<Option<usize>>> = serde_json::from_str(&text).unwrap();
    let copy = DoubleArray {
        base: loaded.remove("base").unwrap(),
        check: loaded.remove("check").unwrap(),
    };
    assert_eq!(copy.base, da.base);
    assert_eq!(copy.check, da.check);
    assert_eq!(copy.enum_keys(), da.enum_keys());
    let again: BTreeMap<&str, &Vec<Option<usize>>> =
        [("base", &copy.base), ("check", &copy.check)].into_iter().collect();
    assert_eq!(serde_json::to_string(&again).unwrap(), text);
    for word in word_list(200) {
        assert!(copy.contain(&word));
    }
}
