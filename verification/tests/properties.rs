use prefix_trie::TrieMap;

#[test]
fn empty_key_update() {
    let mut trie = TrieMap::new();
    assert_eq!(trie.insert(b"", 0), None);
    assert_eq!(trie.insert(b"", 1), Some(0));
    assert_eq!(trie.get(b""), Some(&1));
    assert_eq!(trie.len(), 1);
}

#[test]
fn nested_prefixes() {
    let mut trie = TrieMap::new();
    assert_eq!(trie.insert(b"a", 1), None);
    assert_eq!(trie.insert(b"aa", 2), None);
    assert_eq!(trie.insert(b"aaa", 3), None);
    assert_eq!(trie.get(b"a"), Some(&1));
    assert_eq!(trie.get(b"aa"), Some(&2));
    assert_eq!(trie.get(b"aaa"), Some(&3));
    assert_eq!(trie.get(b"aaaa"), None);
}

#[test]
fn divergence_at_third_byte() {
    let mut trie = TrieMap::new();
    assert_eq!(trie.insert(b"cca", 7), None);
    assert_eq!(trie.insert(b"ccb", 8), None);
    assert_eq!(trie.get(b"cca"), Some(&7));
    assert_eq!(trie.get(b"ccb"), Some(&8));
    assert_eq!(trie.get(b"cc"), None);
    assert_eq!(trie.get(b"ccc"), None);
}

#[test]
fn insert_strict_prefix_of_existing() {
    let mut trie = TrieMap::new();
    assert_eq!(trie.insert(b"abc", 1), None);
    assert_eq!(trie.insert(b"ab", 2), None);
    assert_eq!(trie.get(b"ab"), Some(&2));
    assert_eq!(trie.get(b"abc"), Some(&1));
}

#[test]
fn reinsert_leaves_others_alone() {
    let mut trie = TrieMap::new();
    assert_eq!(trie.insert(b"b", 1), None);
    assert_eq!(trie.insert(b"ab", 2), None);
    assert_eq!(trie.insert(b"aab", 3), None);
    assert_eq!(trie.insert(b"b", 4), Some(1));
    assert_eq!(trie.get(b"b"), Some(&4));
    assert_eq!(trie.get(b"ab"), Some(&2));
    assert_eq!(trie.get(b"aab"), Some(&3));
    assert_eq!(trie.len(), 3);
}

#[test]
fn burst_at_first_byte() {
    let mut trie = TrieMap::new();
    assert_eq!(trie.insert(b"abc", 1), None);
    assert_eq!(trie.insert(b"xyz", 2), None);
    assert_eq!(trie.get(b"abc"), Some(&1));
    assert_eq!(trie.get(b"xyz"), Some(&2));
    assert_eq!(trie.get(b"a"), None);
    assert_eq!(trie.get(b"x"), None);
    assert_eq!(trie.len(), 2);
}

#[test]
fn burst_keeps_continuation() {
    // The old run has both a terminal value and a continuation; a burst
    // in its middle must preserve both.
    let mut trie = TrieMap::new();
    assert_eq!(trie.insert(b"abcd", 1), None);
    assert_eq!(trie.insert(b"abcdef", 2), None);
    assert_eq!(trie.insert(b"abq", 3), None);
    assert_eq!(trie.get(b"abcd"), Some(&1));
    assert_eq!(trie.get(b"abcdef"), Some(&2));
    assert_eq!(trie.get(b"abq"), Some(&3));
    assert_eq!(trie.get(b"ab"), None);
    assert_eq!(trie.get(b"abc"), None);
    assert_eq!(trie.len(), 3);
}

#[test]
fn extend_past_run() {
    let mut trie = TrieMap::new();
    assert_eq!(trie.insert(b"ab", 1), None);
    assert_eq!(trie.insert(b"abcd", 2), None);
    assert_eq!(trie.get(b"ab"), Some(&1));
    assert_eq!(trie.get(b"abcd"), Some(&2));
    assert_eq!(trie.get(b"abc"), None);
}

#[test]
fn arbitrary_binary_keys() {
    let mut trie = TrieMap::new();
    let k1: &[u8] = &[0x00, 0xff, 0x7f];
    let k2: &[u8] = &[0x00, 0xff];
    let k3: &[u8] = &[0xff];
    assert_eq!(trie.insert(k1, 10), None);
    assert_eq!(trie.insert(k2, 20), None);
    assert_eq!(trie.insert(k3, 30), None);
    assert_eq!(trie.get(k1), Some(&10));
    assert_eq!(trie.get(k2), Some(&20));
    assert_eq!(trie.get(k3), Some(&30));
    assert_eq!(trie.get(&[0x00]), None);
    assert_eq!(trie.len(), 3);
}

#[test]
fn never_inserted_absent() {
    let mut trie = TrieMap::new();
    trie.insert(b"hello", 1);
    trie.insert(b"help", 2);
    assert_eq!(trie.get(b"he"), None);
    assert_eq!(trie.get(b"hell"), None);
    assert_eq!(trie.get(b"hellooo"), None);
    assert_eq!(trie.get(b"world"), None);
    assert_eq!(trie.get(b""), None);
}

#[test]
fn insertion_order_does_not_matter() {
    let keys: [&[u8]; 6] = [b"", b"a", b"ab", b"abc", b"axe", b"b"];
    let mut forward = TrieMap::new();
    for (i, k) in keys.iter().enumerate() {
        forward.insert(k, i);
    }
    let mut backward = TrieMap::new();
    for (i, k) in keys.iter().enumerate().rev() {
        backward.insert(k, i);
    }
    for (i, k) in keys.iter().enumerate() {
        assert_eq!(forward.get(k), Some(&i));
        assert_eq!(backward.get(k), Some(&i));
    }
    assert_eq!(forward.len(), keys.len());
    assert_eq!(backward.len(), keys.len());
}

#[test]
fn long_keys() {
    let mut trie = TrieMap::new();
    let long_a: Vec<u8> = std::iter::repeat(b'a').take(1000).collect();
    let mut long_b = long_a.clone();
    long_b[500] = b'b';
    assert_eq!(trie.insert(&long_a, 1), None);
    assert_eq!(trie.insert(&long_b, 2), None);
    assert_eq!(trie.get(&long_a), Some(&1));
    assert_eq!(trie.get(&long_b), Some(&2));
    assert_eq!(trie.get(&long_a[..999]), None);
    assert_eq!(trie.len(), 2);
}

#[test]
fn many_keys_shared_prefixes() {
    let mut trie = TrieMap::new();
    let mut keys: Vec<Vec<u8>> = Vec::new();
    for a in 0u8..6 {
        for b in 0u8..6 {
            for c in 0u8..6 {
                keys.push(vec![a, b, c]);
                keys.push(vec![a, b, c, a, b, c]);
            }
        }
    }
    for (i, k) in keys.iter().enumerate() {
        assert_eq!(trie.insert(k, i), None);
    }
    assert_eq!(trie.len(), keys.len());
    for (i, k) in keys.iter().enumerate() {
        assert_eq!(trie.get(k), Some(&i));
    }
    assert_eq!(trie.get(&[0, 1]), None);
    assert_eq!(trie.get(&[9, 9, 9]), None);
}

#[test]
fn from_entries_empty() {
    let entries: Vec<(Vec<u8>, u8)> = Vec::new();
    let trie = TrieMap::from_entries(entries);
    assert!(trie.is_empty());
    assert_eq!(trie.len(), 0);
    assert_eq!(trie.get(b""), None);
}

#[test]
fn from_entries_later_wins() {
    let entries: Vec<(Vec<u8>, u32)> = vec![
        (b"a".to_vec(), 1),
        (b"b".to_vec(), 2),
        (b"a".to_vec(), 3),
    ];
    let trie = TrieMap::from_entries(entries);
    assert_eq!(trie.get(b"a"), Some(&3));
    assert_eq!(trie.get(b"b"), Some(&2));
    assert_eq!(trie.get(b"c"), None);
    assert_eq!(trie.len(), 2);
}
