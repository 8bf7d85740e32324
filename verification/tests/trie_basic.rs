use prefix_trie::TrieMap;

#[test]
fn trie_test_insert() {}

#[test]
fn trie_two_keys() {
    let mut trie = TrieMap::new();
    trie.insert(b"aaa", 1);
    trie.insert(b"aab", 2);

    println!("{:?}", trie);

    assert_eq!(trie.get(b"aaa"), Some(&1));
    assert_eq!(trie.get(b"aab"), Some(&2));
    assert_eq!(trie.get(b"aa"), None);
    assert_eq!(trie.get(b"aac"), None);
    assert_eq!(trie.len(), 2);
}
