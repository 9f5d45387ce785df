use dslab::trie::Trie;

#[test]
fn trie_test_insert_and_query() {
    let mut trie = Trie::default();
    trie.insert("hj");
    assert!(trie.contains("hj"));
    assert!(!trie.contains("hjb"));
}

#[test]
fn trie_prefixes_are_not_words() {
    let mut trie = Trie::default();
    trie.insert("abc");
    assert!(trie.contains("abc"));
    assert!(!trie.contains("ab"));
    assert!(!trie.contains("a"));
    assert!(!trie.contains("abcd"));
}

#[test]
fn trie_empty_word_is_never_stored() {
    let mut trie = Trie::default();
    assert!(!trie.contains(""));
    trie.insert("");
    assert!(!trie.contains(""));
    trie.insert("z");
    assert!(trie.contains("z"));
}
