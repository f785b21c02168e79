use design_kit::trie::Trie;

#[test]
fn test_trie_operations() {
    let mut trie = Trie::new();

    trie.insert("apple".to_string());
    trie.insert("application".to_string());

    assert!(trie.search("apple".to_string()));
    assert!(!trie.search("app".to_string()));
    assert!(trie.search("application".to_string()));
    assert!(!trie.search("appl".to_string()));

    assert!(trie.starts_with("app".to_string()));
    assert!(trie.starts_with("appl".to_string()));
    assert!(trie.starts_with("apple".to_string()));
    assert!(!trie.starts_with("banana".to_string()));

    trie.insert("banana".to_string());
    assert!(trie.search("banana".to_string()));
    assert!(trie.starts_with("ban".to_string()));
}

#[test]
fn test_empty_trie() {
    let trie = Trie::new();
    assert!(!trie.search("anything".to_string()));
    assert!(!trie.starts_with("anything".to_string()));
}

#[test]
fn empty_word_and_prefix() {
    let mut trie = Trie::new();
    assert!(trie.starts_with(String::new()));
    assert!(!trie.search(String::new()));
    trie.insert(String::new());
    assert!(trie.search(String::new()));
    trie.insert("bat".to_string());
    assert!(!trie.starts_with("bad".to_string()));
    assert!(trie.starts_with("ba".to_string()));
}
