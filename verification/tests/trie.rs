use algolib::data_structures::trie::Trie;

#[test]
fn empty_trie_contains_nothing() {
    let trie = Trie::new();
    assert!(!trie.contains(""));
    assert!(!trie.contains("a"));
    assert!(!trie.contains("hello"));
}

#[test]
fn inserted_words_are_contained() {
    let mut trie = Trie::new();
    trie.insert("hello");
    trie.insert("help");
    trie.insert("world");
    assert!(trie.contains("hello"));
    assert!(trie.contains("help"));
    assert!(trie.contains("world"));
}

#[test]
fn prefixes_and_extensions_are_not_contained() {
    let mut trie = Trie::new();
    trie.insert("hello");
    assert!(!trie.contains("hell"));
    assert!(!trie.contains("h"));
    assert!(!trie.contains("hello!"));
    assert!(!trie.contains("help"));
    trie.insert("hell");
    assert!(trie.contains("hell"));
    assert!(trie.contains("hello"));
    assert!(!trie.contains("hel"));
}

#[test]
fn the_empty_word_is_never_contained() {
    let mut trie = Trie::new();
    trie.insert("");
    assert!(!trie.contains(""));
    trie.insert("a");
    trie.insert("");
    assert!(!trie.contains(""));
    assert!(trie.contains("a"));
}

#[test]
fn inserting_twice_changes_nothing() {
    let mut trie = Trie::new();
    trie.insert("abc");
    trie.insert("abc");
    assert!(trie.contains("abc"));
    assert!(!trie.contains("ab"));
}

#[test]
fn words_beyond_ascii() {
    let mut trie = Trie::new();
    trie.insert("na\u{ef}ve");
    trie.insert("\u{65e5}\u{672c}\u{8a9e}");
    assert!(trie.contains("na\u{ef}ve"));
    assert!(trie.contains("\u{65e5}\u{672c}\u{8a9e}"));
    assert!(!trie.contains("naive"));
    assert!(!trie.contains("\u{65e5}\u{672c}"));
}

#[test]
fn many_words_share_their_prefixes() {
    let mut trie = Trie::new();
    let words: Vec<String> = (0..500).map(|i| format!("w{}x", i * 7)).collect();
    for w in &words {
        trie.insert(w);
    }
    for w in &words {
        assert!(trie.contains(w));
    }
    for i in 0..500 {
        let absent = format!("w{}y", i * 7);
        assert!(!trie.contains(&absent));
        let prefix = format!("w{}", i * 7);
        assert!(!trie.contains(&prefix));
    }
}
