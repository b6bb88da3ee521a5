use boggle::trie::Node;

#[test]
fn trie_insert() {
    // Basic insertion and lookup
    let mut t = Node::new();
    let words = vec!["aa", "ab", "abc", "Ab"];
    for w in words.iter() {
        t.insert(w);
    }
    for w in words.iter() {
        assert!(t.has_word(w));
        assert!(!t.has_word(&format!("{}{}", w, "x")));
        assert!(!t.has_word(&w[..1]));
    }
}

#[test]
fn trie_insert_one_letter() {
    // Inserting one-letter words works, without false positives.
    let mut t = Node::new();
    let words = vec!["aa", "ab", "c", "d"];
    for w in words.iter() {
        t.insert(w);
    }
    assert!(t.has_word("c"));
    assert!(t.has_word("d"));
    assert!(!t.has_word("a"));
}

#[test]
fn trie_insert_duplicate() {
    // Inserting duplicate words should only store one word.
    let mut t = Node::new();
    let words = vec!["aa", "aa"];
    for w in words.iter() {
        t.insert(w);
    }
    assert!(t.has_word("aa"));
    assert_eq!(t.autocomplete("a", words.len() + 1), vec!["aa"]);
}

#[test]
fn trie_autocomplete() {
    // Autocompletion works in lexicographic order.
    let mut t = Node::new();
    let words = vec!["abra", "aaron", "acapella", "z", "zzz", "zany"];
    for w in words.iter() {
        t.insert(w);
    }
    assert_eq!(
        t.autocomplete("a", words.len() + 1),
        vec!["aaron", "abra", "acapella"]
    );
    assert_eq!(t.autocomplete("a", 1), vec!["aaron"]);
    assert_eq!(t.autocomplete("z", 2), vec!["z", "zany"]);
}

#[test]
fn no_false_prefix_positives() {
    // A prefix alone is not a word unless separately inserted.
    let mut t = Node::new();
    t.insert("aa");
    t.insert("ab");
    assert!(!t.has_word("a"));
    assert!(t.has_word("aa"));
    assert!(t.has_word("ab"));
    t.insert("a");
    assert!(t.has_word("a"));
}

#[test]
fn autocomplete_no_match_is_empty() {
    let mut t = Node::new();
    t.insert("aaron");
    t.insert("abra");
    let empty: Vec<String> = vec![];
    assert_eq!(t.autocomplete("b", 5), empty);
    assert_eq!(t.autocomplete("aaronx", 5), empty);
}

#[test]
fn autocomplete_query_word_comes_first() {
    let mut t = Node::new();
    t.insert("car");
    t.insert("carpet");
    t.insert("cart");
    assert_eq!(t.autocomplete("car", 10), vec!["car", "carpet", "cart"]);
}

#[test]
fn take_next_limits_and_orders() {
    let mut t = Node::new();
    for w in ["b", "a", "c"].iter() {
        t.insert(w);
    }
    assert_eq!(t.take_next(2), vec!["a", "b"]);
    assert_eq!(t.take_next(10), vec!["a", "b", "c"]);
    let empty: Vec<String> = vec![];
    assert_eq!(t.take_next(0), empty);
}

#[test]
fn from_words_respects_the_cap() {
    let words: Vec<String> = vec![
        "pear".to_string(),
        "plum".to_string(),
        "fig".to_string(),
    ];
    let t = Node::from_words(&words, 2);
    assert!(t.has_word("pear"));
    assert!(t.has_word("plum"));
    assert!(!t.has_word("fig"));
    let all = Node::from_words(&words, 10);
    assert!(all.has_word("fig"));
}
