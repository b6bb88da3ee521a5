use boggle::tries::Node;

#[test]
fn tries_insert() {
    // Basic insertion and lookup
    let mut t = Node::new(None);
    let words = vec!["aa", "ab", "abc", "Ab"];
    for w in words.iter() {
        t.insert(w);
    }
    for w in words.iter() {
        assert!(t.has(w));
        assert!(!t.has(&format!("{}{}", w, "x")));
        assert!(!t.has(&w[..1]));
    }
}

#[test]
fn tries_insert_one_letter() {
    // Inserting one-letter words works, without false positives.
    let mut t = Node::new(None);
    let words = vec!["aa", "ab", "c", "d"];
    for w in words.iter() {
        t.insert(w);
    }
    assert!(t.has("c"));
    assert!(t.has("d"));
    assert!(!t.has("a"));
}

#[test]
fn tries_insert_duplicate() {
    // Inserting duplicate words should only store one word.
    let mut t = Node::new(None);
    let words = vec!["aa", "aa"];
    for w in words.iter() {
        t.insert(w);
    }
    assert!(t.has("aa"));
    assert_eq!(t.autocomplete("a", words.len() + 1), vec!["aa"]);
}

#[test]
fn tries_autocomplete() {
    // Autocompletion works in lexicographic order.
    let mut t = Node::new(None);
    let words = vec!["abra", "aaron", "acapella", "z", "zzz", "zany"];
    for w in words.iter() {
        t.insert(w);
    }
    assert_eq!(
        t.autocomplete("a", words.len() + 1),
        vec!["aaron", "abra", "acapella"]
    );
    assert_eq!(t.autocomplete("a", 1), vec!["aaron"]);
    assert_eq!(t.autocomplete("z", 2), vec!["z", "zany"]);
}

#[test]
fn tries_take_next_spells_from_the_node() {
    // A node built with its own character spells it in front of each word.
    let mut t = Node::new(Some('q'));
    t.insert("a");
    t.insert("b");
    assert_eq!(t.take_next(5), vec!["qa", "qb"]);
}
