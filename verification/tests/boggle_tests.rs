use boggle::boggle::{Boggle, Error, Grid};
use boggle::trie::Node;

fn lexicon_of(words: &[&str]) -> Node {
    let mut t = Node::new();
    for w in words.iter() {
        t.insert(w);
    }
    t
}

fn test_board(data: &str, n: usize, expected: &[&str]) {
    let grid = Grid::from_data(data, n).unwrap();
    let boggle = Boggle::new(grid, lexicon_of(expected));
    let result = boggle.solve();
    for word in expected.iter() {
        assert!(
            result.iter().any(|w| w == word),
            "Missing word: {}",
            word
        );
    }
}

#[test]
fn small_board() {
    let expected = ["urn", "seat", "sea", "eat", "ton"];
    test_board("xqaezotsindlyruk", 4, &expected);
}

#[test]
fn large_board() {
    let expected = [
        "yokel", "sake", "fee", "ami", "cue", "sky", "lea", "you", "amy", "foam", "sax", "cow",
        "seamy", "woe", "easy", "yak", "sexy", "amok", "mix", "sec", "sea", "oak", "seam", "max",
        "make", "keys", "may", "few", "leak", "key", "aim", "say", "fox", "ask", "sex", "mask",
        "foe", "fum", "yea", "yoke", "tau", "wee", "foamy", "okay", "leaky", "owe", "yam",
    ];
    test_board("taiakhuwiyxkuxmasyeuokexcefyclqowywh", 6, &expected);
}

#[test]
fn grid_validation() {
    // A flat string whose length is not n-squared is rejected.
    assert!(matches!(
        Grid::from_data("abcdefghijklmno", 4),
        Err(Error::InvalidDimensions)
    ));
    assert!(matches!(
        Grid::from_data("abc", 2),
        Err(Error::InvalidDimensions)
    ));
    assert!(matches!(
        Grid::from_data("a", 0),
        Err(Error::InvalidDimensions)
    ));
    assert!(Grid::from_data("abcd", 2).is_ok());
    assert!(Grid::from_data("", 0).is_ok());
}

#[test]
fn path_exclusivity() {
    // No found word may use the same cell twice: on a 2x2 board "aba"
    // would need the 'a' cell again, while "ab" and "aba"-free words fit.
    let grid = Grid::from_data("abcd", 2).unwrap();
    let boggle = Boggle::new(grid, lexicon_of(&["aba", "ab", "abcd"]));
    let result = boggle.solve();
    assert!(result.iter().any(|w| w == "ab"));
    assert!(result.iter().any(|w| w == "abcd"));
    assert!(!result.iter().any(|w| w == "aba"));
}

#[test]
fn solve_reports_each_word_once() {
    // "aa" can be spelled along several paths but is reported once.
    let grid = Grid::from_data("aaaa", 2).unwrap();
    let boggle = Boggle::new(grid, lexicon_of(&["aa"]));
    let result = boggle.solve();
    assert_eq!(result.iter().filter(|w| w.as_str() == "aa").count(), 1);
}

#[test]
fn grid_lowercases_its_cells() {
    // The board is lower-cased at construction; the lexicon is not.
    let grid = Grid::from_data("ABCD", 2).unwrap();
    let boggle = Boggle::new(grid, lexicon_of(&["ab", "CD"]));
    let result = boggle.solve();
    assert!(result.iter().any(|w| w == "ab"));
    assert!(!result.iter().any(|w| w == "CD"));
}

#[test]
fn pruning_keeps_prefix_words_reachable() {
    // A word that is also a prefix of a longer word is still reported.
    let grid = Grid::from_data("tone", 2).unwrap();
    let boggle = Boggle::new(grid, lexicon_of(&["to", "ton", "tone"]));
    let result = boggle.solve();
    assert!(result.iter().any(|w| w == "to"));
    assert!(result.iter().any(|w| w == "ton"));
}
