use art_index::trie::enums::{Case, Match};
use art_index::trie::tree::Tree;

#[test]
fn tree_add_string_chars_exist() {
    let mut tree = Tree::new(Match::Prefix, Case::Sensitive);
    tree.add("abc");
    assert!(tree.contains("a"));
    assert!(tree.contains("ab"));
    assert!(tree.contains("abc"));
}

#[test]
fn exact_mode_round_trip() {
    let mut tree = Tree::new(Match::Exact, Case::Sensitive);
    tree.add("abc");
    assert!(tree.contains("abc"));
    assert!(!tree.contains("ab"));
    assert!(!tree.contains("abcd"));
}

#[test]
fn prefix_mode_containment() {
    let mut tree = Tree::new(Match::Prefix, Case::Sensitive);
    tree.add("abcde");
    assert!(tree.contains("ab"));
    assert!(tree.contains("abcde"));
    assert!(!tree.contains("abcdef"));
}

#[test]
fn prefix_postfix_substring_matching() {
    let mut tree = Tree::new(Match::PrefixPostfix, Case::Sensitive);
    tree.add("abcde");
    assert!(tree.contains("cd"));
    assert!(tree.contains("bcde"));
    assert!(!tree.contains("xy"));
}

#[test]
fn case_folding_symmetry() {
    let mut insensitive = Tree::new(Match::Exact, Case::Insensitive);
    insensitive.add("ABC");
    assert!(insensitive.contains("abc"));
    assert!(insensitive.contains("ABC"));

    let mut sensitive = Tree::new(Match::Exact, Case::Sensitive);
    sensitive.add("abc");
    assert!(!sensitive.contains("ABC"));
}

#[test]
fn adding_twice_is_idempotent() {
    let mut once = Tree::new(Match::Prefix, Case::Sensitive);
    once.add("key");
    let mut twice = Tree::new(Match::Prefix, Case::Sensitive);
    twice.add("key");
    twice.add("key");
    for q in ["key", "k", "ke", "keys", "other", ""] {
        assert_eq!(once.contains(q), twice.contains(q));
    }
}

#[test]
fn empty_key_never_indexed() {
    let mut tree = Tree::new(Match::Prefix, Case::Sensitive);
    assert!(!tree.contains(""));
    tree.add("");
    assert!(!tree.contains(""));
    tree.add("a");
    assert!(!tree.contains(""));
    assert!(tree.contains("a"));
}

#[test]
fn lossless_migration_through_promotions() {
    // the root passes through every representation; everything inserted
    // before each promotion stays findable
    let mut tree = Tree::new(Match::Exact, Case::Sensitive);
    let mut words: Vec<String> = Vec::new();
    for i in 0u8..=255 {
        let mut w = String::new();
        w.push(char::from(i % 128 / 2 + 40));
        w.push(char::from(i));
        words.push(w);
    }
    for w in &words {
        tree.add(w);
        assert!(tree.contains(w));
    }
    for w in &words {
        assert!(tree.contains(w));
    }
}

#[test]
fn exact_needs_terminal_not_just_path() {
    let mut tree = Tree::new(Match::Exact, Case::Sensitive);
    tree.add("deep");
    assert!(!tree.contains("d"));
    assert!(!tree.contains("de"));
    assert!(!tree.contains("dee"));
    assert!(tree.contains("deep"));
    tree.add("de");
    assert!(tree.contains("de"));
    assert!(!tree.contains("d"));
}

#[test]
fn substring_mode_insensitive() {
    let mut tree = Tree::new(Match::PrefixPostfix, Case::Insensitive);
    tree.add("HeLLo");
    assert!(tree.contains("ell"));
    assert!(tree.contains("LO"));
    assert!(!tree.contains("hex"));
}
