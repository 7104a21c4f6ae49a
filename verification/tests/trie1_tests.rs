use art_index::trie1::Trie;

#[test]
fn trie1_add_char_exist() {
    let mut trie = Trie::new();
    trie.add(&"a".to_owned(), true);
    assert!(trie.children[0].is_some());
}

#[test]
fn trie1_add_string_chars_exist_full() {
    let mut trie = Trie::new();
    trie.add(&"aabc".to_owned(), true);
    {
        let char_1 = trie.children[Trie::char_to_usize('a').expect("ERR")].as_ref();
        let char_2 =
            char_1.expect("ERR").children[Trie::char_to_usize('a').expect("ERR")].as_ref();
        let char_3 =
            char_2.expect("ERR").children[Trie::char_to_usize('b').expect("ERR")].as_ref();
        let char_4 =
            &char_3.expect("ERR").children[Trie::char_to_usize('c').expect("ERR")].as_ref();
        assert!(char_1.is_some());
        assert!(char_2.is_some());
        assert!(char_3.is_some());
        assert!(char_4.is_some());
    }
}

#[test]
fn trie1_add_string_chars_dont_exist_full() {
    let mut trie = Trie::new();
    trie.add(&"aabc".to_owned(), true);
    let valid_char_1 = trie.children[0].as_ref();
    let valid_char_2 = valid_char_1.expect("ERR").children[0].as_ref();
    let valid_char_3 = valid_char_2.expect("ERR").children[1].as_ref();

    let invalid_char_1 = &trie.children[1];
    let invalid_char_2 = &valid_char_1.expect("ERR").children[1];
    let invalid_char_3 = &valid_char_2.expect("ERR").children[2];
    let invalid_char_4 = &valid_char_3.expect("ERR").children[3];

    assert!(invalid_char_1.is_none());
    assert!(invalid_char_2.is_none());
    assert!(invalid_char_3.is_none());
    assert!(invalid_char_4.is_none());
}

#[test]
fn trie1_match_empty() {
    let mut trie = Trie::new();
    trie.add(&"".to_owned(), true);
    assert!(trie.contains(&"".to_owned()))
}

#[test]
fn trie1_match_no_empty() {
    let trie = Trie::new();
    assert!(trie.contains(&"".to_owned()))
}

#[test]
fn trie1_match_char() {
    let mut trie = Trie::new();
    trie.add(&"a".to_owned(), true);

    assert!(trie.contains(&"a".to_owned()));
    assert!(trie.contains(&"A".to_owned()));
}

#[test]
fn trie1_match_string() {
    let mut trie = Trie::new();
    trie.add(&"abc".to_owned(), true);

    assert!(trie.contains(&"abc".to_owned()));
    assert!(trie.contains(&"ABC".to_owned()));
}

#[test]
fn trie1_no_match_string() {
    let mut trie = Trie::new();
    trie.add(&"abc".to_owned(), true);

    assert!(!trie.contains(&"bc".to_owned()));
    assert!(trie.contains(&"AB".to_owned())); //partial complete match
}

#[test]
fn trie1_stops_at_first_nonletter() {
    // an upper-case byte ends the indexed prefix at insertion time
    let mut trie = Trie::new();
    trie.add(&"aBc".to_owned(), true);
    assert!(trie.contains(&"a".to_owned()));
    assert!(!trie.contains(&"ab".to_owned()));
    assert!(!trie.contains(&"a1".to_owned()));
}
