use art_index::trie2::{MatchType, Trie};

#[test]
fn trie2_add_char_exist() {
    let mut trie = Trie::new(MatchType::Prefix);
    trie.add(&"a".to_owned(), true);
    assert!(trie.index.children[0].is_some());
}

#[test]
fn trie2_add_string_chars_exist_full() {
    let mut trie = Trie::new(MatchType::Prefix);
    trie.add(&"aabc".to_owned(), true);
    {
        let char_1 = trie.index.children[0].as_ref();
        let char_2 = char_1.expect("ERR").children[0].as_ref();
        let char_3 = char_2.expect("ERR").children[1].as_ref();
        let char_4 = &char_3.expect("ERR").children[2].as_ref();
        assert!(char_1.is_some());
        assert!(char_2.is_some());
        assert!(char_3.is_some());
        assert!(char_4.is_some());
    }
}

#[test]
fn trie2_add_string_chars_dont_exist_full() {
    let mut trie = Trie::new(MatchType::Prefix);
    trie.add(&"aabc".to_owned(), true);
    let valid_char_1 = trie.index.children[0].as_ref();
    let valid_char_2 = valid_char_1.expect("ERR").children[0].as_ref();
    let valid_char_3 = valid_char_2.expect("ERR").children[1].as_ref();

    let invalid_char_1 = &trie.index.children[1];
    let invalid_char_2 = &valid_char_1.expect("ERR").children[1];
    let invalid_char_3 = &valid_char_2.expect("ERR").children[2];
    let invalid_char_4 = &valid_char_3.expect("ERR").children[3];

    assert!(invalid_char_1.is_none());
    assert!(invalid_char_2.is_none());
    assert!(invalid_char_3.is_none());
    assert!(invalid_char_4.is_none());
}

#[test]
fn trie2_match_empty() {
    let mut trie = Trie::new(MatchType::Prefix);
    trie.add(&"".to_owned(), true);
    assert!(trie.contains(&"".to_owned()))
}

#[test]
fn trie2_match_no_empty() {
    let trie = Trie::new(MatchType::Prefix);
    assert!(trie.contains(&"".to_owned()))
}

#[test]
fn trie2_match_char() {
    let mut trie = Trie::new(MatchType::Prefix);
    trie.add(&"a".to_owned(), true);

    assert!(trie.contains(&"a".to_owned()));
    assert!(trie.contains(&"A".to_owned()));
}

#[test]
fn trie2_match_string() {
    let mut trie = Trie::new(MatchType::Prefix);
    trie.add(&"abc".to_owned(), true);

    assert!(trie.contains(&"abc".to_owned()));
    assert!(trie.contains(&"ABC".to_owned()));
}

#[test]
fn trie2_no_match_string() {
    let mut trie = Trie::new(MatchType::Prefix);
    trie.add(&"abc".to_owned(), true);

    assert!(!trie.contains(&"bc".to_owned()));
    assert!(trie.contains(&"AB".to_owned())); //partial complete match
}

#[test]
fn large_data() {
    let mut trie = Trie::new(MatchType::Prefix);
    let mut words: Vec<String> = Vec::new();
    for i in 0..1000u32 {
        let mut w = String::new();
        let mut v = i;
        for _ in 0..5 {
            w.push(char::from((v % 26) as u8 + 97));
            v /= 26;
        }
        words.push(w);
    }
    for w in &words {
        trie.add(w, true);
    }
    for w in &words {
        assert!(trie.contains(w));
    }
}
