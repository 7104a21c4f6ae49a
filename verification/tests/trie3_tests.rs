use art_index::trie3::{Case, Match, Node, Trie};

fn ctu(c: char) -> usize {
    Node::char_to_usize(c).expect("ERR")
}

//doesnt check terminal char
fn only_has_chars(n: &Node, s: String) -> bool {
    let mut result = true;
    for i in 0_u8..255_u8 {
        let mut schar = String::new();
        schar.push(i as char);
        let contain = s.contains(&schar);
        let should_contain = match &n.children[i as usize] {
            None => false,
            Some(_) => true,
        };
        if contain != should_contain {
            result = false;
            break;
        }
    }
    result
}

#[test]
fn trie3_add_string_chars_exist() {
    {
        //EXACT
        let mut trie = Trie::new(Match::Exact, Case::Sensitive);
        trie.add(&"abc".to_owned());

        let char_1 = trie.index.children[ctu('a')].as_ref();
        assert!(only_has_chars(&trie.index, "a".to_owned()));
        let char_2 = char_1.expect("ERR").children[ctu('b')].as_ref();
        assert!(only_has_chars(char_1.expect("ERR"), "b".to_owned()));
        let char_3 = char_2.expect("ERR").children[ctu('c')].as_ref();
        assert!(only_has_chars(char_2.expect("ERR"), "c".to_owned()));
        let char_4 = char_3.expect("ERR").children[256].as_ref();
        assert!(char_4.is_some());
    }

    {
        //PREFIX
        let mut trie = Trie::new(Match::Prefix, Case::Sensitive);
        trie.add(&"abc".to_owned());

        let char_1 = trie.index.children[ctu('a')].as_ref();
        assert!(only_has_chars(&trie.index, "a".to_owned()));
        let char_2 = char_1.expect("ERR").children[ctu('b')].as_ref();
        assert!(only_has_chars(char_1.expect("ERR"), "b".to_owned()));
        let char_3 = char_2.expect("ERR").children[ctu('c')].as_ref();
        assert!(only_has_chars(char_2.expect("ERR"), "c".to_owned()));
        let char_4 = char_3.expect("ERR").children[256].as_ref();
        assert!(!char_4.is_some());
    }

    {
        //PREFIXPOSTFIX
        let mut trie = Trie::new(Match::PrefixPostfix, Case::Sensitive);
        trie.add(&"abcd".to_owned());

        let char_1 = trie.index.children[ctu('a')].as_ref();
        assert!(only_has_chars(&trie.index, "abcd".to_owned()));
        let char_2 = char_1.expect("ERR").children[ctu('b')].as_ref();
        assert!(only_has_chars(char_2.expect("ERR"), "c".to_owned()));
    }
}

#[test]
fn trie3_match_empty() {
    let mut trie = Trie::new(Match::Prefix, Case::Sensitive);
    trie.add(&"".to_owned());
    assert!(trie.contains(&"".to_owned()))
}

#[test]
fn trie3_match_no_empty() {
    let trie = Trie::new(Match::Prefix, Case::Sensitive);
    assert!(trie.contains(&"".to_owned()))
}

#[test]
fn trie3_match_char() {
    let mut trie = Trie::new(Match::Prefix, Case::Sensitive);
    trie.add(&"a".to_owned());

    assert!(trie.contains(&"a".to_owned()));
    assert!(!trie.contains(&"A".to_owned()));
}

#[test]
fn trie3_match_string_case_sensitive() {
    {
        let mut trie = Trie::new(Match::Exact, Case::Sensitive);
        trie.add(&"abcde".to_owned());
        trie.add(&"abc".to_owned());

        assert!(trie.contains(&"abcde".to_owned()));
        assert!(trie.contains(&"abc".to_owned()));
        assert!(!trie.contains(&"ab".to_owned()));
        assert!(!trie.contains(&"ABCDE".to_owned()));
    }

    {
        let mut trie = Trie::new(Match::Prefix, Case::Sensitive);
        trie.add(&"abcde".to_owned());
        trie.add(&"abc".to_owned());

        assert!(trie.contains(&"abcde".to_owned()));
        assert!(trie.contains(&"abc".to_owned()));
        assert!(trie.contains(&"ab".to_owned()));
        assert!(!trie.contains(&"ABCDE".to_owned()));
    }

    {
        let mut trie = Trie::new(Match::PrefixPostfix, Case::Sensitive);
        trie.add(&"abcde".to_owned());

        assert!(trie.contains(&"abcde".to_owned()));
        assert!(trie.contains(&"abc".to_owned()));
        assert!(trie.contains(&"ab".to_owned()));
        assert!(trie.contains(&"bcde".to_owned()));
        assert!(trie.contains(&"cd".to_owned()));
        assert!(!trie.contains(&"ABCDE".to_owned()));
    }
}

#[test]
fn trie3_no_match_string() {
    let mut trie = Trie::new(Match::Prefix, Case::Sensitive);
    trie.add(&"abc".to_owned());

    assert!(!trie.contains(&"bc".to_owned()));
    assert!(!trie.contains(&"AB".to_owned())); //partial complete match
}

#[test]
fn trie3_insensitive_fold() {
    let mut trie = Trie::new(Match::Prefix, Case::Insensitive);
    trie.add(&"abc".to_owned());
    assert!(trie.contains(&"AB".to_owned()));
    assert!(trie.contains(&"abc".to_owned()));
}
