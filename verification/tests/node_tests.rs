use art_index::trie::nodes::node::ArtNode;
use art_index::trie::nodes::node0::Node0;
use art_index::trie::nodes::node4::Node4;

#[test]
fn test_adding_words_to_node4() {
    let mut node = ArtNode::N4(Node4::new());
    for i in 0..=3u8 {
        node = node.add(&[0, i], 0);
    }
    match &node {
        ArtNode::N4(root) => {
            let child = root.children[0].as_ref().unwrap();
            assert!(child.is_full());
        }
        _ => panic!(),
    }
}

#[test]
fn test_all_upgrades_occur_exact_match() {
    let mut node = ArtNode::N4(Node4::new());
    for i in 0..=3u8 {
        node = node.add(&[i], 0);
    }
    assert!(node.is_full());

    for i in 4..=15u8 {
        node = node.add(&[i], 0);
    }
    assert!(node.is_full());

    for i in 16..=47u8 {
        node = node.add(&[i], 0);
    }
    assert!(node.is_full());

    for i in 48..=255u8 {
        node = node.add(&[i], 0);
    }
    assert!(node.is_full());
}

#[test]
fn node_test_all_upgrades_occur_exact_match() {
    let mut node = ArtNode::N0(Node0::new());
    for i in 0..=3u8 {
        node = node.add(&[i], 0);
    }
    assert!(matches!(node, ArtNode::N4(_)));
    assert!(node.is_full());

    for i in 4..=15u8 {
        node = node.add(&[i], 0);
    }
    assert!(matches!(node, ArtNode::N16(_)));
    assert!(node.is_full());

    for i in 16..=47u8 {
        node = node.add(&[i], 0);
    }
    assert!(matches!(node, ArtNode::N48(_)));
    assert!(node.is_full());

    for i in 48..=255u8 {
        node = node.add(&[i], 0);
    }
    assert!(matches!(node, ArtNode::N256(_)));
    assert!(node.is_full());
}

#[test]
fn node4_test_adding_words_to_node4() {
    let mut node = ArtNode::N0(Node0::new());
    for i in 0..=3u8 {
        node = node.add(&[0, i], 0);
    }
    match &node {
        ArtNode::N4(root) => {
            let child = root.children[0].as_ref().unwrap();
            assert!(child.is_full());
        }
        _ => panic!(),
    }
}

#[test]
fn order_preserved_48_exact_match() {
    let mut node = ArtNode::N4(Node4::new());

    for i in 0..48u8 {
        node = node.add(&[i * 2], 0);
    }

    match &node {
        ArtNode::N48(node48) => {
            for (i, k) in node48.keys.iter().enumerate() {
                if i < 96 {
                    // only first 48 entries considered
                    match k {
                        None => {
                            assert_ne!(i % 2, 0);
                        }
                        Some(c) => {
                            assert_eq!(i % 2, 0);
                            assert!(matches!(&node48.children[*c as usize], Some(_)));
                        }
                    }
                }
            }
        }
        _ => panic!(),
    }
}

#[test]
fn node48_order_preserved_48_exact_match() {
    let mut node = ArtNode::N4(Node4::new());

    for i in 0..48u8 {
        node = node.add(&[i * 2], 0);
    }

    match &node {
        ArtNode::N48(node48) => {
            for (i, k) in node48.keys.iter().enumerate() {
                if i < 96 {
                    match k {
                        None => {
                            assert_ne!(i % 2, 0);
                        }
                        Some(c) => {
                            assert_eq!(i % 2, 0);
                            assert!(matches!(&node48.children[*c as usize], Some(_)));
                        }
                    }
                }
            }
        }
        _ => panic!(),
    }
}

#[test]
fn order_preserved_256_exact_match() {
    let mut node = ArtNode::N4(Node4::new());

    for i in 0..=255u8 {
        if i % 2 == 0 {
            node = node.add(&[i], 0);
        }
    }

    match &node {
        ArtNode::N256(node256) => {
            for (i, c) in node256.children.iter().enumerate() {
                match c {
                    None => assert_ne!(i % 2, 0),
                    Some(_) => assert_eq!(i % 2, 0),
                }
            }
        }
        _ => panic!(),
    }
}

#[test]
fn node256_order_preserved_256_exact_match() {
    let mut node = ArtNode::N4(Node4::new());

    for i in 0..=255u8 {
        if i % 2 == 0 {
            node = node.add(&[i], 0);
        }
    }

    match &node {
        ArtNode::N256(node256) => {
            for (i, c) in node256.children.iter().enumerate() {
                match c {
                    None => assert_ne!(i % 2, 0),
                    Some(_) => assert_eq!(i % 2, 0),
                }
            }
        }
        _ => panic!(),
    }
}

#[test]
fn promotion_boundaries() {
    // each representation reports itself full exactly at its capacity, and
    // the next insertion promotes it
    let mut node = ArtNode::N0(Node0::new());
    node = node.add(&[0], 0);
    assert!(matches!(node, ArtNode::N4(_)));
    for i in 1..=3u8 {
        node = node.add(&[i], 0);
        assert!(matches!(node, ArtNode::N4(_)));
    }
    assert!(node.is_full());
    node = node.add(&[4], 0);
    assert!(matches!(node, ArtNode::N16(_)));
    assert!(!node.is_full());
    for i in 5..=15u8 {
        node = node.add(&[i], 0);
        assert!(matches!(node, ArtNode::N16(_)));
    }
    assert!(node.is_full());
    node = node.add(&[16], 0);
    assert!(matches!(node, ArtNode::N48(_)));
    assert!(!node.is_full());
    for i in 17..=47u8 {
        node = node.add(&[i], 0);
        assert!(matches!(node, ArtNode::N48(_)));
    }
    assert!(node.is_full());
    node = node.add(&[48], 0);
    assert!(matches!(node, ArtNode::N256(_)));
    assert!(!node.is_full());
}

#[test]
fn node16_keys_sorted_after_insertions() {
    // keys arrive out of order; the Node16 layout keeps them ascending
    let mut node = ArtNode::N0(Node0::new());
    for b in [41u8, 13, 99, 7, 56] {
        node = node.add(&[b], 0);
    }
    match &node {
        ArtNode::N16(n16) => {
            assert_eq!(n16.size, 5);
            for i in 0..4 {
                let a = n16.keys[i].unwrap();
                let b = n16.keys[i + 1].unwrap();
                assert!(a < b);
            }
            for i in 5..16 {
                assert!(n16.keys[i].is_none());
            }
        }
        _ => panic!(),
    }
}

#[test]
fn node_is_empty_reports_branches() {
    let four = ArtNode::N4(Node4::new());
    assert!(four.is_empty());
    let zero = ArtNode::N0(Node0::new());
    assert!(!zero.is_empty());
    let grown = four.add(&[9], 0);
    assert!(!grown.is_empty());
}
