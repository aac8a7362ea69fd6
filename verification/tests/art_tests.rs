use fm_verified::art::{AdaptiveRadixTree, StringArt};


#[test]
fn empty_tree() {
    let tree: AdaptiveRadixTree<i32> = AdaptiveRadixTree::new();
    assert!(tree.is_empty());
    assert_eq!(tree.len(), 0);
    assert!(tree.get(b"any").is_none());
}

#[test]
fn insert_and_get_single() {
    let mut tree = AdaptiveRadixTree::new();
    assert!(tree.insert(b"hello", 42).is_none());
    assert_eq!(tree.get(b"hello"), Some(&42));
    assert_eq!(tree.len(), 1);
}

#[test]
fn insert_replace_returns_old() {
    let mut tree = AdaptiveRadixTree::new();
    tree.insert(b"key", 1);
    let old = tree.insert(b"key", 2);
    assert_eq!(old, Some(1));
    assert_eq!(tree.get(b"key"), Some(&2));
    assert_eq!(tree.len(), 1);
}

#[test]
fn multiple_keys() {
    let mut tree = AdaptiveRadixTree::new();
    tree.insert(b"apple", 1);
    tree.insert(b"banana", 2);
    tree.insert(b"cherry", 3);

    assert_eq!(tree.get(b"apple"), Some(&1));
    assert_eq!(tree.get(b"banana"), Some(&2));
    assert_eq!(tree.get(b"cherry"), Some(&3));
    assert_eq!(tree.len(), 3);
}

#[test]
fn absent_key_returns_none() {
    let mut tree = AdaptiveRadixTree::new();
    tree.insert(b"exists", 1);
    assert!(tree.get(b"missing").is_none());
    assert!(tree.get(b"exist").is_none());
    assert!(tree.get(b"existss").is_none());
}

#[test]
fn common_prefix_keys() {
    let mut tree = AdaptiveRadixTree::new();
    tree.insert(b"test", 1);
    tree.insert(b"testing", 2);
    tree.insert(b"tester", 3);
    tree.insert(b"team", 4);

    assert_eq!(tree.get(b"test"), Some(&1));
    assert_eq!(tree.get(b"testing"), Some(&2));
    assert_eq!(tree.get(b"tester"), Some(&3));
    assert_eq!(tree.get(b"team"), Some(&4));
    assert_eq!(tree.len(), 4);
}

#[test]
fn prefix_is_key() {
    // Key that is an exact prefix of another key.
    let mut tree = AdaptiveRadixTree::new();
    tree.insert(b"ab", 1);
    tree.insert(b"abc", 2);
    tree.insert(b"abcd", 3);

    assert_eq!(tree.get(b"ab"), Some(&1));
    assert_eq!(tree.get(b"abc"), Some(&2));
    assert_eq!(tree.get(b"abcd"), Some(&3));
    assert!(tree.get(b"a").is_none());
    assert_eq!(tree.len(), 3);
}

#[test]
fn reverse_prefix_order() {
    // Insert longer key first, then shorter prefix.
    let mut tree = AdaptiveRadixTree::new();
    tree.insert(b"abcdef", 1);
    tree.insert(b"abc", 2);
    tree.insert(b"ab", 3);

    assert_eq!(tree.get(b"abcdef"), Some(&1));
    assert_eq!(tree.get(b"abc"), Some(&2));
    assert_eq!(tree.get(b"ab"), Some(&3));
    assert_eq!(tree.len(), 3);
}

#[test]
fn many_children() {
    let mut tree = AdaptiveRadixTree::new();
    // Insert 26 single-letter keys to exercise growth beyond small threshold.
    for b in b'a'..=b'z' {
        tree.insert(&[b], (b - b'a') as i32);
    }
    assert_eq!(tree.len(), 26);
    for b in b'a'..=b'z' {
        assert_eq!(tree.get(&[b]), Some(&((b - b'a') as i32)));
    }
}

#[test]
fn many_insertions() {
    let mut tree = AdaptiveRadixTree::new();
    for i in 0..500_u32 {
        let key = format!("node_{i:04}");
        tree.insert(key.as_bytes(), i);
    }
    assert_eq!(tree.len(), 500);
    for i in 0..500_u32 {
        let key = format!("node_{i:04}");
        assert_eq!(tree.get(key.as_bytes()), Some(&i), "Missing key {key}");
    }
}

#[test]
fn contains_key() {
    let mut tree = AdaptiveRadixTree::new();
    tree.insert(b"abc", 1);
    assert!(tree.contains_key(b"abc"));
    assert!(!tree.contains_key(b"ab"));
    assert!(!tree.contains_key(b"abcd"));
}

#[test]
fn string_art_convenience() {
    let mut tree = StringArt::new();
    tree.insert("node_A", 0);
    tree.insert("node_B", 1);
    tree.insert("edge_1", 2);

    assert_eq!(tree.get("node_A"), Some(&0));
    assert_eq!(tree.get("node_B"), Some(&1));
    assert_eq!(tree.get("edge_1"), Some(&2));
    assert!(tree.contains_key("node_A"));
    assert!(!tree.contains_key("node_C"));
    assert_eq!(tree.len(), 3);
}

#[test]
fn prefix_search_basic() {
    let mut tree = StringArt::new();
    tree.insert("node_A", 0);
    tree.insert("node_B", 1);
    tree.insert("edge_1", 2);
    tree.insert("node_C", 3);

    let mut results = tree.prefix_search("node_");
    results.sort_by(|a, b| a.0.cmp(&b.0));

    assert_eq!(results.len(), 3);
    assert_eq!(results[0].0, "node_A");
    assert_eq!(results[1].0, "node_B");
    assert_eq!(results[2].0, "node_C");
}

#[test]
fn prefix_search_empty_prefix() {
    let mut tree = StringArt::new();
    tree.insert("a", 1);
    tree.insert("b", 2);

    let results = tree.prefix_search("");
    assert_eq!(results.len(), 2);
}

#[test]
fn prefix_search_no_match() {
    let mut tree = StringArt::new();
    tree.insert("apple", 1);
    tree.insert("apricot", 2);

    let results = tree.prefix_search("ban");
    assert!(results.is_empty());
}

#[test]
fn to_sorted_vec() {
    let mut tree = AdaptiveRadixTree::new();
    tree.insert(b"cherry", 3);
    tree.insert(b"apple", 1);
    tree.insert(b"banana", 2);

    let sorted = tree.to_sorted_vec();
    assert_eq!(sorted.len(), 3);
    assert_eq!(sorted[0].0, b"apple");
    assert_eq!(sorted[1].0, b"banana");
    assert_eq!(sorted[2].0, b"cherry");
}

#[test]
fn empty_key() {
    let mut tree = AdaptiveRadixTree::new();
    tree.insert(b"", 0);
    assert_eq!(tree.get(b""), Some(&0));
    assert_eq!(tree.len(), 1);
}

#[test]
fn node_ids_typical_pattern() {
    let mut tree = StringArt::new();
    let ids = [
        "A",
        "B",
        "C",
        "Start",
        "End",
        "Decision",
        "subgraph_1",
        "node_abc",
    ];

    for (i, id) in ids.iter().enumerate() {
        tree.insert(id, i);
    }

    for (i, id) in ids.iter().enumerate() {
        assert_eq!(tree.get(id), Some(&i), "Missing node ID {id}");
    }
}

#[test]
fn single_byte_keys() {
    let mut tree = AdaptiveRadixTree::new();
    for b in 0..=255_u8 {
        tree.insert(&[b], b as u32);
    }
    assert_eq!(tree.len(), 256);
    for b in 0..=255_u8 {
        assert_eq!(tree.get(&[b]), Some(&(b as u32)));
    }
}
