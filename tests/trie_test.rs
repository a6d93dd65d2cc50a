use hardly_trie::trie::{Trie, TrieIter, TrieKey};
use std::collections::HashSet;

fn forward<'a>(mut iter: TrieIter<'a, str, String, 16>) -> Vec<(Vec<usize>, &'a String)> {
    let mut out = Vec::new();
    while let Some(item) = iter.next() {
        out.push(item);
    }
    out
}

fn backward<'a>(mut iter: TrieIter<'a, str, String, 16>) -> Vec<(Vec<usize>, &'a String)> {
    let mut out = Vec::new();
    while let Some(item) = iter.next_back() {
        out.push(item);
    }
    out
}

#[test]
fn lib_it_works() {
    let mut trie: hardly_trie::Trie<usize> = hardly_trie::Trie::new();
    let key = "aa".as_bytes();
    assert_eq!(trie.insert(key, 1), None);
    assert_eq!(trie.get(key), Some(&1));

    assert_eq!(trie.insert(&[1, 3, 7, 2], 3), None);
    assert_eq!(trie.get(&[]), None);
    assert_eq!(trie.get(&[1]), None);
    assert_eq!(trie.get(&[1, 3]), None);
    assert_eq!(trie.get(&[1, 3, 7]), None);
    assert_eq!(trie.get(&[1, 3, 7, 2]), Some(&3));
    assert_eq!(trie.insert(&[], 7), None);
    assert_eq!(trie.get(&[]), Some(&7));
    assert_eq!(trie.get(&[1]), None);
    assert_eq!(trie.get(&[1, 3]), None);
    assert_eq!(trie.get(&[1, 3, 7]), None);
    assert_eq!(trie.get(&[1, 3, 7, 2]), Some(&3));
    assert_eq!(trie.insert(&[1, 3], 5), None);
    assert_eq!(trie.get(&[]), Some(&7));
    assert_eq!(trie.get(&[1]), None);
    assert_eq!(trie.get(&[1, 3]), Some(&5));
    assert_eq!(trie.get(&[1, 3, 7]), None);
    assert_eq!(trie.get(&[1, 3, 7, 2]), Some(&3));
    assert_eq!(trie.insert(&[1, 3], 6), Some(5));
}

#[test]
fn trie_it_works() {
    let mut trie: Trie<[u8], usize, 16> = Trie::new();

    assert_eq!(trie.insert(&[1, 3, 7, 2], 3), None);
    assert_eq!(trie.get(&[]), None);
    assert_eq!(trie.get(&[1]), None);
    assert_eq!(trie.get(&[1, 3]), None);
    assert_eq!(trie.get(&[1, 3, 7]), None);
    assert_eq!(trie.get(&[1, 3, 7, 2]), Some(&3));
    assert_eq!(trie.insert(&[], 7), None);
    assert_eq!(trie.get(&[]), Some(&7));
    assert_eq!(trie.get(&[1]), None);
    assert_eq!(trie.get(&[1, 3]), None);
    assert_eq!(trie.get(&[1, 3, 7]), None);
    assert_eq!(trie.get(&[1, 3, 7, 2]), Some(&3));
    assert_eq!(trie.insert(&[1, 3], 5), None);
    assert_eq!(trie.get(&[]), Some(&7));
    assert_eq!(trie.get(&[1]), None);
    assert_eq!(trie.get(&[1, 3]), Some(&5));
    assert_eq!(trie.get(&[1, 3, 7]), None);
    assert_eq!(trie.get(&[1, 3, 7, 2]), Some(&3));
    assert_eq!(trie.len(), 3);
    assert_eq!(trie.insert(&[1, 3], 6), Some(5));
    assert_eq!(trie.len(), 3);
    assert_eq!(trie.delete(&[1, 3]), Some(6));
    assert_eq!(trie.len(), 2);
    assert_eq!(trie.get(&[1, 3, 7, 2]), Some(&3));
    assert_eq!(trie.delete(&[1, 3, 7, 2]), Some(3));
    assert_eq!(trie.len(), 1);
    assert_eq!(trie.delete(&[]), Some(7));
    assert_eq!(trie.len(), 0);
}

/// Deleting an extension of a stored key leaves that key's node without children.
#[test]
fn test_internal_node_cleanup() {
    let mut trie: Trie<str, String, 16> = Trie::new();

    // Insert "test" and "testing" - "testing" extends "test" with "ing"
    trie.insert("test", "test_value".to_string());
    trie.insert("testing", "testing_value".to_string());

    assert_eq!(trie.len(), 2);
    assert_eq!(trie.get("test"), Some(&"test_value".to_string()));
    assert_eq!(trie.get("testing"), Some(&"testing_value".to_string()));

    // The node for "test" has children for the "ing" extension
    let current_node = trie.node("test").unwrap();
    assert!(
        current_node.has_child(),
        "Node for 'test' should have children for 'ing' extension"
    );

    // Delete "testing" - this should clean up the "ing" part
    assert_eq!(trie.delete("testing"), Some("testing_value".to_string()));
    assert_eq!(trie.len(), 1);
    assert_eq!(trie.get("test"), Some(&"test_value".to_string()));
    assert_eq!(trie.get("testing"), None);

    // The node for "test" no longer has children
    let current_node = trie.node("test").unwrap();
    assert!(
        !current_node.has_child(),
        "Node for 'test' should not have children after 'testing' is deleted"
    );
}

/// Test cleanup of a single long chain with no branches
#[test]
fn test_single_chain_internal_cleanup() {
    let mut trie: Trie<str, String, 16> = Trie::new();

    // Insert a single key to create a chain
    trie.insert("a", "value_a".to_string());
    assert_eq!(trie.len(), 1);

    // Verify the root has a child
    let root_node = trie.node("").unwrap();
    assert!(root_node.has_child(), "Root should have a child for 'a'");

    // Delete the key - this should clean up the entire chain
    assert_eq!(trie.delete("a"), Some("value_a".to_string()));
    assert_eq!(trie.len(), 0);

    // Verify the root no longer has any children
    let root_node = trie.node("").unwrap();
    assert!(
        !root_node.has_child(),
        "Root should not have any children after deleting 'a'"
    );
}

/// Test that intermediate nodes with values are preserved during cleanup
#[test]
fn test_preserve_intermediate_nodes_internal() {
    let mut trie: Trie<str, String, 16> = Trie::new();

    // Create a scenario: "app", "apple"
    trie.insert("app", "app_value".to_string());
    trie.insert("apple", "apple_value".to_string());

    assert_eq!(trie.len(), 2);

    // The node for "app" has children for "le"
    let current_node = trie.node("app").unwrap();
    assert!(
        current_node.has_child(),
        "Node for 'app' should have children for 'le' extension"
    );
    assert!(
        current_node.value().is_some(),
        "Node for 'app' should have a value"
    );

    // Delete "apple" - should not affect "app" node since it has a value
    assert_eq!(trie.delete("apple"), Some("apple_value".to_string()));
    assert_eq!(trie.len(), 1);
    assert_eq!(trie.get("app"), Some(&"app_value".to_string()));

    // The node for "app" still exists but has no children
    let current_node = trie.node("app").unwrap();
    assert!(
        !current_node.has_child(),
        "Node for 'app' should not have children after 'apple' is deleted"
    );
    assert!(
        current_node.value().is_some(),
        "Node for 'app' should still have its value"
    );
}

/// Deleting "abc" leaves the node for "ab" without children.
#[test]
fn test_cleanup_bug_detection_internal() {
    let mut trie: Trie<str, String, 16> = Trie::new();

    // Insert "ab" and "abc" where "abc" extends "ab"
    trie.insert("ab", "ab_value".to_string());
    trie.insert("abc", "abc_value".to_string());

    assert_eq!(trie.len(), 2);

    // The node for "ab" has a child for "c"
    let current_node = trie.node("ab").unwrap();
    assert!(
        current_node.has_child(),
        "Node for 'ab' should have a child for 'c'"
    );

    // Delete "abc" - this should trigger cleanup of the "c" extension
    assert_eq!(trie.delete("abc"), Some("abc_value".to_string()));
    assert_eq!(trie.len(), 1);
    assert_eq!(trie.get("ab"), Some(&"ab_value".to_string()));
    assert_eq!(trie.get("abc"), None);

    // The node for "ab" has no children left
    let current_node = trie.node("ab").unwrap();
    assert!(
        !current_node.has_child(),
        "Node for 'ab' should not have children after 'abc' is deleted"
    );
}

#[test]
fn test_iterator_empty_trie() {
    let trie: Trie<str, String, 16> = Trie::new();
    let mut iter = trie.iter();

    assert_eq!(iter.next(), None);
    assert_eq!(iter.next_back(), None);
    assert_eq!(iter.size_hint(), (0, Some(0)));
}

#[test]
fn test_iterator_single_element() {
    let mut trie: Trie<str, String, 16> = Trie::new();
    trie.insert("a", "value_a".to_string());

    let mut iter = trie.iter();
    assert_eq!(iter.size_hint(), (1, Some(1)));

    // Test forward iteration
    let (path, value) = iter.next().unwrap();
    assert_eq!(value, &"value_a".to_string());
    assert_eq!(path, "a".build_path());
    assert_eq!(iter.next(), None);

    // Test backward iteration on fresh iterator
    let mut iter = trie.iter();
    let (path, value) = iter.next_back().unwrap();
    assert_eq!(value, &"value_a".to_string());
    assert_eq!(path, "a".build_path());
    assert_eq!(iter.next_back(), None);
}

#[test]
fn test_iterator_multiple_elements() {
    let mut trie: Trie<str, String, 16> = Trie::new();
    trie.insert("a", "value_a".to_string());
    trie.insert("b", "value_b".to_string());
    trie.insert("ab", "value_ab".to_string());

    // Collect all elements via forward iteration
    let forward_items = forward(trie.iter());
    assert_eq!(forward_items.len(), 3);

    // Collect all elements via backward iteration
    let backward_items = backward(trie.iter());
    assert_eq!(backward_items.len(), 3);

    // Forward and backward should be reverses of each other
    let mut backward_reversed = backward_items;
    backward_reversed.reverse();
    assert_eq!(forward_items, backward_reversed);
}

#[test]
fn test_iterator_bidirectional() {
    let mut trie: Trie<str, String, 16> = Trie::new();
    trie.insert("a", "value_a".to_string());
    trie.insert("b", "value_b".to_string());
    trie.insert("c", "value_c".to_string());
    trie.insert("d", "value_d".to_string());

    let mut iter = trie.iter();
    assert_eq!(iter.size_hint(), (4, Some(4)));

    // Take one from front
    let (_, front_val) = iter.next().unwrap();
    assert_eq!(iter.size_hint(), (3, Some(3)));

    // Take one from back
    let (_, back_val) = iter.next_back().unwrap();
    assert_eq!(iter.size_hint(), (2, Some(2)));

    // Take another from front
    let (_, front_val2) = iter.next().unwrap();
    assert_eq!(iter.size_hint(), (1, Some(1)));

    // Take last from back
    let (_, back_val2) = iter.next_back().unwrap();
    assert_eq!(iter.size_hint(), (0, Some(0)));

    // Should be exhausted
    assert_eq!(iter.next(), None);
    assert_eq!(iter.next_back(), None);

    // Verify we got different values
    let all_values = vec![front_val, front_val2, back_val2, back_val];
    let unique_values: HashSet<_> = all_values.iter().collect();
    assert_eq!(unique_values.len(), 4);
}

#[test]
fn test_iterator_path_reconstruction() {
    let mut trie: Trie<[u8], String, 16> = Trie::new();

    // Insert some byte arrays
    trie.insert(&[0x12], "value_12".to_string());
    trie.insert(&[0x34, 0x56], "value_3456".to_string());
    trie.insert(&[], "value_empty".to_string());

    let mut iter = trie.iter();
    let mut items = Vec::new();
    while let Some(item) = iter.next() {
        items.push(item);
    }
    assert_eq!(items.len(), 3);

    // Verify paths match the original keys
    for (path, value) in items {
        if value == &"value_12".to_string() {
            assert_eq!(path, [0x12u8].build_path());
        } else if value == &"value_3456".to_string() {
            assert_eq!(path, [0x34u8, 0x56u8].build_path());
        } else if value == &"value_empty".to_string() {
            assert_eq!(path, [0u8; 0].build_path());
        } else {
            panic!("Unexpected value: {}", value);
        }
    }
}

#[test]
fn test_iterator_lexicographic_order() {
    let mut trie: Trie<str, String, 16> = Trie::new();

    // Insert in non-lexicographic order
    trie.insert("zebra", "zebra".to_string());
    trie.insert("apple", "apple".to_string());
    trie.insert("banana", "banana".to_string());
    trie.insert("cherry", "cherry".to_string());

    // Forward iteration should be in lexicographic order
    let forward_values: Vec<String> = forward(trie.iter()).into_iter().map(|(_, v)| v.clone()).collect();
    let mut expected = forward_values.clone();
    expected.sort();
    assert_eq!(forward_values, expected);

    // Backward iteration should be in reverse lexicographic order
    let backward_values: Vec<String> = backward(trie.iter()).into_iter().map(|(_, v)| v.clone()).collect();
    let mut expected_rev = expected;
    expected_rev.reverse();
    assert_eq!(backward_values, expected_rev);
}

#[test]
fn test_iterator_with_common_prefixes() {
    let mut trie: Trie<str, String, 16> = Trie::new();

    // Insert words with common prefixes
    trie.insert("test", "test".to_string());
    trie.insert("testing", "testing".to_string());
    trie.insert("tester", "tester".to_string());
    trie.insert("tea", "tea".to_string());
    trie.insert("team", "team".to_string());

    let all_items: Vec<String> = forward(trie.iter()).into_iter().map(|(_, v)| v.clone()).collect();
    assert_eq!(all_items.len(), 5);

    // Should be in lexicographic order
    let mut expected = all_items.clone();
    expected.sort();
    assert_eq!(all_items, expected);

    // Test that we can iterate both ways and get all items
    let forward_count = forward(trie.iter()).len();
    let backward_count = backward(trie.iter()).len();
    assert_eq!(forward_count, 5);
    assert_eq!(backward_count, 5);
}
