use std::path::PathBuf;

use sylph::config::DocBucketConfig;
use sylph::index::gap_list::{Column, GapVec};
use sylph::index::ngram_tries::NgramTreeNode;
use sylph::index::term_trie::TermTrieNode;
use sylph::index::TreeNode;

fn make_config(ranges: Vec<u64>) -> DocBucketConfig {
    DocBucketConfig {
        bucket_ranges: ranges,
        threshold: 0,
        article_count: 0,
        path: PathBuf::from("/tmp/test"),
    }
}

#[test]
fn test_get_index_active_bucket() {
    let config = make_config(vec![30000, 67100]);
    // Article 67101 lies in the active bucket (bucket 2) at offset 67101 - 67100 - 1 = 0.
    assert_eq!(config.get_index(67101), (2, 0));
    // Article 99999 lies in the active bucket at offset 99999 - 67100 - 1 = 32898.
    assert_eq!(config.get_index(99999), (2, 99999 - 67100 - 1));
}

#[test]
fn gap_vec() {
    let list = vec![0u64, 1, 3, 7, 262, 517, 9999, 19999, 199999, 202608, 260831];
    let gap_list = GapVec::new(list.clone()).gaps;
    let gap_vec = GapVec::new(list.clone());
    assert!(matches!(gap_list, Column::Uint16(_)));
    let list_2 = gap_vec.into_list();
    assert_eq!(list, list_2);
}

#[test]
fn ngram_tree_node() {
    // Normal mode.
    let mut node = NgramTreeNode::new(1);
    node.insert(1, Some(1));
    assert!(!node.find(1, None));
    assert!(!node.find(2, None));
    assert!(node.find(1, Some(1)));
    // Insert a mid alone.
    node.insert(2, None);
    assert!(!node.find(1, Some(2)));
    assert!(!node.find(2, Some(1)));
    assert!(!node.find(1, None));
    assert!(node.find(2, None));
    assert!(!node.include_prefix());
    assert_eq!(node.0, vec![1u32, 0, 5, 1, 2, 8, 10, 11, 0, 1, 1]);
    node.add_prefix();
    assert!(node.include_prefix());
    assert_eq!(node.0, vec![1u32, 1, 5, 1, 2, 8, 10, 11, 0, 1, 1]);
}

#[test]
fn term_trie_node() {
    // Insert a mid alone.
    let mut node = TermTrieNode::new();
    assert!(node.is_empty());
    node.insert(1, None);
    assert!(node.find(1, None));
    assert!(!node.find(2, None));
    assert!(!node.find(1, Some(1)));
    // Normal mode: insert a mid with a postfix.
    node.insert(2, Some(1));
    assert!(!node.find(1, Some(1)));
    assert!(node.find(2, Some(1)));
    assert!(node.find(2, None));
    assert_eq!(node.0, vec![3u32, 1, 2, 6, 6, 7, 1]);
}
