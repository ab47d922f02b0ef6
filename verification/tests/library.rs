use std::path::PathBuf;

use ahash::AHashMap;
use sylph::config::DocBucketConfig;
use sylph::data::{Data, DocBucket};
use sylph::index::gap_list::{estimate_bits, Column, GapVec};
use sylph::index::ngram_tries::NgramTreeNode;
use sylph::index::term_trie::{TermTrie, TermTrieNode};
use sylph::index::TreeNode;
use sylph::storage::bucket::AddDocStep;
use sylph::error::StoreError;
use sylph::storage::{bucket_bytes, from_serialized};
use sylph::tokenizer::{assign_ids, generate_ngrams, lookup_ids, split_into_sentences};

fn words(lines: &[&[&str]]) -> Vec<Vec<String>> {
    lines.iter().map(|l| l.iter().map(|w| w.to_string()).collect()).collect()
}

#[test]
fn split_sentences_words_and_characters() {
    let out = split_into_sentences("Hello, world! 你好 e-mail");
    assert_eq!(out, words(&[&["Hello"], &["world"], &["你", "好", "e-mail"]]));
}

#[test]
fn split_edge_cases() {
    assert!(split_into_sentences("").is_empty());
    assert!(split_into_sentences("...!?").is_empty());
    assert_eq!(split_into_sentences("--"), words(&[&["--"]]));
    assert_eq!(split_into_sentences("a  b"), words(&[&["a", "b"]]));
    assert_eq!(split_into_sentences("中文。abc"), words(&[&["中", "文"], &["abc"]]));
}

#[test]
fn split_never_yields_empty_parts() {
    let out = split_into_sentences(" ,, a. ,b  c;; 字 ");
    for sentence in &out {
        assert!(!sentence.is_empty());
        for word in sentence {
            assert!(!word.is_empty());
            assert!(!word.contains(' '));
        }
    }
}

#[test]
fn assign_ids_gives_new_words_the_next_id() {
    let mut map: AHashMap<String, u32> = AHashMap::new();
    let mut len: u32 = 0;
    let ids = assign_ids(&mut map, &mut len, words(&[&["a", "b", "a"], &["c"]]));
    assert_eq!(ids, vec![vec![0, 1, 0], vec![2]]);
    assert_eq!(len, 3);
    assert_eq!(map.get("a"), Some(&0));
    let ids = assign_ids(&mut map, &mut len, words(&[&["b", "d"], &[]]));
    assert_eq!(ids, vec![vec![1, 3], vec![]]);
    assert_eq!(len, 4);
    assert_eq!(map.len(), 4);
}

#[test]
fn lookup_ids_skips_unknown_words_and_empty_lines() {
    let mut map: AHashMap<String, u32> = AHashMap::new();
    map.insert("a".to_string(), 0);
    map.insert("b".to_string(), 1);
    let ids = lookup_ids(&map, words(&[&["x"], &["a", "x", "b"], &[], &["b"]]));
    assert_eq!(ids, vec![vec![0, 1], vec![1]]);
}

#[test]
fn ngrams_of_short_and_long_lines() {
    let out = generate_ngrams(vec![vec![1], vec![1, 2], vec![1, 2, 3], vec![]]);
    assert_eq!(
        out,
        vec![vec![1], vec![1, 2], vec![1, 2], vec![2, 3], vec![1, 2, 3]]
    );
    // (n - 1) 2-grams and (n - 2) 3-grams for a line of n ids.
    let out = generate_ngrams(vec![vec![4, 5, 6, 7]]);
    assert_eq!(out.len(), 3 + 2);
    assert_eq!(out[3], vec![4, 5, 6]);
}

#[test]
fn gap_vec_small_gaps_without_patches() {
    let list = vec![0u64, 10, 1000, 1010];
    let gv = GapVec::new(list.clone());
    assert!(matches!(&gv.gaps, Column::Uint16(g) if *g == vec![10u16, 990, 10]));
    assert!(gv.patches.is_empty());
    assert_eq!(gv.patch_positions, vec![0]);
    assert_eq!(gv.first, 0);
    assert_eq!(gv.len, 4);
    assert_eq!(gv.into_list(), list);
}

#[test]
fn gap_vec_patches_a_large_gap() {
    let mut list: Vec<u64> = (0..20).collect();
    list.push(1019);
    list.push(1020);
    let gv = GapVec::new(list.clone());
    match &gv.gaps {
        Column::Uint8(g) => assert_eq!(g.len(), 20),
        _ => panic!("expected a u8 column"),
    }
    assert_eq!(gv.patches, vec![1019]);
    assert_eq!(gv.patch_positions, vec![0, 19]);
    assert_eq!(gv.into_list(), list);
}

#[test]
fn gap_vec_wide_gaps_and_single_value() {
    let list = vec![5u64, 5 + (1u64 << 40), 6 + (1u64 << 40)];
    let gv = GapVec::new(list.clone());
    assert_eq!(gv.into_list(), list);
    let gv = GapVec::new(vec![42]);
    assert_eq!(gv.len, 1);
    assert_eq!(gv.into_list(), vec![42]);
}

#[test]
fn estimate_bits_counts_patches() {
    assert_eq!(estimate_bits(255, 8, &[1, 2, 300]), (1, 2 * 8 + 128));
    assert_eq!(estimate_bits(65535, 16, &[1, 2, 300]), (0, 3 * 16));
    assert_eq!(estimate_bits(255, 8, &[]), (0, 0));
}

#[test]
fn term_node_keeps_sorted_layout() {
    let mut node = TermTrieNode::new();
    node.insert(5, Some(2));
    assert_eq!(node.0, vec![2u32, 5, 4, 5, 2]);
    node.insert(5, Some(1));
    assert_eq!(node.0, vec![2u32, 5, 4, 6, 1, 2]);
    node.insert(3, None);
    assert_eq!(node.0, vec![3u32, 3, 5, 6, 6, 8, 1, 2]);
    // Inserting what is stored changes nothing.
    node.insert(5, Some(1));
    node.insert(3, None);
    assert_eq!(node.0, vec![3u32, 3, 5, 6, 6, 8, 1, 2]);
    assert!(node.find(3, None));
    assert!(!node.find(3, Some(1)));
    assert!(node.find(5, Some(2)));
    assert!(!node.is_empty());
}

#[test]
fn ngram_node_flags() {
    let mut node = NgramTreeNode::new(7);
    node.insert(2, Some(5));
    assert!(!node.find(2, None));
    let before = node.0.clone();
    node.insert(2, Some(5));
    assert_eq!(node.0, before);
    node.insert(2, None);
    assert!(node.find(2, None));
    assert!(node.find(2, Some(5)));
    assert_eq!(node.0, vec![7u32, 0, 4, 2, 6, 8, 1, 5]);
}

#[test]
fn term_trie_grows_and_finds() {
    let mut trie = TermTrie::new();
    trie.insert(3, None, None);
    assert!(!trie.find(5, None, None));
    assert!(trie.find(3, None, None));
    trie.insert(1, Some(7), Some(9));
    assert!(trie.find(1, Some(7), Some(9)));
    assert!(trie.find(1, Some(7), None));
    assert!(!trie.find(1, Some(8), None));
    assert!(!trie.find(0, Some(7), None));
}

#[test]
fn add_doc_flushes_at_threshold_and_ids_locate_articles() {
    let mut config = DocBucketConfig::new(PathBuf::from("/tmp/sylph-test"));
    assert_eq!(config.threshold, 64 * 1024 * 1024);
    config.set_threshold(10);
    let mut bucket = DocBucket::new(0);
    assert!(matches!(bucket.add_doc("hello".to_string(), &mut config), AddDocStep::Stored(0)));
    assert_eq!(config.article_count, 1);
    match bucket.add_doc("world!".to_string(), &mut config) {
        AddDocStep::Flush { data: Data::DocBucket(full), article_id } => {
            assert_eq!(article_id, 1);
            assert_eq!(full.id, 0);
            assert_eq!(full.total_size, 11);
            assert_eq!(full.content, vec!["hello".to_string(), "world!".to_string()]);
            assert_eq!(config.record_flush(article_id), 1);
        }
        _ => panic!("expected a flush"),
    }
    assert_eq!(bucket.content.len(), 0);
    assert_eq!(bucket.id, 1);
    assert_eq!(bucket.id, config.bucket_ranges.len() as u64);
    assert_eq!(config.bucket_ranges, vec![1]);
    assert_eq!(config.article_count, 2);
    assert_eq!(config.get_index(0), (0, 0));
    assert_eq!(config.get_index(1), (0, 1));
    assert!(matches!(bucket.add_doc("你".to_string(), &mut config), AddDocStep::Stored(2)));
    assert_eq!(bucket.total_size, 3);
    assert_eq!(config.get_index(2), (bucket.id, 0));
}

#[test]
fn bucket_bytes_round_trip_through_rkyv() {
    let mut bucket = DocBucket::new(3);
    bucket.content.push("a".to_string());
    bucket.content.push("bc".to_string());
    let bytes = match bucket_bytes(&bucket) {
        Ok(b) => b,
        Err(_) => panic!("serialization failed"),
    };
    assert!(!bytes.is_empty());
    let back = rkyv::from_bytes::<Vec<String>, rkyv::rancor::Error>(&bytes).unwrap();
    assert_eq!(back, bucket.content);
}

#[test]
fn from_serialized_hands_on_bytes_and_errors() {
    match from_serialized(Ok(vec![7u8, 8, 9])) {
        Ok(bytes) => assert_eq!(bytes, vec![7u8, 8, 9]),
        Err(_) => panic!("serialized bytes must be handed on"),
    }
    let err = <rkyv::rancor::Error as rkyv::rancor::Source>::new(std::fmt::Error);
    assert!(matches!(from_serialized(Err(err)), Err(StoreError::Rkyv(_))));
}

#[test]
fn ngram_node_exact_arrays() {
    let mut node = NgramTreeNode::new(1);
    node.insert(1, Some(1));
    node.insert(2, None);
    assert_eq!(node.0, vec![1u32, 0, 5, 1, 2, 8, 10, 11, 0, 1, 1]);

    let mut node = NgramTreeNode::new(0);
    node.insert(5, None);
    node.insert(3, Some(7));
    assert_eq!(node.0, vec![0u32, 0, 5, 3, 5, 8, 10, 11, 0, 7, 1]);
}

#[test]
fn ngram_prefix_flag_only_from_add_prefix() {
    let mut node = NgramTreeNode::new(4);
    node.insert(1, None);
    node.insert(2, Some(3));
    assert!(!node.include_prefix());
    node.add_prefix();
    node.insert(5, Some(6));
    assert!(node.include_prefix());
}

#[test]
fn term_node_empty_until_first_insert() {
    let mut node = TermTrieNode::new();
    assert!(node.is_empty());
    node.insert(4, None);
    assert!(!node.is_empty());
}

#[test]
fn split_at_separator_joins_the_parts() {
    let a = "Hello world";
    let b = " 你好 e-mail";
    for sep in ['.', ',', '!', '。'] {
        let joined = format!("{a}{sep}{b}");
        let mut expected = split_into_sentences(a);
        expected.extend(split_into_sentences(b));
        assert_eq!(split_into_sentences(&joined), expected);
    }
    assert_eq!(
        split_into_sentences("Hello world, 你好!"),
        words(&[&["Hello", "world"], &["你", "好"]])
    );
}

#[test]
fn lookup_after_assign_gives_the_ids_back() {
    let mut map: AHashMap<String, u32> = AHashMap::new();
    map.insert("old".to_string(), 0);
    let mut len: u32 = 1;
    let ctx = words(&[&["new", "old"], &[], &["new", "more"]]);
    let assigned = assign_ids(&mut map, &mut len, ctx.clone());
    assert_eq!(assigned, vec![vec![1, 0], vec![], vec![1, 2]]);
    let expected: Vec<Vec<u32>> = assigned.into_iter().filter(|l| !l.is_empty()).collect();
    assert_eq!(lookup_ids(&map, ctx), expected);
}

#[test]
fn add_doc_second_flush_uses_the_next_bucket_id() {
    let mut config = DocBucketConfig::new(PathBuf::from("/tmp/sylph-test"));
    config.set_threshold(4);
    let mut bucket = DocBucket::new(0);
    let mut flushed: Vec<u64> = Vec::new();
    for doc in ["abcd", "efgh", "ij"] {
        match bucket.add_doc(doc.to_string(), &mut config) {
            AddDocStep::Flush { data: Data::DocBucket(full), article_id } => {
                flushed.push(full.id);
                config.record_flush(article_id);
            }
            AddDocStep::Stored(_) => {}
        }
        assert_eq!(bucket.id, config.bucket_ranges.len() as u64);
    }
    assert_eq!(flushed, vec![0, 1]);
    assert_eq!(config.bucket_ranges, vec![0, 1]);
    assert_eq!(config.get_index(2), (bucket.id, 0));
    assert_eq!(bucket.id, 2);
}
