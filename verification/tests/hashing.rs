use semantic_compiler::digest::digest_prefix;
use semantic_compiler::metadata::Metadata;
use semantic_compiler::semantic_graph::{NodeType, SemanticGraph, SemanticNode};

fn leaf(id: u64, language: &str, pattern_hash: u64) -> SemanticNode {
    SemanticNode {
        id,
        node_type: NodeType::Variable,
        children: Vec::new(),
        metadata: Metadata::new(),
        language: language.to_string(),
        pattern_hash,
    }
}

fn inner(id: u64, children: Vec<u64>, pattern_hash: u64) -> SemanticNode {
    SemanticNode {
        id,
        node_type: NodeType::Function,
        children,
        metadata: Metadata::new(),
        language: "rust".to_string(),
        pattern_hash,
    }
}

fn two_leaves(roots: &[u64]) -> SemanticGraph {
    let mut graph = SemanticGraph::new("rust");
    graph.add_node(leaf(1, "rust", 10));
    graph.add_node(leaf(2, "rust", 20));
    for root in roots {
        graph.add_root(*root);
    }
    graph
}

fn expected_hash(message: &[u8]) -> u64 {
    let digest = blake3::hash(message);
    let mut head = [0u8; 8];
    head.copy_from_slice(&digest.as_bytes()[0..8]);
    u64::from_le_bytes(head)
}

#[test]
fn digest_prefix_reads_little_endian() {
    let mut digest = [0u8; 32];
    digest[0] = 0x01;
    digest[1] = 0x02;
    digest[7] = 0x80;
    digest[8] = 0xff;
    assert_eq!(digest_prefix(&digest), 0x8000_0000_0000_0201);
}

#[test]
fn empty_graph_hashes_the_empty_message() {
    let graph = SemanticGraph::new("rust");
    assert_eq!(graph.hash_message(), Vec::<u8>::new());
    assert_eq!(graph.calculate_semantic_hash(), expected_hash(b""));
    assert_eq!(graph.calculate_semantic_hash(), 0xa6a1_f9f5_b949_13af);
}

#[test]
fn message_of_a_small_tree() {
    let mut graph = SemanticGraph::new("rust");
    graph.add_node(inner(1, vec![2, 3], 100));
    graph.add_node(leaf(2, "rust", 200));
    graph.add_node(leaf(3, "rust", 300));
    graph.add_root(1);
    let mut expected = Vec::new();
    expected.extend_from_slice(&1u64.to_le_bytes());
    expected.extend_from_slice(b"rust");
    expected.extend_from_slice(&100u64.to_le_bytes());
    expected.extend_from_slice(&200u64.to_le_bytes());
    expected.extend_from_slice(&300u64.to_le_bytes());
    assert_eq!(graph.hash_message(), expected);
    assert_eq!(graph.calculate_semantic_hash(), expected_hash(&expected));
}

#[test]
fn shared_subtree_is_fed_once_per_parent() {
    let mut graph = SemanticGraph::new("rust");
    graph.add_node(inner(1, vec![2, 3], 1));
    graph.add_node(inner(2, vec![4], 2));
    graph.add_node(inner(3, vec![4], 3));
    graph.add_node(leaf(4, "rust", 4));
    graph.add_root(1);
    let mut expected = Vec::new();
    expected.extend_from_slice(&1u64.to_le_bytes());
    expected.extend_from_slice(b"rust");
    for value in [1u64, 2, 4, 3, 4] {
        expected.extend_from_slice(&value.to_le_bytes());
    }
    assert_eq!(graph.hash_message(), expected);
}

#[test]
fn a_cycle_is_walked_once() {
    let mut graph = SemanticGraph::new("rust");
    graph.add_node(inner(1, vec![2], 1));
    graph.add_node(inner(2, vec![1], 2));
    graph.add_root(1);
    let mut expected = Vec::new();
    expected.extend_from_slice(&1u64.to_le_bytes());
    expected.extend_from_slice(b"rust");
    expected.extend_from_slice(&1u64.to_le_bytes());
    expected.extend_from_slice(&2u64.to_le_bytes());
    assert_eq!(graph.hash_message(), expected);
    assert_eq!(graph.calculate_semantic_hash(), expected_hash(&expected));
}

#[test]
fn hash_is_the_same_when_asked_twice() {
    let graph = two_leaves(&[1, 2]);
    assert_eq!(graph.calculate_semantic_hash(), graph.calculate_semantic_hash());
    let again = two_leaves(&[1, 2]);
    assert_eq!(graph.calculate_semantic_hash(), again.calculate_semantic_hash());
}

#[test]
fn root_order_changes_the_hash() {
    let forward = two_leaves(&[1, 2]);
    let backward = two_leaves(&[2, 1]);
    assert_ne!(forward.hash_message(), backward.hash_message());
    assert_ne!(forward.calculate_semantic_hash(), backward.calculate_semantic_hash());
}

#[test]
fn pattern_hash_changes_the_hash() {
    let before = two_leaves(&[1, 2]);
    let mut after = two_leaves(&[1, 2]);
    after.add_node(leaf(2, "rust", 21));
    assert_ne!(before.calculate_semantic_hash(), after.calculate_semantic_hash());
}

#[test]
fn language_of_a_root_changes_the_hash() {
    let before = two_leaves(&[1]);
    let mut after = two_leaves(&[1]);
    after.add_node(leaf(1, "ruby", 10));
    assert_ne!(before.calculate_semantic_hash(), after.calculate_semantic_hash());
}

#[test]
fn metadata_and_its_order_do_not_change_the_hash() {
    let plain = two_leaves(&[1, 2]);
    let mut one = two_leaves(&[1, 2]);
    let mut node = leaf(1, "rust", 10);
    node.metadata.insert("a".to_string(), "1".to_string());
    node.metadata.insert("b".to_string(), "2".to_string());
    one.add_node(node);
    let mut other = two_leaves(&[1, 2]);
    let mut node = leaf(1, "rust", 10);
    node.metadata.insert("b".to_string(), "2".to_string());
    node.metadata.insert("a".to_string(), "1".to_string());
    other.add_node(node);
    assert_eq!(one.calculate_semantic_hash(), other.calculate_semantic_hash());
    assert_eq!(one.calculate_semantic_hash(), plain.calculate_semantic_hash());
}

#[test]
fn missing_root_contributes_nothing() {
    let with_missing = two_leaves(&[1, 99, 2]);
    let without = two_leaves(&[1, 2]);
    assert_eq!(with_missing.hash_message(), without.hash_message());
    assert_eq!(with_missing.calculate_semantic_hash(), without.calculate_semantic_hash());
}

#[test]
fn unicode_language_is_fed_as_utf8() {
    let mut graph = SemanticGraph::new("x");
    graph.add_node(leaf(1, "\u{e9}", 0));
    graph.add_root(1);
    let mut expected = Vec::new();
    expected.extend_from_slice(&1u64.to_le_bytes());
    expected.extend_from_slice(&[0xc3, 0xa9]);
    expected.extend_from_slice(&0u64.to_le_bytes());
    assert_eq!(graph.hash_message(), expected);
}
