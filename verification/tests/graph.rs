use semantic_compiler::metadata::Metadata;
use semantic_compiler::semantic_graph::{NodeType, PatternType, SemanticGraph, SemanticNode};

fn node(id: u64, node_type: NodeType, children: Vec<u64>, pattern_hash: u64) -> SemanticNode {
    SemanticNode {
        id,
        node_type,
        children,
        metadata: Metadata::new(),
        language: "rust".to_string(),
        pattern_hash,
    }
}

#[test]
fn new_graph_is_empty() {
    let graph = SemanticGraph::new("python");
    assert_eq!(graph.language, "python");
    assert!(graph.nodes.is_empty());
    assert!(graph.root_nodes.is_empty());
    assert!(graph.pattern_cache.is_empty());
}

#[test]
fn add_node_returns_id_and_replaces() {
    let mut graph = SemanticGraph::new("rust");
    assert_eq!(graph.add_node(node(7, NodeType::Variable, vec![], 1)), 7);
    assert_eq!(graph.add_node(node(7, NodeType::Loop, vec![1], 2)), 7);
    assert_eq!(graph.nodes.len(), 1);
    assert_eq!(graph.nodes[&7].node_type, NodeType::Loop);
    assert_eq!(graph.nodes[&7].pattern_hash, 2);
}

#[test]
fn add_root_appends_without_checks() {
    let mut graph = SemanticGraph::new("rust");
    graph.add_root(3);
    graph.add_root(3);
    graph.add_root(1);
    assert_eq!(graph.root_nodes, vec![3, 3, 1]);
}

#[test]
fn pattern_codes_follow_declaration_order() {
    assert_eq!(PatternType::FibonacciLike.code(), 0);
    assert_eq!(PatternType::MapReduce.code(), 1);
    assert_eq!(PatternType::Builder.code(), 2);
    assert_eq!(PatternType::IteratorChain.code(), 3);
    assert_eq!(PatternType::RecursiveTree.code(), 4);
    assert_eq!(PatternType::Cacheable.code(), 5);
    assert_eq!(PatternType::DataProcessor.code(), 6);
    assert_eq!(PatternType::WebEndpoint.code(), 7);
    assert_eq!(PatternType::DatabaseQuery.code(), 8);
}

#[test]
fn direct_cycle_is_recursive() {
    let mut graph = SemanticGraph::new("rust");
    graph.add_node(node(1, NodeType::Function, vec![1], 0));
    let mut visited = Vec::new();
    assert!(graph.has_recursive_structure(1, &mut visited));
    assert_eq!(visited, vec![1]);
}

#[test]
fn indirect_cycle_is_recursive() {
    let mut graph = SemanticGraph::new("rust");
    graph.add_node(node(1, NodeType::Function, vec![2], 0));
    graph.add_node(node(2, NodeType::Function, vec![3], 0));
    graph.add_node(node(3, NodeType::Function, vec![1], 0));
    let mut visited = Vec::new();
    assert!(graph.has_recursive_structure(1, &mut visited));
    assert_eq!(visited, vec![1, 2, 3]);
}

#[test]
fn acyclic_two_child_function_is_not_recursive() {
    let mut graph = SemanticGraph::new("rust");
    graph.add_node(node(1, NodeType::Function, vec![2, 3], 0));
    graph.add_node(node(2, NodeType::Variable, vec![], 0));
    graph.add_node(node(3, NodeType::Variable, vec![], 0));
    let mut visited = Vec::new();
    assert!(!graph.has_recursive_structure(1, &mut visited));
    assert_eq!(visited, vec![1, 2, 3]);
    assert_eq!(graph.analyze_node_pattern(&graph.nodes[&1]), None);
}

#[test]
fn shared_subtree_counts_as_recursive() {
    let mut graph = SemanticGraph::new("rust");
    graph.add_node(node(1, NodeType::Function, vec![2, 3], 0));
    graph.add_node(node(2, NodeType::Variable, vec![4], 0));
    graph.add_node(node(3, NodeType::Variable, vec![4], 0));
    graph.add_node(node(4, NodeType::Variable, vec![], 0));
    let mut visited = Vec::new();
    assert!(graph.has_recursive_structure(1, &mut visited));
    assert_eq!(visited, vec![1, 2, 4, 3]);
}

#[test]
fn dangling_children_are_leaves() {
    let mut graph = SemanticGraph::new("rust");
    graph.add_node(node(1, NodeType::Function, vec![8, 9], 5));
    let mut visited = Vec::new();
    assert!(!graph.has_recursive_structure(1, &mut visited));
    assert_eq!(visited, vec![1, 8, 9]);
    graph.add_root(1);
    graph.add_root(42);
    let mut expected = Vec::new();
    expected.extend_from_slice(&1u64.to_le_bytes());
    expected.extend_from_slice(b"rust");
    expected.extend_from_slice(&5u64.to_le_bytes());
    assert_eq!(graph.hash_message(), expected);
}

#[test]
fn a_seen_start_is_found_at_once() {
    let graph = SemanticGraph::new("rust");
    let mut visited = vec![4, 5];
    assert!(graph.has_recursive_structure(5, &mut visited));
    assert_eq!(visited, vec![4, 5]);
}

#[test]
fn control_flow_with_four_children_is_map_reduce() {
    let mut graph = SemanticGraph::new("rust");
    graph.add_node(node(1, NodeType::ControlFlow, vec![2, 3, 4, 5], 0));
    graph.detect_patterns();
    assert_eq!(graph.pattern_cache.len(), 1);
    assert_eq!(graph.pattern_cache[&PatternType::MapReduce.code()], vec![1]);
    assert_eq!(graph.pattern_cache[&1], vec![1]);
}

#[test]
fn control_flow_with_three_children_is_unclassified() {
    let mut graph = SemanticGraph::new("rust");
    graph.add_node(node(1, NodeType::ControlFlow, vec![2, 3, 4], 0));
    graph.detect_patterns();
    assert!(graph.pattern_cache.is_empty());
}

#[test]
fn cyclic_function_with_one_child_is_unclassified() {
    let mut graph = SemanticGraph::new("python");
    let mut first = node(1, NodeType::Function, vec![2], 0);
    first.language = "python".to_string();
    let mut second = node(2, NodeType::Variable, vec![1], 0);
    second.language = "python".to_string();
    graph.add_node(first);
    graph.add_node(second);
    assert_eq!(graph.analyze_node_pattern(&graph.nodes[&1]), None);
    graph.detect_patterns();
    assert!(graph.pattern_cache.is_empty());
}

#[test]
fn cyclic_function_with_two_children_is_fibonacci_like() {
    let mut graph = SemanticGraph::new("python");
    graph.add_node(node(1, NodeType::Function, vec![2, 3], 0));
    graph.add_node(node(2, NodeType::Variable, vec![1], 0));
    graph.detect_patterns();
    assert_eq!(graph.pattern_cache[&PatternType::FibonacciLike.code()], vec![1]);
    assert_eq!(graph.pattern_cache.len(), 1);
}

#[test]
fn marked_function_is_map_reduce() {
    let mut graph = SemanticGraph::new("python");
    let mut marked = node(1, NodeType::Function, vec![2, 3], 0);
    marked.metadata.insert("operation".to_string(), "map_reduce".to_string());
    let mut other = node(4, NodeType::Function, vec![5, 6], 0);
    other.metadata.insert("operation".to_string(), "filter".to_string());
    graph.add_node(marked);
    graph.add_node(other);
    graph.detect_patterns();
    assert_eq!(graph.pattern_cache.len(), 1);
    assert_eq!(graph.pattern_cache[&1], vec![1]);
}

#[test]
fn function_with_one_child_is_unclassified() {
    let mut graph = SemanticGraph::new("python");
    let mut marked = node(1, NodeType::Function, vec![1], 0);
    marked.metadata.insert("operation".to_string(), "map_reduce".to_string());
    graph.add_node(marked);
    graph.detect_patterns();
    assert!(graph.pattern_cache.is_empty());
}

#[test]
fn tagged_node_is_filed_under_its_tag() {
    let mut graph = SemanticGraph::new("rust");
    graph.add_node(node(9, NodeType::Pattern(PatternType::DatabaseQuery), vec![], 0));
    graph.detect_patterns();
    assert_eq!(graph.pattern_cache[&8], vec![9]);
}

#[test]
fn detection_twice_appends_again() {
    let mut graph = SemanticGraph::new("rust");
    graph.add_node(node(9, NodeType::Pattern(PatternType::Builder), vec![], 0));
    graph.detect_patterns();
    graph.detect_patterns();
    assert_eq!(graph.pattern_cache[&2], vec![9, 9]);
}

#[test]
fn detection_files_every_classified_node_once() {
    let mut graph = SemanticGraph::new("rust");
    for id in 0..20u64 {
        graph.add_node(node(id, NodeType::Pattern(PatternType::Cacheable), vec![], 0));
    }
    graph.add_node(node(100, NodeType::Variable, vec![], 0));
    graph.detect_patterns();
    let mut bucket = graph.pattern_cache[&5].clone();
    bucket.sort();
    assert_eq!(bucket, (0..20u64).collect::<Vec<u64>>());
    assert_eq!(graph.pattern_cache.len(), 1);
}

#[test]
fn node_ids_names_each_node_once() {
    let mut graph = SemanticGraph::new("rust");
    graph.add_node(node(3, NodeType::Variable, vec![], 0));
    graph.add_node(node(1, NodeType::Variable, vec![], 0));
    graph.add_node(node(2, NodeType::Variable, vec![], 0));
    let mut ids = graph.node_ids();
    ids.sort();
    assert_eq!(ids, vec![1, 2, 3]);
}

#[test]
fn end_to_end_python_cycle() {
    let mut graph = SemanticGraph::new("python");
    let mut first = node(1, NodeType::Function, vec![2, 3], 11);
    first.language = "python".to_string();
    let mut second = node(2, NodeType::Variable, vec![1], 12);
    second.language = "python".to_string();
    graph.add_node(first);
    graph.add_node(second);
    graph.add_root(1);
    graph.detect_patterns();
    assert_eq!(graph.pattern_cache[&0], vec![1]);
    assert_eq!(graph.pattern_cache.len(), 1);
}

#[test]
fn end_to_end_rust_control_flow() {
    let mut graph = SemanticGraph::new("rust");
    graph.add_node(node(1, NodeType::ControlFlow, vec![2, 3, 4, 5], 0));
    graph.detect_patterns();
    assert_eq!(graph.pattern_cache[&PatternType::MapReduce.code()], vec![1]);
}
