use semantic_compiler::cross_language_patterns::{CrossLanguageAnalyzer, ProjectAnalysis};
use semantic_compiler::hash_to_pattern;
use semantic_compiler::kernel_error::KernelError;
use semantic_compiler::live_client::LiveClient;
use semantic_compiler::metadata::{key_order, str_equal, KeyOrder, Metadata};
use semantic_compiler::pattern_recognizer::PatternRecognizer;
use semantic_compiler::semantic_graph::{NodeType, SemanticGraph, SemanticNode};
use semantic_compiler::PatternType;

fn tagged(id: u64, tag: semantic_compiler::semantic_graph::PatternType) -> SemanticNode {
    SemanticNode {
        id,
        node_type: NodeType::Pattern(tag),
        children: Vec::new(),
        metadata: Metadata::new(),
        language: "rust".to_string(),
        pattern_hash: id,
    }
}

#[test]
fn test_error_display() {
    let error = KernelError::HardwareUnsupported { feature: "avx512".to_string() };
    assert!(format!("{}", error.to_string()).contains("avx512"));
}

#[test]
fn error_texts() {
    let context = "ctx".to_string();
    assert_eq!(
        KernelError::AllocationError { context: context.clone() }.to_string(),
        "memory allocation failed: ctx"
    );
    assert_eq!(
        KernelError::SyscallError { context: context.clone() }.to_string(),
        "system call failed: ctx"
    );
    assert_eq!(
        KernelError::HardwareUnsupported { feature: "avx512".to_string() }.to_string(),
        "hardware feature not supported: avx512"
    );
    assert_eq!(
        KernelError::OptimizationError { reason: "r".to_string() }.to_string(),
        "performance optimization not applicable: r"
    );
    assert_eq!(
        KernelError::InteropError { details: String::new() }.to_string(),
        "cross-language call failed: "
    );
}

#[test]
fn codes_decode_modulo_seven() {
    assert_eq!(hash_to_pattern(0), PatternType::FibonacciLike);
    assert_eq!(hash_to_pattern(1), PatternType::MapReduce);
    assert_eq!(hash_to_pattern(2), PatternType::IteratorChain);
    assert_eq!(hash_to_pattern(3), PatternType::Builder);
    assert_eq!(hash_to_pattern(4), PatternType::RecursiveTree);
    assert_eq!(hash_to_pattern(5), PatternType::WebEndpoint);
    assert_eq!(hash_to_pattern(6), PatternType::Cacheable);
    assert_eq!(hash_to_pattern(7), PatternType::FibonacciLike);
    assert_eq!(hash_to_pattern(u64::MAX), PatternType::MapReduce);
    let recognizer = PatternRecognizer::new();
    assert_eq!(recognizer.hash_to_pattern(10), PatternType::Builder);
    assert_eq!(CrossLanguageAnalyzer.hash_to_pattern(12), PatternType::WebEndpoint);
}

#[test]
fn registry_has_three_languages() {
    let recognizer = PatternRecognizer::new();
    assert_eq!(recognizer.get_supported_languages(), vec!["rust", "python", "javascript"]);
}

#[test]
fn suggestion_for_a_registered_pattern() {
    let recognizer = PatternRecognizer::new();
    assert_eq!(
        recognizer.suggest_optimal_language(PatternType::FibonacciLike),
        Some("rust".to_string())
    );
    assert_eq!(
        recognizer.suggest_optimal_language(PatternType::DataProcessor),
        Some("python".to_string())
    );
    assert_eq!(
        recognizer.suggest_optimal_language(PatternType::Cacheable),
        Some("javascript".to_string())
    );
    let shared = recognizer.suggest_optimal_language(PatternType::MapReduce);
    assert!(shared == Some("python".to_string()) || shared == Some("javascript".to_string()));
    assert_eq!(shared, Some("javascript".to_string()));
}

#[test]
fn no_suggestion_for_an_unregistered_pattern() {
    let recognizer = PatternRecognizer::new();
    assert_eq!(recognizer.suggest_optimal_language(PatternType::FileIO), None);
    assert_eq!(recognizer.suggest_optimal_language(PatternType::DatabaseQuery), None);
}

#[test]
fn language_support() {
    let recognizer = PatternRecognizer::new();
    assert!(recognizer.language_supports("rust", PatternType::Builder));
    assert!(!recognizer.language_supports("rust", PatternType::MapReduce));
    assert!(!recognizer.language_supports("go", PatternType::Builder));
}

#[test]
fn recognizes_patterns_of_registered_languages() {
    let recognizer = PatternRecognizer::new();
    let mut rust = SemanticGraph::new("rust");
    // Filed under code 0, which decodes to FibonacciLike: rust is strong in it.
    rust.add_node(tagged(1, semantic_compiler::semantic_graph::PatternType::FibonacciLike));
    rust.add_node(tagged(2, semantic_compiler::semantic_graph::PatternType::FibonacciLike));
    // Filed under code 1, which decodes to MapReduce: rust is not.
    rust.add_node(tagged(3, semantic_compiler::semantic_graph::PatternType::MapReduce));
    rust.add_root(1);
    rust.detect_patterns();
    let mut go = SemanticGraph::new("go");
    go.add_node(tagged(1, semantic_compiler::semantic_graph::PatternType::FibonacciLike));
    go.detect_patterns();
    let mut python = SemanticGraph::new("python");
    python.add_node(tagged(5, semantic_compiler::semantic_graph::PatternType::MapReduce));
    python.detect_patterns();

    let found = recognizer.recognize_cross_language_patterns(vec![&rust, &go, &python]);
    assert_eq!(found.len(), 2);
    assert_eq!(found[0].pattern_type, PatternType::FibonacciLike);
    assert_eq!(found[0].language, "rust");
    assert_eq!(found[0].node_count, 2);
    assert_eq!(found[0].semantic_hash, rust.calculate_semantic_hash());
    assert_eq!(found[1].pattern_type, PatternType::MapReduce);
    assert_eq!(found[1].language, "python");
    assert_eq!(found[1].node_count, 1);
    assert_eq!(found[1].semantic_hash, python.calculate_semantic_hash());
}

#[test]
fn recognizes_nothing_without_graphs_or_buckets() {
    let recognizer = PatternRecognizer::new();
    assert!(recognizer.recognize_cross_language_patterns(Vec::new()).is_empty());
    let rust = SemanticGraph::new("rust");
    assert!(recognizer.recognize_cross_language_patterns(vec![&rust]).is_empty());
}

#[test]
fn cache_codes_decode_by_their_own_order() {
    // Builder is filed under code 2, and code 2 decodes to IteratorChain.
    let recognizer = PatternRecognizer::new();
    let mut rust = SemanticGraph::new("rust");
    rust.add_node(tagged(1, semantic_compiler::semantic_graph::PatternType::Builder));
    rust.detect_patterns();
    let found = recognizer.recognize_cross_language_patterns(vec![&rust]);
    assert_eq!(found.len(), 1);
    assert_eq!(found[0].pattern_type, PatternType::IteratorChain);
}

#[test]
fn fixed_table_of_languages() {
    let analyzer = CrossLanguageAnalyzer;
    assert_eq!(analyzer.get_optimal_language(&PatternType::FibonacciLike), Some("rust".to_string()));
    assert_eq!(analyzer.get_optimal_language(&PatternType::MapReduce), Some("python".to_string()));
    assert_eq!(analyzer.get_optimal_language(&PatternType::IteratorChain), Some("rust".to_string()));
    assert_eq!(
        analyzer.get_optimal_language(&PatternType::WebEndpoint),
        Some("typescript".to_string())
    );
    assert_eq!(analyzer.get_optimal_language(&PatternType::DatabaseQuery), Some("rust".to_string()));
    assert_eq!(analyzer.get_optimal_language(&PatternType::DataProcessor), Some("python".to_string()));
    assert_eq!(analyzer.get_optimal_language(&PatternType::Builder), None);
    assert_eq!(analyzer.get_optimal_language(&PatternType::FileIO), None);
}

#[test]
fn gains_in_tenths() {
    let analyzer = CrossLanguageAnalyzer;
    assert_eq!(analyzer.estimate_performance_gain(&PatternType::FibonacciLike, "python", "rust"), 100);
    assert_eq!(analyzer.estimate_performance_gain(&PatternType::MapReduce, "javascript", "python"), 20);
    assert_eq!(analyzer.estimate_performance_gain(&PatternType::DatabaseQuery, "python", "rust"), 50);
    assert_eq!(analyzer.estimate_performance_gain(&PatternType::FibonacciLike, "rust", "python"), 15);
    assert_eq!(analyzer.estimate_performance_gain(&PatternType::Builder, "python", "rust"), 15);
}

#[test]
fn standing_migration_suggestions() {
    let analyzer = CrossLanguageAnalyzer;
    let graph = SemanticGraph::new("go");
    let suggestions = analyzer.suggest_migration_targets(&graph);
    assert_eq!(suggestions.len(), 2);
    assert_eq!(suggestions[0].pattern_type, PatternType::FibonacciLike);
    assert_eq!(suggestions[0].current_language, "python");
    assert_eq!(suggestions[0].suggested_language, "rust");
    assert_eq!(suggestions[0].node_count, 5);
    assert_eq!(suggestions[0].estimated_performance_gain_tenths, 100);
    assert_eq!(suggestions[1].pattern_type, PatternType::MapReduce);
    assert_eq!(suggestions[1].current_language, "javascript");
    assert_eq!(suggestions[1].suggested_language, "python");
    assert_eq!(suggestions[1].node_count, 3);
    assert_eq!(suggestions[1].estimated_performance_gain_tenths, 20);
}

#[test]
fn project_analysis_takes_in_a_graph() {
    let mut analysis = ProjectAnalysis::new();
    assert_eq!(analysis.languages, vec!["rust", "python"]);
    assert_eq!(analysis.patterns, vec![PatternType::FibonacciLike, PatternType::MapReduce]);
    let mut graph = SemanticGraph::new("javascript");
    graph.add_node(tagged(1, semantic_compiler::semantic_graph::PatternType::MapReduce));
    graph.add_node(tagged(2, semantic_compiler::semantic_graph::PatternType::RecursiveTree));
    graph.detect_patterns();
    analysis.add_language_analysis(graph);
    assert_eq!(analysis.languages, vec!["rust", "python", "javascript"]);
    assert_eq!(
        analysis.patterns,
        vec![PatternType::FibonacciLike, PatternType::MapReduce, PatternType::RecursiveTree]
    );
    analysis.optimize_language_boundaries();
    assert_eq!(analysis.suggested_optimizations.len(), 2);
    assert_eq!(
        analysis.suggested_optimizations[0].description,
        "Move Fibonacci-like computations from Python to Rust"
    );
    assert_eq!(analysis.suggested_optimizations[0].estimated_improvement_tenths, 100);
    assert_eq!(
        analysis.suggested_optimizations[1].description,
        "Move data processing from JavaScript to Python"
    );
    assert_eq!(analysis.suggested_optimizations[1].estimated_improvement_tenths, 20);
}

#[test]
fn project_analysis_of_any_graphs() {
    let analysis = CrossLanguageAnalyzer::analyze_multi_language_project(Vec::new());
    assert_eq!(analysis.languages, vec!["rust", "python"]);
    assert_eq!(analysis.suggested_optimizations.len(), 1);
    assert_eq!(analysis.suggested_optimizations[0].estimated_improvement_tenths, 100);
}

#[test]
fn new_client() {
    let client = LiveClient::new("url".to_string(), "s1".to_string(), "me".to_string());
    assert_eq!(client.server_url, "url");
    assert_eq!(client.session_id, "s1");
    assert_eq!(client.user_name, "me");
    assert_eq!(client.current_tab, 0);
    assert_eq!(client.terminal_content, "");
    assert_eq!(client.code_editor_content, "");
    assert_eq!(client.participants, vec!["Alice", "Bob"]);
    assert_eq!(client.compilation_status, "Ready");
    assert_eq!((client.cursor_line, client.cursor_column), (0, 0));
}

#[test]
fn metadata_is_a_map() {
    let mut metadata = Metadata::new();
    assert_eq!(metadata.len(), 0);
    assert_eq!(metadata.get("a"), None);
    assert_eq!(metadata.insert("a".to_string(), "1".to_string()), None);
    assert_eq!(metadata.insert("b".to_string(), "2".to_string()), None);
    assert_eq!(metadata.insert("a".to_string(), "3".to_string()), Some("1".to_string()));
    assert_eq!(metadata.len(), 2);
    assert_eq!(metadata.get("a"), Some(&"3".to_string()));
    assert_eq!(metadata.get("b"), Some(&"2".to_string()));
    assert!(metadata.contains_key("b"));
    assert!(!metadata.contains_key("c"));
    assert_eq!(metadata.clone().get("a"), Some(&"3".to_string()));
}

#[test]
fn metadata_does_not_show_insertion_order() {
    let mut one = Metadata::new();
    one.insert("operation".to_string(), "map_reduce".to_string());
    one.insert("author".to_string(), "x".to_string());
    one.insert("zeta".to_string(), "z".to_string());
    let mut other = Metadata::new();
    other.insert("zeta".to_string(), "z".to_string());
    other.insert("author".to_string(), "stale".to_string());
    other.insert("operation".to_string(), "map_reduce".to_string());
    other.insert("author".to_string(), "x".to_string());
    assert_eq!(one, other);
    other.insert("zeta".to_string(), "y".to_string());
    assert_ne!(one, other);
}

#[test]
fn nodes_are_equal_by_their_fields() {
    let mut first = tagged(1, semantic_compiler::semantic_graph::PatternType::Builder);
    let mut second = tagged(1, semantic_compiler::semantic_graph::PatternType::Builder);
    first.metadata.insert("a".to_string(), "1".to_string());
    first.metadata.insert("b".to_string(), "2".to_string());
    second.metadata.insert("b".to_string(), "2".to_string());
    second.metadata.insert("a".to_string(), "1".to_string());
    assert_eq!(first, second);
    second.pattern_hash = 2;
    assert_ne!(first, second);
}

#[test]
fn keys_are_ordered_by_their_bytes() {
    assert_eq!(key_order("a", "b"), KeyOrder::Before);
    assert_eq!(key_order("b", "a"), KeyOrder::After);
    assert_eq!(key_order("ab", "ab"), KeyOrder::Same);
    assert_eq!(key_order("a", "ab"), KeyOrder::Before);
    assert_eq!(key_order("ab", "a"), KeyOrder::After);
    assert_eq!(key_order("", ""), KeyOrder::Same);
    assert_eq!(key_order("", "a"), KeyOrder::Before);
    assert_eq!(key_order("Z", "a"), KeyOrder::Before);
    assert_eq!(key_order("z", "\u{e9}"), KeyOrder::Before);
    assert!(str_equal("map_reduce", "map_reduce"));
    assert!(!str_equal("map_reduce", "map_reduc"));
    assert!(!str_equal("map_reduce", "map_reducf"));
}

#[test]
fn metadata_lists_its_entries_in_key_order() {
    let mut metadata = Metadata::new();
    metadata.insert("b".to_string(), "2".to_string());
    metadata.insert("a".to_string(), "1".to_string());
    metadata.insert("c".to_string(), "3".to_string());
    metadata.insert("b".to_string(), "4".to_string());
    assert_eq!(
        metadata.to_vec(),
        vec![
            ("a".to_string(), "1".to_string()),
            ("b".to_string(), "4".to_string()),
            ("c".to_string(), "3".to_string()),
        ]
    );
}
