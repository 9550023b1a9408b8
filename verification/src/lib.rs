//! A language-tagged semantic pattern graph: nodes addressed by id, a
//! detector that files nodes under recognised idioms, a structural
//! fingerprint, and a registry that relates idioms to languages.

use vstd::prelude::*;

pub mod cross_language_patterns;
pub mod detection_lemmas;
pub mod digest;
pub mod kernel_error;
pub mod live_client;
pub mod message_lemmas;
pub mod metadata;
pub mod pattern_recognizer;
pub mod semantic_graph;
pub mod walk_lemmas;

verus! {

/// The idioms that the language registry and the analyzer speak of.
#[derive(Debug, Clone, Copy, PartialEq, Eq, Structural)]
pub enum PatternType {
    FibonacciLike,
    MapReduce,
    IteratorChain,
    Builder,
    RecursiveTree,
    WebEndpoint,
    Cacheable,
    DataProcessing,
    ConcurrentTasks,
    MathematicalComputation,
    StringProcessing,
    FileIO,
    NetworkRequest,
    DatabaseQuery,
    DataProcessor,
}

/// The idiom that a numeric bucket code stands for: the code is reduced
/// modulo seven and looked up in a fixed order.
pub open spec fn pattern_of_code(code: u64) -> PatternType {
    let r = code % 7;
    if r == 0 {
        PatternType::FibonacciLike
    } else if r == 1 {
        PatternType::MapReduce
    } else if r == 2 {
        PatternType::IteratorChain
    } else if r == 3 {
        PatternType::Builder
    } else if r == 4 {
        PatternType::RecursiveTree
    } else if r == 5 {
        PatternType::WebEndpoint
    } else {
        PatternType::Cacheable
    }
}

/// Decodes a bucket code into the idiom it stands for.
pub fn hash_to_pattern(hash: u64) -> (pattern: PatternType)
    ensures
        pattern == pattern_of_code(hash),
{
    let r: u64 = hash % 7;
    if r == 0 {
        PatternType::FibonacciLike
    } else if r == 1 {
        PatternType::MapReduce
    } else if r == 2 {
        PatternType::IteratorChain
    } else if r == 3 {
        PatternType::Builder
    } else if r == 4 {
        PatternType::RecursiveTree
    } else if r == 5 {
        PatternType::WebEndpoint
    } else {
        PatternType::Cacheable
    }
}

} // verus!
