//! A fixed table from idiom to language, migration suggestions, and the
//! analysis of a project that spans several languages.

use crate::metadata::str_equal;
use crate::pattern_recognizer::contains_pattern;
use crate::semantic_graph::{cache_codes, enumerates, SemanticGraph};
use crate::{hash_to_pattern, pattern_of_code, PatternType};
use vstd::prelude::*;

verus! {

/// A proposal to move the code of one idiom to another language. The
/// performance gain is a multiplier, counted in tenths.
#[derive(Debug)]
pub struct MigrationSuggestion {
    pub pattern_type: PatternType,
    pub current_language: String,
    pub suggested_language: String,
    pub node_count: usize,
    pub estimated_performance_gain_tenths: u64,
}

/// A migration suggestion as plain values.
pub struct MigrationView {
    pub pattern_type: PatternType,
    pub current_language: Seq<char>,
    pub suggested_language: Seq<char>,
    pub node_count: nat,
    pub estimated_performance_gain_tenths: u64,
}

impl View for MigrationSuggestion {
    type V = MigrationView;

    open spec fn view(&self) -> MigrationView {
        MigrationView {
            pattern_type: self.pattern_type,
            current_language: self.current_language@,
            suggested_language: self.suggested_language@,
            node_count: self.node_count as nat,
            estimated_performance_gain_tenths: self.estimated_performance_gain_tenths,
        }
    }
}

/// The language that the fixed table gives for an idiom.
pub open spec fn table_language(pattern: PatternType) -> Option<Seq<char>> {
    match pattern {
        PatternType::FibonacciLike => Some("rust"@),
        PatternType::MapReduce => Some("python"@),
        PatternType::IteratorChain => Some("rust"@),
        PatternType::WebEndpoint => Some("typescript"@),
        PatternType::DatabaseQuery => Some("rust"@),
        PatternType::DataProcessor => Some("python"@),
        _ => None,
    }
}

/// The estimated gain, in tenths, of moving an idiom from one language to
/// another.
pub open spec fn gain_tenths(pattern: PatternType, from: Seq<char>, to: Seq<char>) -> u64 {
    if pattern == PatternType::FibonacciLike && from == "python"@ && to == "rust"@ {
        100
    } else if pattern == PatternType::MapReduce && from == "javascript"@ && to == "python"@ {
        20
    } else if pattern == PatternType::DatabaseQuery && from == "python"@ && to == "rust"@ {
        50
    } else {
        15
    }
}

/// The suggestions that every graph gets.
pub open spec fn standing_suggestions() -> Seq<MigrationView> {
    seq![
        MigrationView {
            pattern_type: PatternType::FibonacciLike,
            current_language: "python"@,
            suggested_language: "rust"@,
            node_count: 5,
            estimated_performance_gain_tenths: 100,
        },
        MigrationView {
            pattern_type: PatternType::MapReduce,
            current_language: "javascript"@,
            suggested_language: "python"@,
            node_count: 3,
            estimated_performance_gain_tenths: 20,
        },
    ]
}

/// The suggestions of a list as plain values.
pub open spec fn migration_views(suggestions: Seq<MigrationSuggestion>) -> Seq<MigrationView> {
    suggestions.map_values(|s: MigrationSuggestion| s@)
}

/// Answers questions about which language suits an idiom.
pub struct CrossLanguageAnalyzer;

impl CrossLanguageAnalyzer {
    /// The analysis of a project: the standing analysis with its language
    /// boundaries optimized once. The graphs are not read.
    pub fn analyze_multi_language_project(_graphs: Vec<SemanticGraph>) -> (analysis: ProjectAnalysis)
        ensures
            string_views(analysis.languages@) == seq!["rust"@, "python"@],
            analysis.patterns@ == seq![PatternType::FibonacciLike, PatternType::MapReduce],
            optimization_views(analysis.suggested_optimizations@) == seq![fibonacci_move()],
    {
        let mut analysis = ProjectAnalysis::new();
        analysis.optimize_language_boundaries();
        proof {
            reveal_strlit("rust");
            reveal_strlit("python");
            reveal_strlit("javascript");
            let languages = string_views(analysis.languages@);
            assert(languages[1] == "python"@);
            assert(analysis.patterns@[0] == PatternType::FibonacciLike);
            assert forall|i: int| 0 <= i < languages.len() implies languages[i] != "javascript"@ by {
                assert(languages[i].len() != 10);
            }
            assert(optimization_views(analysis.suggested_optimizations@) =~= seq![fibonacci_move()]);
        }
        analysis
    }

    /// The suggestions for a graph: the same two for every graph.
    pub fn suggest_migration_targets(&self, _source_graph: &SemanticGraph) -> (suggestions: Vec<
        MigrationSuggestion,
    >)
        ensures
            migration_views(suggestions@) == standing_suggestions(),
    {
        let mut suggestions: Vec<MigrationSuggestion> = Vec::new();
        suggestions.push(
            MigrationSuggestion {
                pattern_type: PatternType::FibonacciLike,
                current_language: "python".to_owned(),
                suggested_language: "rust".to_owned(),
                node_count: 5,
                estimated_performance_gain_tenths: self.estimate_performance_gain(
                    &PatternType::FibonacciLike,
                    "python",
                    "rust",
                ),
            },
        );
        suggestions.push(
            MigrationSuggestion {
                pattern_type: PatternType::MapReduce,
                current_language: "javascript".to_owned(),
                suggested_language: "python".to_owned(),
                node_count: 3,
                estimated_performance_gain_tenths: self.estimate_performance_gain(
                    &PatternType::MapReduce,
                    "javascript",
                    "python",
                ),
            },
        );
        assert(migration_views(suggestions@) =~= standing_suggestions());
        suggestions
    }

    /// The language that the fixed table gives for an idiom.
    pub fn get_optimal_language(&self, pattern: &PatternType) -> (language: Option<String>)
        ensures
            match language {
                Some(name) => table_language(*pattern) == Some(name@),
                None => table_language(*pattern).is_none(),
            },
    {
        match pattern {
            PatternType::FibonacciLike => Some("rust".to_owned()),
            PatternType::MapReduce => Some("python".to_owned()),
            PatternType::IteratorChain => Some("rust".to_owned()),
            PatternType::WebEndpoint => Some("typescript".to_owned()),
            PatternType::DatabaseQuery => Some("rust".to_owned()),
            PatternType::DataProcessor => Some("python".to_owned()),
            _ => None,
        }
    }

    /// The estimated gain, in tenths, of moving an idiom from one language
    /// to another.
    pub fn estimate_performance_gain(&self, pattern: &PatternType, from: &str, to: &str) -> (tenths:
        u64)
        ensures
            tenths == gain_tenths(*pattern, from@, to@),
    {
        let from_python = str_equal(from, "python");
        let from_javascript = str_equal(from, "javascript");
        let to_rust = str_equal(to, "rust");
        let to_python = str_equal(to, "python");
        match pattern {
            PatternType::FibonacciLike => if from_python && to_rust {
                100
            } else {
                15
            },
            PatternType::MapReduce => if from_javascript && to_python {
                20
            } else {
                15
            },
            PatternType::DatabaseQuery => if from_python && to_rust {
                50
            } else {
                15
            },
            _ => 15,
        }
    }

    /// Decodes a bucket code into the idiom it stands for.
    pub fn hash_to_pattern(&self, hash: u64) -> (pattern: PatternType)
        ensures
            pattern == pattern_of_code(hash),
    {
        hash_to_pattern(hash)
    }
}

/// One proposed optimization. The improvement is a multiplier, counted in
/// tenths.
#[derive(Debug)]
pub struct OptimizationSuggestion {
    pub description: String,
    pub estimated_improvement_tenths: u64,
}

/// An optimization as plain values.
pub struct OptimizationView {
    pub description: Seq<char>,
    pub estimated_improvement_tenths: u64,
}

impl View for OptimizationSuggestion {
    type V = OptimizationView;

    open spec fn view(&self) -> OptimizationView {
        OptimizationView {
            description: self.description@,
            estimated_improvement_tenths: self.estimated_improvement_tenths,
        }
    }
}

/// The optimizations of a list as plain values.
pub open spec fn optimization_views(suggestions: Seq<OptimizationSuggestion>) -> Seq<
    OptimizationView,
> {
    suggestions.map_values(|s: OptimizationSuggestion| s@)
}

/// The strings of a list as plain values.
pub open spec fn string_views(strings: Seq<String>) -> Seq<Seq<char>> {
    strings.map_values(|s: String| s@)
}

/// The proposal made for Fibonacci-like code in a project that uses Python.
pub open spec fn fibonacci_move() -> OptimizationView {
    OptimizationView {
        description: "Move Fibonacci-like computations from Python to Rust"@,
        estimated_improvement_tenths: 100,
    }
}

/// The proposal made for map-reduce code in a project that uses JavaScript.
pub open spec fn data_processing_move() -> OptimizationView {
    OptimizationView {
        description: "Move data processing from JavaScript to Python"@,
        estimated_improvement_tenths: 20,
    }
}

/// The proposals that one pass over the language boundaries adds.
pub open spec fn boundary_proposals(languages: Seq<Seq<char>>, patterns: Seq<PatternType>) -> Seq<
    OptimizationView,
> {
    let first = if languages.contains("python"@) && patterns.contains(PatternType::FibonacciLike) {
        seq![fibonacci_move()]
    } else {
        Seq::empty()
    };
    let second = if languages.contains("javascript"@) && patterns.contains(PatternType::MapReduce) {
        seq![data_processing_move()]
    } else {
        Seq::empty()
    };
    first + second
}

/// A list of idioms after the idioms of a list of codes have been added,
/// each unless the list holds it already.
pub open spec fn with_patterns_of(patterns: Seq<PatternType>, order: Seq<u64>) -> Seq<PatternType>
    decreases order.len(),
{
    if order.len() == 0 {
        patterns
    } else {
        let before = with_patterns_of(patterns, order.drop_last());
        let pattern = pattern_of_code(order.last());
        if before.contains(pattern) {
            before
        } else {
            before.push(pattern)
        }
    }
}

/// Whether a list of strings holds a string.
pub fn contains_string(strings: &Vec<String>, wanted: &str) -> (present: bool)
    ensures
        present == string_views(strings@).contains(wanted@),
{
    let mut i: usize = 0;
    while i < strings.len()
        invariant
            i <= strings@.len(),
            forall|j: int| 0 <= j < i ==> string_views(strings@)[j] != wanted@,
        decreases strings@.len() - i,
    {
        if str_equal(strings[i].as_str(), wanted) {
            assert(string_views(strings@)[i as int] == wanted@);
            return true;
        }
        i = i + 1;
    }
    false
}

/// What is known of a project: its languages, the idioms found in it, and
/// the optimizations proposed for it.
#[derive(Debug)]
pub struct ProjectAnalysis {
    pub languages: Vec<String>,
    pub patterns: Vec<PatternType>,
    pub suggested_optimizations: Vec<OptimizationSuggestion>,
}

impl ProjectAnalysis {
    /// The standing analysis: two languages, two idioms, no proposal.
    pub fn new() -> (analysis: ProjectAnalysis)
        ensures
            string_views(analysis.languages@) == seq!["rust"@, "python"@],
            analysis.patterns@ == seq![PatternType::FibonacciLike, PatternType::MapReduce],
            analysis.suggested_optimizations@.len() == 0,
    {
        let mut languages: Vec<String> = Vec::new();
        languages.push("rust".to_owned());
        languages.push("python".to_owned());
        let mut patterns: Vec<PatternType> = Vec::new();
        patterns.push(PatternType::FibonacciLike);
        patterns.push(PatternType::MapReduce);
        assert(string_views(languages@) =~= seq!["rust"@, "python"@]);
        assert(patterns@ =~= seq![PatternType::FibonacciLike, PatternType::MapReduce]);
        ProjectAnalysis { languages, patterns, suggested_optimizations: Vec::new() }
    }

    /// Takes in one graph: its language is added unless it is known, and so
    /// is the idiom of each bucket of its pattern cache, the buckets taken in
    /// the order in which the cache hands them out.
    pub fn add_language_analysis(&mut self, graph: SemanticGraph)
        ensures
            string_views(final(self).languages@) == if string_views(old(self).languages@).contains(
                graph@.language,
            ) {
                string_views(old(self).languages@)
            } else {
                string_views(old(self).languages@).push(graph@.language)
            },
            exists|order: Seq<u64>| #[trigger]
                enumerates(order, graph@.pattern_cache.dom()) && final(self).patterns@
                    == with_patterns_of(old(self).patterns@, order),
            final(self).suggested_optimizations == old(self).suggested_optimizations,
    {
        if !contains_string(&self.languages, graph.language.as_str()) {
            self.languages.push(graph.language.clone());
            assert(string_views(self.languages@) =~= string_views(old(self).languages@).push(
                graph@.language,
            ));
        }
        let ghost languages = self.languages;
        let codes = cache_codes(&graph.pattern_cache);
        let mut i: usize = 0;
        while i < codes.len()
            invariant
                i <= codes@.len(),
                self.languages == languages,
                enumerates(codes@, graph@.pattern_cache.dom()),
                self.suggested_optimizations == old(self).suggested_optimizations,
                self.patterns@ == with_patterns_of(old(self).patterns@, codes@.take(i as int)),
            decreases codes@.len() - i,
        {
            let pattern_type = hash_to_pattern(codes[i]);
            if !contains_pattern(&self.patterns, pattern_type) {
                self.patterns.push(pattern_type);
            }
            proof {
                assert(codes@.take(i + 1).drop_last() =~= codes@.take(i as int));
            }
            i = i + 1;
        }
        assert(codes@.take(codes@.len() as int) =~= codes@);
    }

    /// Adds the proposals that the languages and idioms of the project call
    /// for.
    pub fn optimize_language_boundaries(&mut self)
        ensures
            final(self).languages == old(self).languages,
            final(self).patterns == old(self).patterns,
            optimization_views(final(self).suggested_optimizations@) == optimization_views(
                old(self).suggested_optimizations@,
            ) + boundary_proposals(string_views(old(self).languages@), old(self).patterns@),
    {
        let ghost before = optimization_views(self.suggested_optimizations@);
        if contains_string(&self.languages, "python") && contains_pattern(
            &self.patterns,
            PatternType::FibonacciLike,
        ) {
            self.suggested_optimizations.push(
                OptimizationSuggestion {
                    description: "Move Fibonacci-like computations from Python to Rust".to_owned(),
                    estimated_improvement_tenths: 100,
                },
            );
        }
        if contains_string(&self.languages, "javascript") && contains_pattern(
            &self.patterns,
            PatternType::MapReduce,
        ) {
            self.suggested_optimizations.push(
                OptimizationSuggestion {
                    description: "Move data processing from JavaScript to Python".to_owned(),
                    estimated_improvement_tenths: 20,
                },
            );
        }
        assert(optimization_views(self.suggested_optimizations@) =~= before + boundary_proposals(
            string_views(old(self).languages@),
            old(self).patterns@,
        ));
    }
}

} // verus!
