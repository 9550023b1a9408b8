//! The registry of languages and the idioms each is strong in.

use crate::metadata::str_equal;
use crate::semantic_graph::{cache_codes, enumerates, semantic_hash, GraphView, SemanticGraph};
use crate::{hash_to_pattern, pattern_of_code, PatternType};
use vstd::prelude::*;

verus! {

broadcast use vstd::std_specs::hash::group_hash_axioms;

/// One idiom found in one graph, for a language that is strong in it.
#[derive(Debug)]
pub struct CrossLanguagePattern {
    pub pattern_type: PatternType,
    pub language: String,
    pub node_count: usize,
    pub semantic_hash: u64,
}

/// A match as plain values.
pub struct MatchView {
    pub pattern_type: PatternType,
    pub language: Seq<char>,
    pub node_count: nat,
    pub semantic_hash: u64,
}

impl View for CrossLanguagePattern {
    type V = MatchView;

    open spec fn view(&self) -> MatchView {
        MatchView {
            pattern_type: self.pattern_type,
            language: self.language@,
            node_count: self.node_count as nat,
            semantic_hash: self.semantic_hash,
        }
    }
}

/// A registry as plain values: languages in order, each with its idioms.
pub type Registry = Seq<(Seq<char>, Seq<PatternType>)>;

/// No language is registered twice.
pub open spec fn languages_unique(registry: Registry) -> bool {
    forall|i: int, j: int|
        0 <= i < j < registry.len() ==> (#[trigger] registry[i]).0 != (#[trigger] registry[j]).0
}

/// Whether a language is registered.
pub open spec fn registered(registry: Registry, language: Seq<char>) -> bool {
    exists|i: int| 0 <= i < registry.len() && (#[trigger] registry[i]).0 == language
}

/// Whether a language is registered with a list that holds an idiom.
pub open spec fn supports(registry: Registry, language: Seq<char>, pattern: PatternType) -> bool {
    exists|i: int|
        0 <= i < registry.len() && (#[trigger] registry[i]).0 == language
            && registry[i].1.contains(pattern)
}

/// The registry that a new recognizer holds.
pub open spec fn default_registry() -> Registry {
    seq![
        (
            "rust"@,
            seq![PatternType::IteratorChain, PatternType::Builder, PatternType::FibonacciLike],
        ),
        (
            "python"@,
            seq![PatternType::MapReduce, PatternType::DataProcessor, PatternType::RecursiveTree],
        ),
        (
            "javascript"@,
            seq![PatternType::WebEndpoint, PatternType::MapReduce, PatternType::Cacheable],
        ),
    ]
}

/// The position of the language that is suggested for an idiom: among the
/// entries whose list holds the idiom, the one with the longest list, and
/// among several of that length the last.
pub open spec fn best_candidate(registry: Registry, pattern: PatternType) -> Option<int>
    decreases registry.len(),
{
    if registry.len() == 0 {
        None
    } else {
        let earlier = best_candidate(registry.drop_last(), pattern);
        let last = registry.len() - 1;
        if registry[last].1.contains(pattern) && (earlier matches Some(i) ==> registry[i].1.len()
            <= registry[last].1.len()) {
            Some(last)
        } else {
            earlier
        }
    }
}

/// The language suggested for an idiom.
pub open spec fn optimal_language(registry: Registry, pattern: PatternType) -> Option<Seq<char>> {
    match best_candidate(registry, pattern) {
        Some(i) => Some(registry[i].0),
        None => None,
    }
}

/// The suggested entry is registered, its list holds the idiom, and no
/// entry whose list holds the idiom has a longer list. Nothing is suggested
/// exactly when no list holds the idiom.
pub proof fn lemma_best_candidate(registry: Registry, pattern: PatternType)
    ensures
        match best_candidate(registry, pattern) {
            Some(i) => 0 <= i < registry.len() && registry[i].1.contains(pattern) && forall|j: int|
                0 <= j < registry.len() && (#[trigger] registry[j]).1.contains(pattern)
                    ==> registry[j].1.len() <= registry[i].1.len(),
            None => forall|j: int|
                0 <= j < registry.len() ==> !(#[trigger] registry[j]).1.contains(pattern),
        },
    decreases registry.len(),
{
    if registry.len() > 0 {
        let front = registry.drop_last();
        lemma_best_candidate(front, pattern);
        assert forall|j: int| 0 <= j < front.len() implies front[j] == registry[j] by {}
        match best_candidate(registry, pattern) {
            Some(i) => {
                assert forall|j: int|
                    0 <= j < registry.len() && (#[trigger] registry[j]).1.contains(
                        pattern,
                    ) implies registry[j].1.len() <= registry[i].1.len() by {
                    if j < front.len() {
                        assert(front[j] == registry[j]);
                    }
                }
            },
            None => {
                assert forall|j: int| 0 <= j < registry.len() implies !(
                #[trigger] registry[j]).1.contains(pattern) by {
                    if j < front.len() {
                        assert(front[j] == registry[j]);
                    }
                }
            },
        }
    }
}

/// The matches of one graph, its cache read in the order `order`: one for
/// each code of `order` that the cache holds and whose idiom the graph's
/// language is registered with.
pub open spec fn graph_matches(registry: Registry, graph: GraphView, order: Seq<u64>) -> Seq<
    MatchView,
>
    decreases order.len(),
{
    if order.len() == 0 {
        Seq::empty()
    } else {
        let before = graph_matches(registry, graph, order.drop_last());
        let code = order.last();
        if graph.pattern_cache.contains_key(code) && supports(
            registry,
            graph.language,
            pattern_of_code(code),
        ) {
            before.push(
                MatchView {
                    pattern_type: pattern_of_code(code),
                    language: graph.language,
                    node_count: graph.pattern_cache[code].len(),
                    semantic_hash: semantic_hash(graph),
                },
            )
        } else {
            before
        }
    }
}

/// The matches of a list of graphs, graph after graph, the cache of each
/// read in the order that `orders` gives for it.
pub open spec fn all_matches(registry: Registry, graphs: Seq<GraphView>, orders: Seq<Seq<u64>>) -> Seq<
    MatchView,
>
    decreases graphs.len(),
{
    if graphs.len() == 0 || orders.len() != graphs.len() {
        Seq::empty()
    } else {
        all_matches(registry, graphs.drop_last(), orders.drop_last()) + graph_matches(
            registry,
            graphs.last(),
            orders.last(),
        )
    }
}

/// The matches of a list as plain values.
pub open spec fn match_views(found: Seq<CrossLanguagePattern>) -> Seq<MatchView> {
    found.map_values(|m: CrossLanguagePattern| m@)
}

/// The graphs of a list as plain values.
pub open spec fn graph_views(graphs: Seq<&SemanticGraph>) -> Seq<GraphView> {
    graphs.map_values(|g: &SemanticGraph| g@)
}

/// There is one order for each graph, and it names every code of the
/// graph's cache exactly once.
pub open spec fn read_orders(orders: Seq<Seq<u64>>, graphs: Seq<GraphView>) -> bool {
    orders.len() == graphs.len() && forall|i: int|
        0 <= i < graphs.len() ==> enumerates(#[trigger] orders[i], graphs[i].pattern_cache.dom())
}

/// Whether a list holds an idiom.
pub fn contains_pattern(patterns: &Vec<PatternType>, pattern: PatternType) -> (present: bool)
    ensures
        present == patterns@.contains(pattern),
{
    let mut i: usize = 0;
    while i < patterns.len()
        invariant
            i <= patterns@.len(),
            forall|j: int| 0 <= j < i ==> patterns@[j] != pattern,
        decreases patterns@.len() - i,
    {
        if patterns[i] == pattern {
            return true;
        }
        i = i + 1;
    }
    false
}

/// Relates languages to the idioms they are strong in.
pub struct PatternRecognizer {
    patterns: Vec<(String, Vec<PatternType>)>,
}

impl PatternRecognizer {
    /// The invariant of the type: no language is registered twice.
    #[verifier::type_invariant]
    pub closed spec fn well_formed(&self) -> bool {
        languages_unique(self.registry())
    }

    /// The registry as plain values.
    pub closed spec fn registry(&self) -> Registry {
        Seq::new(self.patterns@.len(), |i: int| (self.patterns@[i].0@, self.patterns@[i].1@))
    }

    /// A recognizer with the registry of three languages.
    pub fn new() -> (recognizer: PatternRecognizer)
        ensures
            recognizer.registry() == default_registry(),
    {
        let mut patterns: Vec<(String, Vec<PatternType>)> = Vec::new();
        patterns.push(
            (
                "rust".to_owned(),
                vec![PatternType::IteratorChain, PatternType::Builder, PatternType::FibonacciLike],
            ),
        );
        patterns.push(
            (
                "python".to_owned(),
                vec![PatternType::MapReduce, PatternType::DataProcessor, PatternType::RecursiveTree],
            ),
        );
        patterns.push(
            (
                "javascript".to_owned(),
                vec![PatternType::WebEndpoint, PatternType::MapReduce, PatternType::Cacheable],
            ),
        );
        proof {
            reveal_strlit("rust");
            reveal_strlit("python");
            reveal_strlit("javascript");
            assert(patterns@[0].0@.len() == 4);
            assert(patterns@[1].0@.len() == 6);
            assert(patterns@[2].0@.len() == 10);
            let registry = Seq::new(
                patterns@.len(),
                |i: int| (patterns@[i].0@, patterns@[i].1@),
            );
            assert(registry =~= default_registry());
            assert(languages_unique(registry));
        }
        PatternRecognizer { patterns }
    }

    /// The position of a language in the registry, if it is registered.
    fn position(&self, language: &str) -> (found: Option<usize>)
        ensures
            match found {
                Some(i) => i < self.registry().len() && self.registry()[i as int].0 == language@
                    && i < self.patterns@.len(),
                None => !registered(self.registry(), language@),
            },
    {
        let mut i: usize = 0;
        while i < self.patterns.len()
            invariant
                i <= self.patterns@.len(),
                forall|j: int| 0 <= j < i ==> (#[trigger] self.registry()[j]).0 != language@,
            decreases self.patterns@.len() - i,
        {
            if str_equal(self.patterns[i].0.as_str(), language) {
                return Some(i);
            }
            i = i + 1;
        }
        None
    }

    /// Whether the language is registered with a list that holds the idiom.
    pub fn language_supports(&self, language: &str, pattern: PatternType) -> (supported: bool)
        ensures
            supported == supports(self.registry(), language@, pattern),
    {
        proof {
            use_type_invariant(self);
        }
        match self.position(language) {
            Some(i) => {
                let present = contains_pattern(&self.patterns[i].1, pattern);
                proof {
                    let registry = self.registry();
                    if present {
                        assert(registry[i as int].0 == language@ && registry[i as int].1.contains(
                            pattern,
                        ));
                    } else {
                        assert forall|j: int|
                            0 <= j < registry.len() && (#[trigger] registry[j]).0
                                == language@ implies !registry[j].1.contains(pattern) by {
                            if j != i {
                                assert(registry[j].0 != registry[i as int].0);
                            }
                        }
                    }
                }
                present
            },
            None => false,
        }
    }

    /// The matches of one graph, appended to `found`.
    fn recognize_in_graph(&self, graph: &SemanticGraph, found: &mut Vec<CrossLanguagePattern>)
        ensures
            exists|order: Seq<u64>|
                enumerates(order, graph@.pattern_cache.dom()) && match_views(final(found)@)
                    == match_views(old(found)@) + graph_matches(
                    self.registry(),
                    graph@,
                    order,
                ),
    {
        let codes = cache_codes(&graph.pattern_cache);
        let ghost registry = self.registry();
        let ghost found0 = match_views(found@);
        let mut i: usize = 0;
        while i < codes.len()
            invariant
                i <= codes@.len(),
                registry == self.registry(),
                enumerates(codes@, graph@.pattern_cache.dom()),
                match_views(found@) == found0 + graph_matches(
                    registry,
                    graph@,
                    codes@.take(i as int),
                ),
            decreases codes@.len() - i,
        {
            let code = codes[i];
            let pattern_type = hash_to_pattern(code);
            let ghost before = match_views(found@);
            if self.language_supports(graph.language.as_str(), pattern_type) {
                match graph.pattern_cache.get(&code) {
                    Some(node_ids) => {
                        found.push(
                            CrossLanguagePattern {
                                pattern_type,
                                language: graph.language.clone(),
                                node_count: node_ids.len(),
                                semantic_hash: graph.calculate_semantic_hash(),
                            },
                        );
                        assert(graph@.pattern_cache.contains_key(code));
                        assert(graph@.pattern_cache[code] == node_ids@);
                        assert(match_views(found@) =~= before.push(
                            found@.last()@,
                        ));
                    },
                    None => {
                        assert(!graph@.pattern_cache.contains_key(code));
                    },
                }
            }
            proof {
                assert(codes@.take(i + 1).drop_last() =~= codes@.take(i as int));
                assert(codes@.take(i + 1).last() == code);
            }
            i = i + 1;
        }
        assert(codes@.take(codes@.len() as int) =~= codes@);
    }

    /// For each graph whose language is registered, one match for each
    /// bucket of its pattern cache whose idiom the language is strong in.
    /// The graphs are taken in order; the buckets of a graph in the order in
    /// which its cache hands them out.
    pub fn recognize_cross_language_patterns(&self, graphs: Vec<&SemanticGraph>) -> (found: Vec<
        CrossLanguagePattern,
    >)
        ensures
            exists|orders: Seq<Seq<u64>>| #[trigger]
                read_orders(orders, graph_views(graphs@)) && match_views(found@) == all_matches(
                    self.registry(),
                    graph_views(graphs@),
                    orders,
                ),
    {
        let mut found: Vec<CrossLanguagePattern> = Vec::new();
        let ghost views = graph_views(graphs@);
        let ghost registry = self.registry();
        let ghost mut orders: Seq<Seq<u64>> = Seq::empty();
        let mut i: usize = 0;
        assert(match_views(found@) =~= Seq::<MatchView>::empty());
        while i < graphs.len()
            invariant
                i <= graphs@.len(),
                registry == self.registry(),
                views == graph_views(graphs@),
                orders.len() == i,
                read_orders(orders, views.take(i as int)),
                match_views(found@) == all_matches(
                    registry,
                    views.take(i as int),
                    orders,
                ),
            decreases graphs@.len() - i,
        {
            let graph = graphs[i];
            let ghost before = match_views(found@);
            self.recognize_in_graph(graph, &mut found);
            proof {
                let order = choose|order: Seq<u64>|
                    enumerates(order, graph@.pattern_cache.dom()) && match_views(found@) == before + graph_matches(registry, graph@, order);
                let ghost earlier = orders;
                orders = orders.push(order);
                assert(orders.drop_last() =~= earlier);
                assert(views.take(i + 1).drop_last() =~= views.take(i as int));
                assert(views.take(i + 1).last() == graph@);
                assert forall|j: int| 0 <= j < i + 1 implies enumerates(
                    #[trigger] orders[j],
                    views.take(i + 1)[j].pattern_cache.dom(),
                ) by {
                    if j < i {
                        assert(orders[j] == earlier[j]);
                        assert(views.take(i as int)[j] == views.take(i + 1)[j]);
                    }
                }
            }
            i = i + 1;
        }
        assert(views.take(graphs@.len() as int) =~= views);
        found
    }

    /// The language suggested for an idiom: among the registered languages
    /// whose list holds it, the one with the longest list.
    pub fn suggest_optimal_language(&self, pattern: PatternType) -> (language: Option<String>)
        ensures
            match language {
                Some(name) => optimal_language(self.registry(), pattern) == Some(name@),
                None => optimal_language(self.registry(), pattern).is_none(),
            },
    {
        let ghost registry = self.registry();
        let mut best: Option<usize> = None;
        let mut i: usize = 0;
        while i < self.patterns.len()
            invariant
                i <= self.patterns@.len(),
                registry == self.registry(),
                registry.len() == self.patterns@.len(),
                match best {
                    Some(b) => b < i && best_candidate(registry.take(i as int), pattern) == Some(
                        b as int,
                    ),
                    None => best_candidate(registry.take(i as int), pattern).is_none(),
                },
            decreases self.patterns@.len() - i,
        {
            proof {
                assert(registry.take(i + 1).drop_last() =~= registry.take(i as int));
                assert(registry[i as int].1 == self.patterns@[i as int].1@);
            }
            if contains_pattern(&self.patterns[i].1, pattern) {
                let longer = match best {
                    Some(b) => self.patterns[b].1.len() <= self.patterns[i].1.len(),
                    None => true,
                };
                if longer {
                    best = Some(i);
                }
            }
            i = i + 1;
        }
        assert(registry.take(registry.len() as int) =~= registry);
        match best {
            Some(b) => Some(self.patterns[b].0.clone()),
            None => None,
        }
    }

    /// The registered languages, in registry order.
    pub fn get_supported_languages(&self) -> (languages: Vec<String>)
        ensures
            languages@.len() == self.registry().len(),
            forall|i: int|
                0 <= i < languages@.len() ==> (#[trigger] languages@[i])@ == self.registry()[i].0,
    {
        let mut languages: Vec<String> = Vec::new();
        let mut i: usize = 0;
        while i < self.patterns.len()
            invariant
                i <= self.patterns@.len(),
                languages@.len() == i,
                forall|j: int| 0 <= j < i ==> (#[trigger] languages@[j])@ == self.registry()[j].0,
            decreases self.patterns@.len() - i,
        {
            languages.push(self.patterns[i].0.clone());
            i = i + 1;
        }
        languages
    }

    /// Decodes a bucket code into the idiom it stands for.
    pub fn hash_to_pattern(&self, hash: u64) -> (pattern: PatternType)
        ensures
            pattern == pattern_of_code(hash),
    {
        hash_to_pattern(hash)
    }
}

} // verus!
