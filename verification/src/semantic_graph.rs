//! The node and graph model, the pattern detector and the fingerprint.

use crate::digest::{blake3_digest, blake3_hash, digest_prefix, digest_prefix_value};
use crate::metadata::{str_equal, Metadata};
use std::collections::HashMap;
use vstd::bytes::{spec_u64_to_le_bytes, u64_to_le_bytes};
use vstd::prelude::*;
use vstd::std_specs::hash::*;
use vstd::std_specs::iter::IteratorSpec;
use vstd::utf8::encode_utf8;

verus! {

broadcast use vstd::std_specs::hash::group_hash_axioms;

/// The idioms that a node can be tagged with or classified as.
#[derive(Debug, Clone, Copy, Hash, PartialEq, Eq, Structural)]
pub enum PatternType {
    FibonacciLike,
    MapReduce,
    Builder,
    IteratorChain,
    RecursiveTree,
    Cacheable,
    DataProcessor,
    WebEndpoint,
    DatabaseQuery,
}

impl PatternType {
    /// The number under which the pattern cache files this idiom: its
    /// position in the declaration, counted from zero.
    pub open spec fn spec_code(self) -> u64 {
        match self {
            PatternType::FibonacciLike => 0,
            PatternType::MapReduce => 1,
            PatternType::Builder => 2,
            PatternType::IteratorChain => 3,
            PatternType::RecursiveTree => 4,
            PatternType::Cacheable => 5,
            PatternType::DataProcessor => 6,
            PatternType::WebEndpoint => 7,
            PatternType::DatabaseQuery => 8,
        }
    }

    /// The number under which the pattern cache files this idiom.
    #[verifier::when_used_as_spec(spec_code)]
    pub fn code(self) -> (code: u64)
        ensures
            code == self.spec_code(),
    {
        match self {
            PatternType::FibonacciLike => 0,
            PatternType::MapReduce => 1,
            PatternType::Builder => 2,
            PatternType::IteratorChain => 3,
            PatternType::RecursiveTree => 4,
            PatternType::Cacheable => 5,
            PatternType::DataProcessor => 6,
            PatternType::WebEndpoint => 7,
            PatternType::DatabaseQuery => 8,
        }
    }
}

/// What kind of syntax element a node is.
#[derive(Debug, Clone, Copy, Hash, PartialEq, Eq, Structural)]
pub enum NodeType {
    Function,
    Variable,
    ControlFlow,
    Arithmetic,
    Comparison,
    Loop,
    Pattern(PatternType),
}

/// One syntax element. Its children are ids into the graph that owns it.
#[derive(Debug, Clone, PartialEq, Eq, Hash)]
pub struct SemanticNode {
    pub id: u64,
    pub node_type: NodeType,
    pub children: Vec<u64>,
    pub metadata: Metadata,
    pub language: String,
    pub pattern_hash: u64,
}

/// A node as plain values.
pub struct NodeView {
    pub id: u64,
    pub node_type: NodeType,
    pub children: Seq<u64>,
    pub metadata: Map<Seq<char>, Seq<char>>,
    pub language: Seq<char>,
    pub pattern_hash: u64,
}

impl View for SemanticNode {
    type V = NodeView;

    open spec fn view(&self) -> NodeView {
        NodeView {
            id: self.id,
            node_type: self.node_type,
            children: self.children@,
            metadata: self.metadata@,
            language: self.language@,
            pattern_hash: self.pattern_hash,
        }
    }
}

/// A language-tagged collection of nodes, with its entry points and the
/// index that detection fills.
#[derive(Debug, Clone)]
pub struct SemanticGraph {
    pub nodes: HashMap<u64, SemanticNode>,
    pub root_nodes: Vec<u64>,
    pub pattern_cache: HashMap<u64, Vec<u64>>,
    pub language: String,
}

/// A graph as plain values.
pub struct GraphView {
    pub nodes: Map<u64, NodeView>,
    pub root_nodes: Seq<u64>,
    pub pattern_cache: Map<u64, Seq<u64>>,
    pub language: Seq<char>,
}

/// The node table as plain values.
pub open spec fn nodes_view(nodes: Map<u64, SemanticNode>) -> Map<u64, NodeView> {
    nodes.map_values(|n: SemanticNode| n@)
}

/// The pattern cache as plain values.
pub open spec fn cache_view(cache: Map<u64, Vec<u64>>) -> Map<u64, Seq<u64>> {
    cache.map_values(|ids: Vec<u64>| ids@)
}

impl View for SemanticGraph {
    type V = GraphView;

    open spec fn view(&self) -> GraphView {
        GraphView {
            nodes: nodes_view(self.nodes@),
            root_nodes: self.root_nodes@,
            pattern_cache: cache_view(self.pattern_cache@),
            language: self.language@,
        }
    }
}

/// The outcome of a walk that looks for an id it has seen before: whether
/// it met one, and the ids it has seen, in the order in which it met them.
pub struct Walk {
    pub found: bool,
    pub visited: Seq<u64>,
}

/// The walk from one id. An id that was seen before ends the walk with
/// success. Otherwise the id is recorded; if the graph holds a node for
/// it, the walk goes on through the node's children in order. `depth` is
/// how many nodes deep the walk may still expand.
pub open spec fn walk(nodes: Map<u64, NodeView>, id: u64, visited: Seq<u64>, depth: nat) -> Walk
    decreases depth, 0nat,
{
    if visited.contains(id) {
        Walk { found: true, visited }
    } else if !nodes.contains_key(id) || depth == 0 {
        Walk { found: false, visited: visited.push(id) }
    } else {
        walk_children(nodes, nodes[id].children, 0, visited.push(id), (depth - 1) as nat)
    }
}

/// The walk through the children of one node from position `from` on: it
/// stops at the first child whose walk meets a seen id.
pub open spec fn walk_children(
    nodes: Map<u64, NodeView>,
    children: Seq<u64>,
    from: nat,
    visited: Seq<u64>,
    depth: nat,
) -> Walk
    decreases depth, children.len() - from + 1,
{
    if from >= children.len() {
        Walk { found: false, visited }
    } else {
        let step = walk(nodes, children[from as int], visited, depth);
        if step.found {
            step
        } else {
            walk_children(nodes, children, from + 1, step.visited, depth)
        }
    }
}

/// Whether the walk from an id, begun with nothing seen, meets an id twice.
pub open spec fn recursive_from(nodes: Map<u64, NodeView>, id: u64) -> bool {
    walk(nodes, id, Seq::empty(), nodes.dom().len()).found
}

/// Whether the annotations of a node name the map-reduce operation.
pub open spec fn marks_map_reduce(metadata: Map<Seq<char>, Seq<char>>) -> bool {
    metadata.contains_key("operation"@) && metadata["operation"@] == "map_reduce"@
}

/// The idiom that detection assigns to a node, if any.
pub open spec fn classify(nodes: Map<u64, NodeView>, node: NodeView) -> Option<PatternType> {
    match node.node_type {
        NodeType::Function => if node.children.len() >= 2 {
            if recursive_from(nodes, node.id) {
                Some(PatternType::FibonacciLike)
            } else if marks_map_reduce(node.metadata) {
                Some(PatternType::MapReduce)
            } else {
                None
            }
        } else {
            None
        },
        NodeType::ControlFlow => if node.children.len() > 3 {
            Some(PatternType::MapReduce)
        } else {
            None
        },
        NodeType::Pattern(pattern) => Some(pattern),
        _ => None,
    }
}

/// The cache after one id has been appended to the bucket of a code.
pub open spec fn file_under(cache: Map<u64, Seq<u64>>, code: u64, id: u64) -> Map<u64, Seq<u64>> {
    let bucket = if cache.contains_key(code) {
        cache[code]
    } else {
        Seq::empty()
    };
    cache.insert(code, bucket.push(id))
}

/// The cache after the nodes of `order` have been classified one after the
/// other, each classified node appended to the bucket of its idiom.
pub open spec fn cache_after(
    nodes: Map<u64, NodeView>,
    order: Seq<u64>,
    cache: Map<u64, Seq<u64>>,
) -> Map<u64, Seq<u64>>
    decreases order.len(),
{
    if order.len() == 0 {
        cache
    } else {
        let before = cache_after(nodes, order.drop_last(), cache);
        let id = order.last();
        if nodes.contains_key(id) {
            match classify(nodes, nodes[id]) {
                Some(pattern) => file_under(before, pattern.spec_code(), id),
                None => before,
            }
        } else {
            before
        }
    }
}

/// A sequence that names every id of a set exactly once.
pub open spec fn enumerates(order: Seq<u64>, ids: Set<u64>) -> bool {
    order.no_duplicates() && order.to_set() == ids
}

/// The bytes that the subtree below an id contributes to the fingerprint:
/// for each node the little-endian bytes of its pattern hash, then the
/// contributions of its children in order. An id without a node contributes
/// nothing, and neither does an id that is already on the path from the
/// root, so that a cycle is walked once. `depth` is how many nodes deep the
/// walk may still expand.
pub open spec fn subtree_message(
    nodes: Map<u64, NodeView>,
    id: u64,
    path: Seq<u64>,
    depth: nat,
) -> Seq<u8>
    decreases depth, 0nat,
{
    if !nodes.contains_key(id) || path.contains(id) || depth == 0 {
        Seq::empty()
    } else {
        spec_u64_to_le_bytes(nodes[id].pattern_hash) + children_message(
            nodes,
            nodes[id].children,
            path.push(id),
            (depth - 1) as nat,
        )
    }
}

/// The contributions of a list of children, in order.
pub open spec fn children_message(
    nodes: Map<u64, NodeView>,
    children: Seq<u64>,
    path: Seq<u64>,
    depth: nat,
) -> Seq<u8>
    decreases depth, children.len() + 1,
{
    if children.len() == 0 {
        Seq::empty()
    } else {
        children_message(nodes, children.drop_last(), path, depth) + subtree_message(
            nodes,
            children.last(),
            path,
            depth,
        )
    }
}

/// What one root contributes: nothing if the graph holds no node for it,
/// else the node's id, its language tag and its subtree.
pub open spec fn root_message(nodes: Map<u64, NodeView>, root: u64) -> Seq<u8> {
    if nodes.contains_key(root) {
        spec_u64_to_le_bytes(nodes[root].id) + encode_utf8(nodes[root].language)
            + subtree_message(nodes, root, Seq::empty(), nodes.dom().len())
    } else {
        Seq::empty()
    }
}

/// The message that is digested: the contributions of the roots in order.
pub open spec fn graph_message(nodes: Map<u64, NodeView>, roots: Seq<u64>) -> Seq<u8>
    decreases roots.len(),
{
    if roots.len() == 0 {
        Seq::empty()
    } else {
        graph_message(nodes, roots.drop_last()) + root_message(nodes, roots.last())
    }
}

/// The fingerprint of a graph: the first eight bytes of the digest of its
/// message, read as a little-endian number.
pub open spec fn semantic_hash(graph: GraphView) -> u64 {
    digest_prefix_value(blake3_digest(graph_message(graph.nodes, graph.root_nodes)))
}

/// Whether a list of ids holds an id.
pub fn contains_id(ids: &Vec<u64>, id: u64) -> (present: bool)
    ensures
        present == ids@.contains(id),
{
    let mut i: usize = 0;
    while i < ids.len()
        invariant
            i <= ids@.len(),
            forall|j: int| 0 <= j < i ==> ids@[j] != id,
        decreases ids@.len() - i,
    {
        if ids[i] == id {
            return true;
        }
        i = i + 1;
    }
    false
}

/// Appends an id to the bucket of a code, making the bucket if there is none.
fn file_in_cache(cache: &mut HashMap<u64, Vec<u64>>, code: u64, id: u64)
    ensures
        cache_view(final(cache)@) == file_under(cache_view(old(cache)@), code, id),
{
    let mut bucket = match cache.remove(&code) {
        Some(bucket) => bucket,
        None => Vec::new(),
    };
    bucket.push(id);
    cache.insert(code, bucket);
    assert(cache_view(cache@) =~= file_under(cache_view(old(cache)@), code, id));
}

/// The keys of a pattern cache, each once, in the order in which the cache
/// hands them out.
pub fn cache_codes(cache: &HashMap<u64, Vec<u64>>) -> (codes: Vec<u64>)
    ensures
        enumerates(codes@, cache_view(cache@).dom()),
{
    let mut codes: Vec<u64> = Vec::new();
    let ghost keys = spec_keys_iter(cache).remaining().unref();
    for key in it: cache.keys()
        invariant
            it.seq().unref() == keys,
            codes@ == keys.take(it.index()),
    {
        codes.push(*key);
        assert(codes@ =~= keys.take(it.index() + 1));
    }
    assert(codes@ =~= keys);
    assert(keys.no_duplicates()) by {
        let refs = spec_keys_iter(cache).remaining();
        assert forall|i: int, j: int|
            0 <= i < keys.len() && 0 <= j < keys.len() && i != j implies keys[i] != keys[j] by {
            assert(refs[i] != refs[j]);
        }
    }
    assert(cache_view(cache@).dom() =~= cache@.dom());
    codes
}

impl SemanticGraph {
    /// An empty graph for one language.
    pub fn new(language: &str) -> (graph: SemanticGraph)
        ensures
            graph@.nodes == Map::<u64, NodeView>::empty(),
            graph@.root_nodes == Seq::<u64>::empty(),
            graph@.pattern_cache == Map::<u64, Seq<u64>>::empty(),
            graph@.language == language@,
    {
        let graph = SemanticGraph {
            nodes: HashMap::new(),
            root_nodes: Vec::new(),
            pattern_cache: HashMap::new(),
            language: language.to_owned(),
        };
        assert(graph@.nodes =~= Map::<u64, NodeView>::empty());
        assert(graph@.pattern_cache =~= Map::<u64, Seq<u64>>::empty());
        graph
    }

    /// Stores a node under its id, replacing the node that had the id.
    pub fn add_node(&mut self, node: SemanticNode) -> (id: u64)
        ensures
            id == node.id,
            final(self)@.nodes == old(self)@.nodes.insert(node.id, node@),
            final(self)@.root_nodes == old(self)@.root_nodes,
            final(self)@.pattern_cache == old(self)@.pattern_cache,
            final(self)@.language == old(self)@.language,
    {
        let id = node.id;
        self.nodes.insert(id, node);
        assert(self@.nodes =~= old(self)@.nodes.insert(node.id, node@));
        id
    }

    /// Appends an id to the entry points. The id need not have a node, and
    /// may be there already.
    pub fn add_root(&mut self, id: u64)
        ensures
            final(self)@.root_nodes == old(self)@.root_nodes.push(id),
            final(self)@.nodes == old(self)@.nodes,
            final(self)@.pattern_cache == old(self)@.pattern_cache,
            final(self)@.language == old(self)@.language,
    {
        self.root_nodes.push(id);
    }

    /// The walk of `walk` with a given depth budget.
    fn walk_from(&self, node_id: u64, visited: &mut Vec<u64>, depth: usize) -> (found: bool)
        ensures
            walk(self@.nodes, node_id, old(visited)@, depth as nat) == (Walk {
                found,
                visited: final(visited)@,
            }),
        decreases depth,
    {
        if contains_id(visited, node_id) {
            return true;
        }
        visited.push(node_id);
        if depth == 0 {
            return false;
        }
        match self.nodes.get(&node_id) {
            None => false,
            Some(node) => {
                let ghost nodes = self@.nodes;
                let ghost children = node.children@;
                let ghost whole = walk_children(nodes, children, 0, visited@, (depth - 1) as nat);
                assert(nodes.contains_key(node_id) && nodes[node_id] == node@);
                assert(walk(nodes, node_id, old(visited)@, depth as nat) == whole);
                let mut i: usize = 0;
                while i < node.children.len()
                    invariant
                        i <= children.len(),
                        children == node.children@,
                        nodes == self@.nodes,
                        depth > 0,
                        walk(nodes, node_id, old(visited)@, depth as nat) == whole,
                        whole == walk_children(nodes, children, i as nat, visited@, (depth - 1) as nat),
                    decreases children.len() - i,
                {
                    if self.walk_from(node.children[i], visited, depth - 1) {
                        return true;
                    }
                    i = i + 1;
                }
                false
            },
        }
    }

    /// Walks the graph from `node_id`, with the ids in `visited` taken as
    /// seen, and says whether the walk met an id twice. `visited` is
    /// extended by the ids that the walk met.
    pub fn has_recursive_structure(&self, node_id: u64, visited: &mut Vec<u64>) -> (found: bool)
        ensures
            walk(self@.nodes, node_id, old(visited)@, self@.nodes.dom().len()) == (Walk {
                found,
                visited: final(visited)@,
            }),
    {
        assert(self@.nodes.dom() =~= self.nodes@.dom());
        self.walk_from(node_id, visited, self.nodes.len())
    }

    /// The idiom that detection assigns to a node of this graph, if any.
    pub fn analyze_node_pattern(&self, node: &SemanticNode) -> (pattern: Option<PatternType>)
        ensures
            pattern == classify(self@.nodes, node@),
    {
        match node.node_type {
            NodeType::Function => {
                if node.children.len() >= 2 {
                    let mut visited: Vec<u64> = Vec::new();
                    if self.has_recursive_structure(node.id, &mut visited) {
                        Some(PatternType::FibonacciLike)
                    } else {
                        let marked = match node.metadata.get("operation") {
                            Some(operation) => str_equal(operation.as_str(), "map_reduce"),
                            None => false,
                        };
                        if marked {
                            Some(PatternType::MapReduce)
                        } else {
                            None
                        }
                    }
                } else {
                    None
                }
            },
            NodeType::ControlFlow => {
                if node.children.len() > 3 {
                    Some(PatternType::MapReduce)
                } else {
                    None
                }
            },
            NodeType::Pattern(pattern) => Some(pattern),
            _ => None,
        }
    }

    /// The ids of the nodes, each once, in the order in which the node table
    /// hands them out.
    pub fn node_ids(&self) -> (ids: Vec<u64>)
        ensures
            enumerates(ids@, self@.nodes.dom()),
    {
        let mut ids: Vec<u64> = Vec::new();
        let ghost keys = spec_keys_iter(&self.nodes).remaining().unref();
        for key in it: self.nodes.keys()
            invariant
                it.seq().unref() == keys,
                ids@ == keys.take(it.index()),
        {
            ids.push(*key);
            assert(ids@ =~= keys.take(it.index() + 1));
        }
        assert(ids@ =~= keys);
        assert(keys.no_duplicates()) by {
            let refs = spec_keys_iter(&self.nodes).remaining();
            assert forall|i: int, j: int| 0 <= i < keys.len() && 0 <= j < keys.len() && i != j implies keys[i] != keys[j] by {
                assert(refs[i] != refs[j]);
            }
        }
        assert(self@.nodes.dom() =~= self.nodes@.dom());
        ids
    }

    /// Classifies every node and appends each classified node to the bucket
    /// of its idiom. The nodes are taken in the order in which the node
    /// table hands them out; buckets that were there before are kept and
    /// extended.
    pub fn detect_patterns(&mut self)
        ensures
            final(self)@.nodes == old(self)@.nodes,
            final(self)@.root_nodes == old(self)@.root_nodes,
            final(self)@.language == old(self)@.language,
            exists|order: Seq<u64>|
                enumerates(order, old(self)@.nodes.dom()) && final(self)@.pattern_cache
                    == cache_after(old(self)@.nodes, order, old(self)@.pattern_cache),
    {
        let node_ids = self.node_ids();
        let ghost nodes = self@.nodes;
        let ghost cache0 = self@.pattern_cache;
        let mut i: usize = 0;
        while i < node_ids.len()
            invariant
                i <= node_ids@.len(),
                self.nodes == old(self).nodes,
                self.root_nodes == old(self).root_nodes,
                self.language == old(self).language,
                nodes == self@.nodes,
                self@.pattern_cache == cache_after(nodes, node_ids@.take(i as int), cache0),
            decreases node_ids@.len() - i,
        {
            let node_id = node_ids[i];
            let pattern = match self.nodes.get(&node_id) {
                Some(node) => {
                    assert(nodes.contains_key(node_id) && nodes[node_id] == node@);
                    self.analyze_node_pattern(node)
                },
                None => None,
            };
            if let Some(pattern) = pattern {
                file_in_cache(&mut self.pattern_cache, pattern.code(), node_id);
            }
            proof {
                assert(node_ids@.take(i + 1).drop_last() =~= node_ids@.take(i as int));
            }
            i = i + 1;
        }
        assert(node_ids@.take(node_ids@.len() as int) =~= node_ids@);
    }

    /// Appends the contribution of the subtree below `node_id` to `out`.
    fn hash_node_tree(&self, out: &mut Vec<u8>, node_id: u64, path: &mut Vec<u64>, depth: usize)
        ensures
            final(out)@ == old(out)@ + subtree_message(
                self@.nodes,
                node_id,
                old(path)@,
                depth as nat,
            ),
            final(path)@ == old(path)@,
        decreases depth,
    {
        let ghost out0 = out@;
        let ghost path0 = path@;
        let ghost nodes = self@.nodes;
        if depth == 0 || contains_id(path, node_id) {
            assert(out@ =~= out0 + Seq::<u8>::empty());
            return ;
        }
        match self.nodes.get(&node_id) {
            None => {
                assert(out@ =~= out0 + Seq::<u8>::empty());
            },
            Some(node) => {
                assert(nodes.contains_key(node_id) && nodes[node_id] == node@);
                let own = u64_to_le_bytes(node.pattern_hash);
                out.extend_from_slice(own.as_slice());
                path.push(node_id);
                let ghost children = node.children@;
                let ghost out1 = out@;
                let mut i: usize = 0;
                while i < node.children.len()
                    invariant
                        i <= children.len(),
                        children == node.children@,
                        nodes == self@.nodes,
                        depth > 0,
                        path@ == path0.push(node_id),
                        out@ == out1 + children_message(
                            nodes,
                            children.take(i as int),
                            path@,
                            (depth - 1) as nat,
                        ),
                    decreases children.len() - i,
                {
                    self.hash_node_tree(out, node.children[i], path, depth - 1);
                    proof {
                        assert(children.take(i + 1).drop_last() =~= children.take(i as int));
                        assert(out@ =~= out1 + children_message(
                            nodes,
                            children.take(i + 1),
                            path@,
                            (depth - 1) as nat,
                        ));
                    }
                    i = i + 1;
                }
                path.pop();
                proof {
                    assert(children.take(children.len() as int) =~= children);
                    assert(path@ =~= path0);
                    assert(out@ =~= out0 + subtree_message(nodes, node_id, path0, depth as nat));
                }
            },
        }
    }

    /// The message that the fingerprint digests: for each root that has a
    /// node, in order, the node's id, its language tag, and the pattern
    /// hashes of the nodes below it, parents before children. A subtree
    /// that several parents share is fed once for each of them. An id that
    /// is its own ancestor is not entered again, so that the walk ends on
    /// every graph.
    pub fn hash_message(&self) -> (message: Vec<u8>)
        ensures
            message@ == graph_message(self@.nodes, self@.root_nodes),
    {
        let ghost nodes = self@.nodes;
        let ghost roots = self.root_nodes@;
        assert(nodes.dom() =~= self.nodes@.dom());
        let mut message: Vec<u8> = Vec::new();
        let mut path: Vec<u64> = Vec::new();
        let mut i: usize = 0;
        while i < self.root_nodes.len()
            invariant
                i <= roots.len(),
                roots == self.root_nodes@,
                nodes == self@.nodes,
                nodes.dom() == self.nodes@.dom(),
                path@ == Seq::<u64>::empty(),
                message@ == graph_message(nodes, roots.take(i as int)),
            decreases roots.len() - i,
        {
            let root = self.root_nodes[i];
            let ghost before = message@;
            match self.nodes.get(&root) {
                None => {},
                Some(node) => {
                    assert(nodes.contains_key(root) && nodes[root] == node@);
                    let id_bytes = u64_to_le_bytes(node.id);
                    message.extend_from_slice(id_bytes.as_slice());
                    message.extend_from_slice(node.language.as_str().as_bytes());
                    self.hash_node_tree(&mut message, root, &mut path, self.nodes.len());
                },
            }
            proof {
                assert(roots.take(i + 1).drop_last() =~= roots.take(i as int));
                assert(message@ =~= before + root_message(nodes, root));
            }
            i = i + 1;
        }
        assert(roots.take(roots.len() as int) =~= roots);
        message
    }

    /// The fingerprint of the graph: a function of its roots in their
    /// order and of the id, language, pattern hash and children of its
    /// nodes, and of nothing else. Asked twice of an unchanged graph it
    /// gives the same number.
    pub fn calculate_semantic_hash(&self) -> (hash: u64)
        ensures
            hash == semantic_hash(self@),
    {
        let message = self.hash_message();
        let digest = blake3_hash(message.as_slice());
        digest_prefix(&digest)
    }
}

} // verus!
