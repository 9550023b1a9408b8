//! What the fingerprint's message depends on, proved from its definition.

use crate::semantic_graph::{
    children_message, graph_message, root_message, semantic_hash, subtree_message, GraphView,
    NodeView,
};
use crate::walk_lemmas::{deep_enough, lemma_room_on_path, on_path};
use vstd::bytes::{lemma_auto_spec_u64_to_from_le_bytes, spec_u64_to_le_bytes};
use vstd::prelude::*;
use vstd::utf8::encode_utf8;

verus! {

/// Two nodes agree in all that the fingerprint reads of a node: the id, the
/// language, the pattern hash and the children.
pub open spec fn same_for_hashing(a: NodeView, b: NodeView) -> bool {
    a.id == b.id && a.language == b.language && a.pattern_hash == b.pattern_hash && a.children
        == b.children
}

/// Two node tables hold the same ids, and agree for each id in all that the
/// fingerprint reads.
pub open spec fn tables_agree(a: Map<u64, NodeView>, b: Map<u64, NodeView>) -> bool {
    a.dom() == b.dom() && forall|id: u64|
        a.contains_key(id) ==> same_for_hashing(#[trigger] a[id], b[id])
}

/// The subtree below an id contributes the same in tables that agree.
pub proof fn lemma_subtree_reads_only(
    a: Map<u64, NodeView>,
    b: Map<u64, NodeView>,
    id: u64,
    path: Seq<u64>,
    depth: nat,
)
    requires
        tables_agree(a, b),
    ensures
        subtree_message(a, id, path, depth) == subtree_message(b, id, path, depth),
    decreases depth, 0nat,
{
    assert(a.contains_key(id) == b.dom().contains(id));
    if a.contains_key(id) && !path.contains(id) && depth != 0 {
        assert(same_for_hashing(a[id], b[id]));
        lemma_children_reads_only(a, b, a[id].children, path.push(id), (depth - 1) as nat);
    }
}

/// A list of children contributes the same in tables that agree.
pub proof fn lemma_children_reads_only(
    a: Map<u64, NodeView>,
    b: Map<u64, NodeView>,
    children: Seq<u64>,
    path: Seq<u64>,
    depth: nat,
)
    requires
        tables_agree(a, b),
    ensures
        children_message(a, children, path, depth) == children_message(b, children, path, depth),
    decreases depth, children.len() + 1,
{
    if children.len() > 0 {
        lemma_children_reads_only(a, b, children.drop_last(), path, depth);
        lemma_subtree_reads_only(a, b, children.last(), path, depth);
    }
}

/// The message of a list of roots is the same in tables that agree.
pub proof fn lemma_message_reads_only(a: Map<u64, NodeView>, b: Map<u64, NodeView>, roots: Seq<u64>)
    requires
        tables_agree(a, b),
    ensures
        graph_message(a, roots) == graph_message(b, roots),
    decreases roots.len(),
{
    if roots.len() > 0 {
        lemma_message_reads_only(a, b, roots.drop_last());
        let root = roots.last();
        assert(a.contains_key(root) == b.dom().contains(root));
        if a.contains_key(root) {
            assert(same_for_hashing(a[root], b[root]));
            lemma_subtree_reads_only(a, b, root, Seq::empty(), a.dom().len());
        }
    }
}

/// The fingerprint is a function of the roots in their order and of the id,
/// language, pattern hash and children of each node: graphs that agree in
/// these have the same fingerprint, whatever the kinds and annotations of
/// their nodes, their pattern caches and their own language tags are.
pub proof fn lemma_fingerprint_reads_only(a: GraphView, b: GraphView)
    requires
        a.root_nodes == b.root_nodes,
        tables_agree(a.nodes, b.nodes),
    ensures
        graph_message(a.nodes, a.root_nodes) == graph_message(b.nodes, b.root_nodes),
        semantic_hash(a) == semantic_hash(b),
{
    lemma_message_reads_only(a.nodes, b.nodes, a.root_nodes);
}

/// The message of a list of roots is what the first root contributes, then
/// the message of the others.
pub proof fn lemma_message_front(nodes: Map<u64, NodeView>, roots: Seq<u64>)
    requires
        roots.len() > 0,
    ensures
        graph_message(nodes, roots) == root_message(nodes, roots[0]) + graph_message(
            nodes,
            roots.drop_first(),
        ),
    decreases roots.len(),
{
    let last = root_message(nodes, roots.last());
    if roots.len() == 1 {
        assert(graph_message(nodes, roots.drop_last()) == Seq::<u8>::empty());
        assert(graph_message(nodes, roots.drop_first()) == Seq::<u8>::empty());
        assert(Seq::<u8>::empty() + last =~= last + Seq::<u8>::empty());
    } else {
        let front = roots.drop_last();
        lemma_message_front(nodes, front);
        assert(front.drop_first() =~= roots.drop_first().drop_last());
        assert(front[0] == roots[0]);
        assert(roots.drop_first().last() == roots.last());
        let head = root_message(nodes, roots[0]);
        let middle = graph_message(nodes, front.drop_first());
        assert((head + middle) + last =~= head + (middle + last));
    }
}

/// The message of a graph whose first root has a node begins with the
/// little-endian bytes of that node's id, then the bytes of its language,
/// then those of its pattern hash.
pub proof fn lemma_message_head(nodes: Map<u64, NodeView>, roots: Seq<u64>)
    requires
        nodes.dom().finite(),
        roots.len() > 0,
        nodes.contains_key(roots[0]),
    ensures
        ({
            let node = nodes[roots[0]];
            let message = graph_message(nodes, roots);
            let tag = encode_utf8(node.language).len() as int;
            16 + tag <= message.len() && message.subrange(0, 8) == spec_u64_to_le_bytes(node.id)
                && message.subrange(8, 8 + tag) == encode_utf8(node.language) && message.subrange(
                8 + tag,
                16 + tag,
            ) == spec_u64_to_le_bytes(node.pattern_hash)
        }),
{
    let root = roots[0];
    let node = nodes[root];
    let message = graph_message(nodes, roots);
    let tag = encode_utf8(node.language).len() as int;
    lemma_message_front(nodes, roots);
    lemma_auto_spec_u64_to_from_le_bytes();
    assert(nodes.dom().contains(root));
    assert(nodes.dom().len() > 0);
    assert(!Seq::<u64>::empty().contains(root));
    let below = children_message(
        nodes,
        node.children,
        Seq::<u64>::empty().push(root),
        (nodes.dom().len() - 1) as nat,
    );
    let rest = graph_message(nodes, roots.drop_first());
    assert(message == spec_u64_to_le_bytes(node.id) + encode_utf8(node.language) + (
    spec_u64_to_le_bytes(node.pattern_hash) + below) + rest);
    assert(message.subrange(0, 8) =~= spec_u64_to_le_bytes(node.id));
    assert(message.subrange(8, 8 + tag) =~= encode_utf8(node.language));
    assert(message.subrange(8 + tag, 16 + tag) =~= spec_u64_to_le_bytes(node.pattern_hash));
}

/// Different numbers have different little-endian bytes.
pub proof fn lemma_le_bytes_differ(x: u64, y: u64)
    requires
        x != y,
    ensures
        spec_u64_to_le_bytes(x) != spec_u64_to_le_bytes(y),
{
    lemma_auto_spec_u64_to_from_le_bytes();
}

/// Graphs whose first roots have nodes with different ids have different
/// messages.
pub proof fn lemma_first_root_shows(
    a: Map<u64, NodeView>,
    a_roots: Seq<u64>,
    b: Map<u64, NodeView>,
    b_roots: Seq<u64>,
)
    requires
        a.dom().finite(),
        b.dom().finite(),
        a_roots.len() > 0,
        b_roots.len() > 0,
        a.contains_key(a_roots[0]),
        b.contains_key(b_roots[0]),
        a[a_roots[0]].id != b[b_roots[0]].id,
    ensures
        graph_message(a, a_roots) != graph_message(b, b_roots),
{
    lemma_message_head(a, a_roots);
    lemma_message_head(b, b_roots);
    lemma_le_bytes_differ(a[a_roots[0]].id, b[b_roots[0]].id);
}

/// The order of two roots shows in the message: with the roots exchanged
/// the message is another one, if both roots have nodes and the ids of the
/// two nodes differ.
pub proof fn lemma_root_order_shows(nodes: Map<u64, NodeView>, first: u64, second: u64)
    requires
        nodes.dom().finite(),
        nodes.contains_key(first),
        nodes.contains_key(second),
        nodes[first].id != nodes[second].id,
    ensures
        graph_message(nodes, seq![first, second]) != graph_message(nodes, seq![second, first]),
{
    lemma_first_root_shows(nodes, seq![first, second], nodes, seq![second, first]);
}

/// The pattern hash of the first root shows in the message: tables that
/// give the node of that root the same id and language but another pattern
/// hash have different messages, whatever else they hold.
pub proof fn lemma_root_pattern_hash_shows(
    a: Map<u64, NodeView>,
    b: Map<u64, NodeView>,
    roots: Seq<u64>,
)
    requires
        a.dom().finite(),
        b.dom().finite(),
        roots.len() > 0,
        a.contains_key(roots[0]),
        b.contains_key(roots[0]),
        a[roots[0]].id == b[roots[0]].id,
        a[roots[0]].language == b[roots[0]].language,
        a[roots[0]].pattern_hash != b[roots[0]].pattern_hash,
    ensures
        graph_message(a, roots) != graph_message(b, roots),
{
    lemma_message_head(a, roots);
    lemma_message_head(b, roots);
    lemma_le_bytes_differ(a[roots[0]].pattern_hash, b[roots[0]].pattern_hash);
}

/// An id without a node contributes nothing, as a root and as a child.
pub proof fn lemma_dangling_contributes_nothing(
    nodes: Map<u64, NodeView>,
    id: u64,
    path: Seq<u64>,
    depth: nat,
)
    requires
        !nodes.contains_key(id),
    ensures
        subtree_message(nodes, id, path, depth) == Seq::<u8>::empty(),
        root_message(nodes, id) == Seq::<u8>::empty(),
{
}

/// What a subtree contributes does not depend on the depth of the walk,
/// once the depth allows it to expand every node that is not on the path.
pub proof fn lemma_subtree_depth(
    nodes: Map<u64, NodeView>,
    id: u64,
    path: Seq<u64>,
    depth: nat,
    other: nat,
)
    requires
        nodes.dom().finite(),
        on_path(nodes, path, path),
        deep_enough(nodes, path, depth),
        deep_enough(nodes, path, other),
    ensures
        subtree_message(nodes, id, path, depth) == subtree_message(nodes, id, path, other),
    decreases depth, 0nat,
{
    if nodes.contains_key(id) && !path.contains(id) {
        lemma_room_on_path(nodes, path, path, id);
        let longer = path.push(id);
        assert forall|a: int| 0 <= a < longer.len() implies nodes.contains_key(
            #[trigger] longer[a],
        ) && longer.contains(longer[a]) by {
            if a < path.len() {
                assert(longer[a] == path[a]);
            }
        }
        assert forall|a: int, b: int| 0 <= a < longer.len() && 0 <= b < longer.len() && a
            != b implies longer[a] != longer[b] by {
            if a < path.len() {
                assert(path.contains(path[a]));
            }
            if b < path.len() {
                assert(path.contains(path[b]));
            }
        }
        lemma_children_depth(
            nodes,
            nodes[id].children,
            longer,
            (depth - 1) as nat,
            (other - 1) as nat,
        );
    }
}

/// What a list of children contributes does not depend on the depth of the
/// walk, once the depth is enough.
pub proof fn lemma_children_depth(
    nodes: Map<u64, NodeView>,
    children: Seq<u64>,
    path: Seq<u64>,
    depth: nat,
    other: nat,
)
    requires
        nodes.dom().finite(),
        on_path(nodes, path, path),
        deep_enough(nodes, path, depth),
        deep_enough(nodes, path, other),
    ensures
        children_message(nodes, children, path, depth) == children_message(
            nodes,
            children,
            path,
            other,
        ),
    decreases depth, children.len() + 1,
{
    if children.len() > 0 {
        lemma_children_depth(nodes, children.drop_last(), path, depth, other);
        lemma_subtree_depth(nodes, children.last(), path, depth, other);
    }
}

/// Whether the walk below an id feeds the pattern hash of the node `x`.
pub open spec fn subtree_feeds(
    nodes: Map<u64, NodeView>,
    id: u64,
    path: Seq<u64>,
    depth: nat,
    x: u64,
) -> bool
    decreases depth, 0nat,
{
    if !nodes.contains_key(id) || path.contains(id) || depth == 0 {
        false
    } else {
        id == x || children_feed(nodes, nodes[id].children, path.push(id), (depth - 1) as nat, x)
    }
}

/// Whether the walk below one of a list of children feeds the pattern hash
/// of the node `x`.
pub open spec fn children_feed(
    nodes: Map<u64, NodeView>,
    children: Seq<u64>,
    path: Seq<u64>,
    depth: nat,
    x: u64,
) -> bool
    decreases depth, children.len() + 1,
{
    if children.len() == 0 {
        false
    } else {
        children_feed(nodes, children.drop_last(), path, depth, x) || subtree_feeds(
            nodes,
            children.last(),
            path,
            depth,
            x,
        )
    }
}

/// Whether the message of a list of roots holds the pattern hash of the
/// node `x`: whether the walk from one of the roots reaches it.
pub open spec fn graph_feeds(nodes: Map<u64, NodeView>, roots: Seq<u64>, x: u64) -> bool
    decreases roots.len(),
{
    if roots.len() == 0 {
        false
    } else {
        graph_feeds(nodes, roots.drop_last(), x) || subtree_feeds(
            nodes,
            roots.last(),
            Seq::empty(),
            nodes.dom().len(),
            x,
        )
    }
}

/// Two tables that hold the same ids and agree in all that the fingerprint
/// reads, but for the pattern hash of the node `x`, in which they differ.
pub open spec fn differ_in_pattern_hash(a: Map<u64, NodeView>, b: Map<u64, NodeView>, x: u64) -> bool {
    a.dom() == b.dom() && a.contains_key(x) && a[x].pattern_hash != b[x].pattern_hash && a[x].id
        == b[x].id && a[x].language == b[x].language && a[x].children == b[x].children
        && forall|id: u64|
        a.contains_key(id) && id != x ==> same_for_hashing(#[trigger] a[id], b[id])
}

/// Two byte strings made of parts of the same lengths are equal exactly if
/// their parts are.
pub proof fn lemma_joined_equal(p: Seq<u8>, q: Seq<u8>, r: Seq<u8>, s: Seq<u8>)
    requires
        p.len() == r.len(),
    ensures
        (p + q == r + s) <==> (p == r && q == s),
{
    if p + q == r + s {
        assert(p =~= (p + q).subrange(0, p.len() as int));
        assert(r =~= (r + s).subrange(0, r.len() as int));
        assert(q =~= (p + q).subrange(p.len() as int, (p + q).len() as int));
        assert(s =~= (r + s).subrange(r.len() as int, (r + s).len() as int));
    }
}

/// In tables that differ in the pattern hash of one node, a subtree
/// contributes as many bytes in one as in the other, and the same bytes
/// exactly if its walk does not feed that node.
pub proof fn lemma_subtree_shows(
    a: Map<u64, NodeView>,
    b: Map<u64, NodeView>,
    x: u64,
    id: u64,
    path: Seq<u64>,
    depth: nat,
)
    requires
        differ_in_pattern_hash(a, b, x),
    ensures
        subtree_message(a, id, path, depth).len() == subtree_message(b, id, path, depth).len(),
        subtree_message(a, id, path, depth) == subtree_message(b, id, path, depth)
            <==> !subtree_feeds(a, id, path, depth, x),
    decreases depth, 0nat,
{
    assert(a.contains_key(id) == b.dom().contains(id));
    if a.contains_key(id) && !path.contains(id) && depth != 0 {
        let below = path.push(id);
        let deeper = (depth - 1) as nat;
        lemma_auto_spec_u64_to_from_le_bytes();
        if id != x {
            assert(same_for_hashing(a[id], b[id]));
        }
        lemma_children_shows(a, b, x, a[id].children, below, deeper);
        lemma_joined_equal(
            spec_u64_to_le_bytes(a[id].pattern_hash),
            children_message(a, a[id].children, below, deeper),
            spec_u64_to_le_bytes(b[id].pattern_hash),
            children_message(b, a[id].children, below, deeper),
        );
        if id == x {
            lemma_le_bytes_differ(a[id].pattern_hash, b[id].pattern_hash);
        }
    }
}

/// In tables that differ in the pattern hash of one node, a list of
/// children contributes as many bytes in one as in the other, and the same
/// bytes exactly if no walk below them feeds that node.
pub proof fn lemma_children_shows(
    a: Map<u64, NodeView>,
    b: Map<u64, NodeView>,
    x: u64,
    children: Seq<u64>,
    path: Seq<u64>,
    depth: nat,
)
    requires
        differ_in_pattern_hash(a, b, x),
    ensures
        children_message(a, children, path, depth).len() == children_message(
            b,
            children,
            path,
            depth,
        ).len(),
        children_message(a, children, path, depth) == children_message(b, children, path, depth)
            <==> !children_feed(a, children, path, depth, x),
    decreases depth, children.len() + 1,
{
    if children.len() > 0 {
        lemma_children_shows(a, b, x, children.drop_last(), path, depth);
        lemma_subtree_shows(a, b, x, children.last(), path, depth);
        lemma_joined_equal(
            children_message(a, children.drop_last(), path, depth),
            subtree_message(a, children.last(), path, depth),
            children_message(b, children.drop_last(), path, depth),
            subtree_message(b, children.last(), path, depth),
        );
    }
}

/// The pattern hash of every node that the walk reaches shows in the
/// message: tables that differ in the pattern hash of one node, and in
/// nothing else that the fingerprint reads, have different messages if the
/// walk from one of the roots feeds that node, and the same message if none
/// does.
pub proof fn lemma_pattern_hash_shows(
    a: Map<u64, NodeView>,
    b: Map<u64, NodeView>,
    roots: Seq<u64>,
    x: u64,
)
    requires
        differ_in_pattern_hash(a, b, x),
    ensures
        graph_message(a, roots).len() == graph_message(b, roots).len(),
        graph_message(a, roots) == graph_message(b, roots) <==> !graph_feeds(a, roots, x),
    decreases roots.len(),
{
    if roots.len() > 0 {
        let root = roots.last();
        lemma_pattern_hash_shows(a, b, roots.drop_last(), x);
        assert(a.contains_key(root) == b.dom().contains(root));
        if a.contains_key(root) {
            if root != x {
                assert(same_for_hashing(a[root], b[root]));
            }
            let none = Seq::<u64>::empty();
            lemma_subtree_shows(a, b, x, root, none, a.dom().len());
            let head = spec_u64_to_le_bytes(a[root].id) + encode_utf8(a[root].language);
            lemma_joined_equal(
                head,
                subtree_message(a, root, none, a.dom().len()),
                head,
                subtree_message(b, root, none, b.dom().len()),
            );
        }
        lemma_joined_equal(
            graph_message(a, roots.drop_last()),
            root_message(a, root),
            graph_message(b, roots.drop_last()),
            root_message(b, root),
        );
    }
}

/// With no path above it, a walk for the message with more depth than the
/// graph has nodes contributes what the walk with exactly that depth does.
pub proof fn lemma_depth_of_table_suffices(nodes: Map<u64, NodeView>, id: u64, depth: nat)
    requires
        nodes.dom().finite(),
        depth >= nodes.dom().len(),
    ensures
        subtree_message(nodes, id, Seq::empty(), depth) == subtree_message(
            nodes,
            id,
            Seq::empty(),
            nodes.dom().len(),
        ),
{
    lemma_subtree_depth(nodes, id, Seq::<u64>::empty(), depth, nodes.dom().len());
}

} // verus!
