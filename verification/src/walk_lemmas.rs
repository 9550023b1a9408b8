//! What the walk for recursive structure finds, proved from its definition.

use crate::semantic_graph::{recursive_from, walk, walk_children, NodeView, Walk};
use vstd::prelude::*;

verus! {

/// `later` begins with `earlier`.
pub open spec fn extends(later: Seq<u64>, earlier: Seq<u64>) -> bool {
    earlier.len() <= later.len() && forall|i: int|
        0 <= i < earlier.len() ==> later[i] == #[trigger] earlier[i]
}

/// The ids of `path` are distinct, each has a node, and each has been seen.
pub open spec fn on_path(nodes: Map<u64, NodeView>, path: Seq<u64>, visited: Seq<u64>) -> bool {
    path.no_duplicates() && forall|i: int|
        0 <= i < path.len() ==> nodes.contains_key(#[trigger] path[i]) && visited.contains(path[i])
}

/// A walk that stands below `path` may still expand every node that is not
/// on the path.
pub open spec fn deep_enough(nodes: Map<u64, NodeView>, path: Seq<u64>, depth: nat) -> bool {
    depth + path.len() >= nodes.dom().len()
}

/// Each id but the last has a node, and the next id is among its children.
pub open spec fn is_chain(nodes: Map<u64, NodeView>, chain: Seq<u64>) -> bool {
    chain.len() >= 1 && forall|i: int|
        0 <= i < chain.len() - 1 ==> nodes.contains_key(#[trigger] chain[i])
            && nodes[chain[i]].children.contains(chain[i + 1])
}

/// A walk from `id` that has seen `seen`, stands below `path` and has depth
/// enough, and that meets no id twice.
pub open spec fn quiet(
    nodes: Map<u64, NodeView>,
    id: u64,
    seen: Seq<u64>,
    path: Seq<u64>,
    depth: nat,
) -> bool {
    on_path(nodes, path, seen) && deep_enough(nodes, path, depth) && !walk(
        nodes,
        id,
        seen,
        depth,
    ).found
}

/// A walk from `id` that meets no id twice and has seen all of `earlier`.
pub open spec fn quiet_after(
    nodes: Map<u64, NodeView>,
    id: u64,
    seen: Seq<u64>,
    earlier: Seq<u64>,
    depth: nat,
) -> bool {
    extends(seen, earlier) && !walk(nodes, id, seen, depth).found
}

/// A path below which a node is still unseen is shorter than the node table.
pub proof fn lemma_room_on_path(
    nodes: Map<u64, NodeView>,
    path: Seq<u64>,
    visited: Seq<u64>,
    id: u64,
)
    requires
        nodes.dom().finite(),
        on_path(nodes, path, visited),
        nodes.contains_key(id),
        !visited.contains(id),
    ensures
        path.len() < nodes.dom().len(),
{
    let rest = nodes.dom().remove(id);
    assert forall|x: u64| path.to_set().contains(x) implies rest.contains(x) by {
        let i = choose|i: int| 0 <= i < path.len() && path[i] == x;
        assert(nodes.contains_key(path[i]) && visited.contains(path[i]));
    }
    path.unique_seq_to_set();
    vstd::set_lib::lemma_len_subset(path.to_set(), rest);
}

/// A walk keeps what was seen before it, in order. When it meets no id
/// twice, it has also seen the id it began at.
pub proof fn lemma_walk_extends(nodes: Map<u64, NodeView>, id: u64, visited: Seq<u64>, depth: nat)
    ensures
        extends(walk(nodes, id, visited, depth).visited, visited),
        !walk(nodes, id, visited, depth).found ==> !visited.contains(id) && walk(
            nodes,
            id,
            visited,
            depth,
        ).visited.contains(id),
    decreases depth, 0nat,
{
    if !visited.contains(id) {
        let next = visited.push(id);
        assert(next[visited.len() as int] == id);
        if nodes.contains_key(id) && depth != 0 {
            lemma_walk_children_extends(nodes, nodes[id].children, 0, next, (depth - 1) as nat);
            let after = walk_children(nodes, nodes[id].children, 0, next, (depth - 1) as nat).visited;
            assert(after[visited.len() as int] == next[visited.len() as int]);
            assert forall|i: int| 0 <= i < visited.len() implies after[i] == #[trigger] visited[i] by {
                assert(next[i] == visited[i]);
            }
        }
    }
}

/// The walk through the children of a node keeps what was seen before it.
pub proof fn lemma_walk_children_extends(
    nodes: Map<u64, NodeView>,
    children: Seq<u64>,
    from: nat,
    visited: Seq<u64>,
    depth: nat,
)
    ensures
        extends(walk_children(nodes, children, from, visited, depth).visited, visited),
    decreases depth, children.len() - from + 1,
{
    if from < children.len() {
        lemma_walk_extends(nodes, children[from as int], visited, depth);
        let step = walk(nodes, children[from as int], visited, depth);
        if !step.found {
            lemma_walk_children_extends(nodes, children, from + 1, step.visited, depth);
        }
    }
}

/// What begins with a list holds every id of the list.
pub proof fn lemma_extends_contains(later: Seq<u64>, earlier: Seq<u64>)
    requires
        extends(later, earlier),
    ensures
        forall|x: u64| earlier.contains(x) ==> later.contains(x),
{
    assert forall|x: u64| earlier.contains(x) implies later.contains(x) by {
        let i = choose|i: int| 0 <= i < earlier.len() && earlier[i] == x;
        assert(later[i] == earlier[i]);
    }
}

/// When the walk through the children of a node meets no id twice, neither
/// does the walk from any of them, begun with what was seen when its turn
/// came.
pub proof fn lemma_quiet_children(
    nodes: Map<u64, NodeView>,
    children: Seq<u64>,
    from: nat,
    visited: Seq<u64>,
    depth: nat,
    k: int,
)
    requires
        !walk_children(nodes, children, from, visited, depth).found,
        from <= k < children.len(),
    ensures
        exists|seen: Seq<u64>| #[trigger] quiet_after(nodes, children[k], seen, visited, depth),
    decreases children.len() - from,
{
    let step = walk(nodes, children[from as int], visited, depth);
    if k == from {
        assert(quiet_after(nodes, children[k], visited, visited, depth));
    } else {
        lemma_walk_extends(nodes, children[from as int], visited, depth);
        lemma_quiet_children(nodes, children, from + 1, step.visited, depth, k);
        let seen = choose|seen: Seq<u64>| #[trigger]
            quiet_after(nodes, children[k], seen, step.visited, depth);
        assert(quiet_after(nodes, children[k], seen, visited, depth));
    }
}

/// Along a chain of children that starts at a node whose walk meets no id
/// twice, the walk from each id of the chain meets none either, begun with
/// all the ids that come before it in the chain as seen.
pub proof fn lemma_chain_quiet(nodes: Map<u64, NodeView>, chain: Seq<u64>, i: int)
    requires
        nodes.dom().finite(),
        is_chain(nodes, chain),
        0 <= i < chain.len(),
        !recursive_from(nodes, chain[0]),
    ensures
        exists|seen: Seq<u64>, path: Seq<u64>, depth: nat| #[trigger]
            quiet(nodes, chain[i], seen, path, depth) && forall|j: int|
                0 <= j < i ==> seen.contains(chain[j]),
    decreases i,
{
    if i == 0 {
        let none = Seq::<u64>::empty();
        assert(quiet(nodes, chain[0], none, none, nodes.dom().len()));
    } else {
        lemma_chain_quiet(nodes, chain, i - 1);
        let (seen, path, depth) = choose|seen: Seq<u64>, path: Seq<u64>, depth: nat| #[trigger]
            quiet(nodes, chain[i - 1], seen, path, depth) && forall|j: int|
                0 <= j < i - 1 ==> seen.contains(chain[j]);
        let parent = chain[i - 1];
        assert(nodes.contains_key(parent) && nodes[parent].children.contains(chain[i - 1 + 1]));
        let children = nodes[parent].children;
        let k = choose|k: int| 0 <= k < children.len() && children[k] == chain[i];
        lemma_room_on_path(nodes, path, seen, parent);
        let below = seen.push(parent);
        let deeper = (depth - 1) as nat;
        lemma_quiet_children(nodes, children, 0, below, deeper, k);
        let next = choose|next: Seq<u64>| #[trigger]
            quiet_after(nodes, children[k], next, below, deeper);
        let longer = path.push(parent);
        lemma_extends_contains(next, below);
        assert(below[seen.len() as int] == parent);
        assert forall|x: u64| seen.contains(x) implies below.contains(x) by {
            let a = choose|a: int| 0 <= a < seen.len() && seen[a] == x;
            assert(below[a] == x);
        }
        assert forall|a: int| 0 <= a < longer.len() implies nodes.contains_key(
            #[trigger] longer[a],
        ) && next.contains(longer[a]) by {
            if a < path.len() {
                assert(longer[a] == path[a]);
                assert(seen.contains(path[a]));
            }
        }
        assert forall|a: int, b: int| 0 <= a < longer.len() && 0 <= b < longer.len() && a
            != b implies longer[a] != longer[b] by {
            if a < path.len() {
                assert(seen.contains(path[a]));
            }
            if b < path.len() {
                assert(seen.contains(path[b]));
            }
        }
        assert(quiet(nodes, chain[i], next, longer, deeper));
        assert forall|j: int| 0 <= j < i implies next.contains(chain[j]) by {
            if j < i - 1 {
                assert(seen.contains(chain[j]));
            }
        }
    }
}

/// A node from which a chain of children leads to an id by two ways, or
/// back to an id of the chain, has recursive structure. This holds in
/// particular of a node that is its own child and of a node on a cycle.
pub proof fn lemma_repeating_chain_is_recursive(nodes: Map<u64, NodeView>, chain: Seq<u64>)
    requires
        nodes.dom().finite(),
        is_chain(nodes, chain),
        !chain.no_duplicates(),
    ensures
        recursive_from(nodes, chain[0]),
{
    if !recursive_from(nodes, chain[0]) {
        let (a, b) = choose|a: int, b: int|
            0 <= a < chain.len() && 0 <= b < chain.len() && a != b && chain[a] == chain[b];
        let (i, j) = if a < b {
            (a, b)
        } else {
            (b, a)
        };
        lemma_chain_quiet(nodes, chain, j);
        let (seen, path, depth) = choose|seen: Seq<u64>, path: Seq<u64>, depth: nat| #[trigger]
            quiet(nodes, chain[j], seen, path, depth) && forall|x: int|
                0 <= x < j ==> seen.contains(chain[x]);
        assert(seen.contains(chain[i]));
    }
}

/// An id without a node is a leaf of the walk: it is recorded, or found if
/// it was seen before, and nothing below it is looked at.
pub proof fn lemma_dangling_is_leaf(nodes: Map<u64, NodeView>, id: u64, visited: Seq<u64>, depth: nat)
    requires
        !nodes.contains_key(id),
    ensures
        walk(nodes, id, visited, depth) == if visited.contains(id) {
            Walk { found: true, visited }
        } else {
            Walk { found: false, visited: visited.push(id) }
        },
{
}

/// The walk through children that are distinct, unseen, and without
/// children of their own meets no id twice and records each of them.
pub proof fn lemma_walk_leaves(
    nodes: Map<u64, NodeView>,
    children: Seq<u64>,
    from: nat,
    visited: Seq<u64>,
    depth: nat,
)
    requires
        from <= children.len(),
        children.no_duplicates(),
        forall|k: int|
            from <= k < children.len() ==> !visited.contains(#[trigger] children[k]) && (
            !nodes.contains_key(children[k]) || nodes[children[k]].children.len() == 0),
    ensures
        walk_children(nodes, children, from, visited, depth) == (Walk {
            found: false,
            visited: visited + children.subrange(from as int, children.len() as int),
        }),
    decreases children.len() - from,
{
    if from < children.len() {
        let child = children[from as int];
        let next = visited.push(child);
        assert(walk(nodes, child, visited, depth) == Walk { found: false, visited: next });
        assert forall|k: int| from + 1 <= k < children.len() implies !next.contains(
            #[trigger] children[k],
        ) by {
            if next.contains(children[k]) {
                let a = choose|a: int| 0 <= a < next.len() && next[a] == children[k];
                if a < visited.len() {
                    assert(visited[a] == children[k]);
                }
            }
        }
        lemma_walk_leaves(nodes, children, from + 1, next, depth);
        assert(next + children.subrange(from as int + 1, children.len() as int) =~= visited
            + children.subrange(from as int, children.len() as int));
    } else {
        assert(visited + children.subrange(from as int, children.len() as int) =~= visited);
    }
}

/// A node whose children are distinct, differ from it, and have no children
/// of their own has no recursive structure.
pub proof fn lemma_flat_node_is_not_recursive(nodes: Map<u64, NodeView>, id: u64)
    requires
        nodes.dom().finite(),
        nodes.contains_key(id),
        nodes[id].children.no_duplicates(),
        !nodes[id].children.contains(id),
        forall|k: int|
            0 <= k < nodes[id].children.len() ==> !nodes.contains_key(
                #[trigger] nodes[id].children[k],
            ) || nodes[nodes[id].children[k]].children.len() == 0,
    ensures
        !recursive_from(nodes, id),
{
    let children = nodes[id].children;
    let start = Seq::<u64>::empty().push(id);
    assert(nodes.dom().contains(id));
    assert(nodes.dom().len() > 0);
    assert forall|k: int| 0 <= k < children.len() implies !start.contains(#[trigger] children[k]) by {
        if start.contains(children[k]) {
            let a = choose|a: int| 0 <= a < start.len() && start[a] == children[k];
            assert(children[k] == id);
        }
    }
    lemma_walk_leaves(nodes, children, 0, start, (nodes.dom().len() - 1) as nat);
}

/// The outcome of a walk does not depend on its depth, once the depth
/// allows it to expand every node that is not on the path above it.
pub proof fn lemma_walk_depth(
    nodes: Map<u64, NodeView>,
    id: u64,
    visited: Seq<u64>,
    path: Seq<u64>,
    depth: nat,
    other: nat,
)
    requires
        nodes.dom().finite(),
        on_path(nodes, path, visited),
        deep_enough(nodes, path, depth),
        deep_enough(nodes, path, other),
    ensures
        walk(nodes, id, visited, depth) == walk(nodes, id, visited, other),
    decreases depth, 0nat,
{
    if !visited.contains(id) && nodes.contains_key(id) {
        lemma_room_on_path(nodes, path, visited, id);
        let below = visited.push(id);
        let longer = path.push(id);
        assert(below[visited.len() as int] == id);
        assert forall|a: int| 0 <= a < longer.len() implies nodes.contains_key(
            #[trigger] longer[a],
        ) && below.contains(longer[a]) by {
            if a < path.len() {
                assert(longer[a] == path[a]);
                let b = choose|b: int| 0 <= b < visited.len() && visited[b] == path[a];
                assert(below[b] == path[a]);
            }
        }
        assert forall|a: int, b: int| 0 <= a < longer.len() && 0 <= b < longer.len() && a
            != b implies longer[a] != longer[b] by {
            if a < path.len() {
                assert(visited.contains(path[a]));
            }
            if b < path.len() {
                assert(visited.contains(path[b]));
            }
        }
        lemma_walk_children_depth(
            nodes,
            nodes[id].children,
            0,
            below,
            longer,
            (depth - 1) as nat,
            (other - 1) as nat,
        );
    }
}

/// The outcome of the walk through the children of a node does not depend
/// on its depth, once the depth is enough.
pub proof fn lemma_walk_children_depth(
    nodes: Map<u64, NodeView>,
    children: Seq<u64>,
    from: nat,
    visited: Seq<u64>,
    path: Seq<u64>,
    depth: nat,
    other: nat,
)
    requires
        nodes.dom().finite(),
        on_path(nodes, path, visited),
        deep_enough(nodes, path, depth),
        deep_enough(nodes, path, other),
    ensures
        walk_children(nodes, children, from, visited, depth) == walk_children(
            nodes,
            children,
            from,
            visited,
            other,
        ),
    decreases depth, children.len() - from + 1,
{
    if from < children.len() {
        lemma_walk_depth(nodes, children[from as int], visited, path, depth, other);
        let step = walk(nodes, children[from as int], visited, depth);
        if !step.found {
            lemma_walk_extends(nodes, children[from as int], visited, depth);
            lemma_extends_contains(step.visited, visited);
            lemma_walk_children_depth(nodes, children, from + 1, step.visited, path, depth, other);
        }
    }
}

/// Whatever was seen before, a walk with more depth than the graph has nodes
/// ends as the walk with exactly that depth.
pub proof fn lemma_depth_of_table_suffices(
    nodes: Map<u64, NodeView>,
    id: u64,
    visited: Seq<u64>,
    depth: nat,
)
    requires
        nodes.dom().finite(),
        depth >= nodes.dom().len(),
    ensures
        walk(nodes, id, visited, depth) == walk(nodes, id, visited, nodes.dom().len()),
{
    lemma_walk_depth(nodes, id, visited, Seq::<u64>::empty(), depth, nodes.dom().len());
}

/// The ids below an id, the id itself first, then what lies below each of
/// its children in order, down to a depth. An id without a node is listed
/// and has nothing below it.
pub open spec fn unfolding(nodes: Map<u64, NodeView>, id: u64, depth: nat) -> Seq<u64>
    decreases depth, 0nat,
{
    if nodes.contains_key(id) && depth != 0 {
        seq![id] + unfolding_of_children(nodes, nodes[id].children, 0, (depth - 1) as nat)
    } else {
        seq![id]
    }
}

/// What lies below the children of a node from position `from` on.
pub open spec fn unfolding_of_children(
    nodes: Map<u64, NodeView>,
    children: Seq<u64>,
    from: nat,
    depth: nat,
) -> Seq<u64>
    decreases depth, children.len() - from + 1,
{
    if from >= children.len() {
        Seq::empty()
    } else {
        unfolding(nodes, children[from as int], depth) + unfolding_of_children(
            nodes,
            children,
            from + 1,
            depth,
        )
    }
}

/// A list that begins with a list that names an id twice names it twice.
pub proof fn lemma_repeat_stays(front: Seq<u64>, back: Seq<u64>)
    requires
        !front.no_duplicates(),
    ensures
        !(front + back).no_duplicates(),
{
    let (i, j) = choose|i: int, j: int|
        0 <= i < front.len() && 0 <= j < front.len() && i != j && front[i] == front[j];
    assert((front + back)[i] == front[i]);
    assert((front + back)[j] == front[j]);
}

/// A walk that begins with distinct ids as seen meets an id twice exactly if
/// those ids, followed by what lies below its start, name an id twice. When
/// it meets none, it has seen exactly that list.
pub proof fn lemma_walk_lists_unfolding(
    nodes: Map<u64, NodeView>,
    id: u64,
    visited: Seq<u64>,
    depth: nat,
)
    requires
        visited.no_duplicates(),
    ensures
        walk(nodes, id, visited, depth).found <==> !(visited + unfolding(
            nodes,
            id,
            depth,
        )).no_duplicates(),
        !walk(nodes, id, visited, depth).found ==> walk(nodes, id, visited, depth).visited
            == visited + unfolding(nodes, id, depth),
    decreases depth, 0nat,
{
    let below = visited.push(id);
    let listed = visited + unfolding(nodes, id, depth);
    if visited.contains(id) {
        let i = choose|i: int| 0 <= i < visited.len() && visited[i] == id;
        assert(listed[i] == id);
        assert(listed[visited.len() as int] == id);
    } else {
        assert forall|a: int, b: int| 0 <= a < below.len() && 0 <= b < below.len() && a
            != b implies below[a] != below[b] by {
            if a < visited.len() {
                assert(visited.contains(visited[a]));
            }
            if b < visited.len() {
                assert(visited.contains(visited[b]));
            }
        }
        if nodes.contains_key(id) && depth != 0 {
            let deeper = (depth - 1) as nat;
            lemma_walk_children_list_unfolding(nodes, nodes[id].children, 0, below, deeper);
            assert(listed =~= below + unfolding_of_children(nodes, nodes[id].children, 0, deeper));
        } else {
            assert(listed =~= below);
        }
    }
}

/// The walk through the children of a node, begun with distinct ids as
/// seen, meets an id twice exactly if those ids, followed by what lies below
/// the children, name an id twice. When it meets none, it has seen exactly
/// that list.
pub proof fn lemma_walk_children_list_unfolding(
    nodes: Map<u64, NodeView>,
    children: Seq<u64>,
    from: nat,
    visited: Seq<u64>,
    depth: nat,
)
    requires
        visited.no_duplicates(),
    ensures
        walk_children(nodes, children, from, visited, depth).found <==> !(visited
            + unfolding_of_children(nodes, children, from, depth)).no_duplicates(),
        !walk_children(nodes, children, from, visited, depth).found ==> walk_children(
            nodes,
            children,
            from,
            visited,
            depth,
        ).visited == visited + unfolding_of_children(nodes, children, from, depth),
    decreases depth, children.len() - from + 1,
{
    if from >= children.len() {
        assert(visited + unfolding_of_children(nodes, children, from, depth) =~= visited);
    } else {
        let child = children[from as int];
        let step = walk(nodes, child, visited, depth);
        let first = visited + unfolding(nodes, child, depth);
        let rest = unfolding_of_children(nodes, children, from + 1, depth);
        lemma_walk_lists_unfolding(nodes, child, visited, depth);
        assert(visited + unfolding_of_children(nodes, children, from, depth) =~= first + rest);
        if step.found {
            lemma_repeat_stays(first, rest);
        } else {
            lemma_walk_children_list_unfolding(nodes, children, from + 1, step.visited, depth);
        }
    }
}

/// A node has recursive structure exactly if the list of what lies below it
/// names an id twice: if an id is reached again on the way down, or by two
/// ways, or if a node names a child twice.
pub proof fn lemma_recursive_iff_unfolding_repeats(nodes: Map<u64, NodeView>, id: u64)
    ensures
        recursive_from(nodes, id) <==> !unfolding(nodes, id, nodes.dom().len()).no_duplicates(),
{
    let none = Seq::<u64>::empty();
    lemma_walk_lists_unfolding(nodes, id, none, nodes.dom().len());
    assert(none + unfolding(nodes, id, nodes.dom().len()) =~= unfolding(
        nodes,
        id,
        nodes.dom().len(),
    ));
}

} // verus!
