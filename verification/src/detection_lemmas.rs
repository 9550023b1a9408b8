//! What the pattern cache holds after detection, bucket by bucket.

use crate::semantic_graph::{cache_after, classify, enumerates, file_under, NodeView};
use vstd::prelude::*;

verus! {

/// Whether the graph holds a node for an id and detection files it under a
/// code.
pub open spec fn classified_under(nodes: Map<u64, NodeView>, id: u64, code: u64) -> bool {
    nodes.contains_key(id) && match classify(nodes, nodes[id]) {
        Some(pattern) => pattern.spec_code() == code,
        None => false,
    }
}

/// The ids of a list that detection files under a code, in the order of the
/// list.
pub open spec fn filed(nodes: Map<u64, NodeView>, order: Seq<u64>, code: u64) -> Seq<u64>
    decreases order.len(),
{
    if order.len() == 0 {
        Seq::empty()
    } else if classified_under(nodes, order.last(), code) {
        filed(nodes, order.drop_last(), code).push(order.last())
    } else {
        filed(nodes, order.drop_last(), code)
    }
}

/// The bucket of a code, empty where the cache has none.
pub open spec fn bucket(cache: Map<u64, Seq<u64>>, code: u64) -> Seq<u64> {
    if cache.contains_key(code) {
        cache[code]
    } else {
        Seq::empty()
    }
}

/// After detection the bucket of each code is what it was before, then the
/// ids that were filed under the code, in the order in which the nodes were
/// taken. A code has a bucket exactly if it had one or an id was filed under
/// it.
pub proof fn lemma_bucket_after(
    nodes: Map<u64, NodeView>,
    order: Seq<u64>,
    cache: Map<u64, Seq<u64>>,
    code: u64,
)
    ensures
        bucket(cache_after(nodes, order, cache), code) == bucket(cache, code) + filed(
            nodes,
            order,
            code,
        ),
        cache_after(nodes, order, cache).contains_key(code) <==> cache.contains_key(code) || filed(
            nodes,
            order,
            code,
        ).len() > 0,
    decreases order.len(),
{
    if order.len() == 0 {
        assert(bucket(cache, code) + Seq::<u64>::empty() =~= bucket(cache, code));
    } else {
        let front = order.drop_last();
        let id = order.last();
        lemma_bucket_after(nodes, front, cache, code);
        let before = cache_after(nodes, front, cache);
        if classified_under(nodes, id, code) {
            assert(cache_after(nodes, order, cache) == file_under(before, code, id));
            assert(bucket(cache, code) + filed(nodes, front, code).push(id) =~= (bucket(cache, code)
                + filed(nodes, front, code)).push(id));
        } else {
            if nodes.contains_key(id) {
                match classify(nodes, nodes[id]) {
                    Some(pattern) => {
                        assert(pattern.spec_code() != code);
                        assert(cache_after(nodes, order, cache) == file_under(
                            before,
                            pattern.spec_code(),
                            id,
                        ));
                    },
                    None => {},
                }
            }
        }
    }
}

/// The ids filed under a code are the ids of the list that are classified
/// under it, and an id that the list names once is filed once.
pub proof fn lemma_filed_members(nodes: Map<u64, NodeView>, order: Seq<u64>, code: u64)
    ensures
        forall|id: u64|
            filed(nodes, order, code).contains(id) <==> order.contains(id) && classified_under(
                nodes,
                id,
                code,
            ),
        order.no_duplicates() ==> filed(nodes, order, code).no_duplicates(),
    decreases order.len(),
{
    if order.len() > 0 {
        let front = order.drop_last();
        let last = order.last();
        lemma_filed_members(nodes, front, code);
        let before = filed(nodes, front, code);
        let now = filed(nodes, order, code);
        assert forall|id: u64| order.contains(id) <==> front.contains(id) || id == last by {
            if order.contains(id) {
                let i = choose|i: int| 0 <= i < order.len() && order[i] == id;
                if i < front.len() {
                    assert(front[i] == id);
                }
            }
            if front.contains(id) {
                let i = choose|i: int| 0 <= i < front.len() && front[i] == id;
                assert(order[i] == id);
            }
            assert(order[order.len() - 1] == last);
        }
        assert forall|id: u64| now.contains(id) <==> order.contains(id) && classified_under(
            nodes,
            id,
            code,
        ) by {
            if classified_under(nodes, last, code) {
                assert(now == before.push(last));
                assert(now[before.len() as int] == last);
                if now.contains(id) {
                    let i = choose|i: int| 0 <= i < now.len() && now[i] == id;
                    if i < before.len() {
                        assert(before[i] == id);
                    }
                }
                if before.contains(id) {
                    let i = choose|i: int| 0 <= i < before.len() && before[i] == id;
                    assert(now[i] == id);
                }
            }
        }
        if order.no_duplicates() {
            assert(front.no_duplicates());
            if classified_under(nodes, last, code) {
                assert(!front.contains(last)) by {
                    if front.contains(last) {
                        let i = choose|i: int| 0 <= i < front.len() && front[i] == last;
                        assert(order[i] == order[order.len() - 1]);
                    }
                }
                assert forall|a: int, b: int| 0 <= a < now.len() && 0 <= b < now.len() && a
                    != b implies now[a] != now[b] by {
                    if a < before.len() {
                        assert(before.contains(before[a]));
                    }
                    if b < before.len() {
                        assert(before.contains(before[b]));
                    }
                }
            }
        }
    }
}

/// Detection on a graph with an empty cache leaves under each code exactly
/// the ids of the nodes that are classified under it, each once.
pub proof fn lemma_detection_files_each_once(nodes: Map<u64, NodeView>, order: Seq<u64>, code: u64)
    requires
        enumerates(order, nodes.dom()),
    ensures
        bucket(cache_after(nodes, order, Map::empty()), code).no_duplicates(),
        forall|id: u64|
            bucket(cache_after(nodes, order, Map::empty()), code).contains(id) <==> classified_under(
                nodes,
                id,
                code,
            ),
{
    lemma_bucket_after(nodes, order, Map::empty(), code);
    lemma_filed_members(nodes, order, code);
    assert(Seq::<u64>::empty() + filed(nodes, order, code) =~= filed(nodes, order, code));
    assert forall|id: u64| classified_under(nodes, id, code) implies order.contains(id) by {
        assert(nodes.dom().contains(id));
        assert(order.to_set().contains(id));
    }
}

} // verus!
