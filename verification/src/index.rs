//! The ring's index: virtual nodes in ring order.

use crate::hash::RingHash;
use crate::node::{
    fresh_nodes, lemma_node_lt_asymmetric, lemma_node_lt_connected, lemma_node_lt_transitive,
    node_lt, node_views, NodeView, VirtualNode,
};
use crate::order::str_equal;
use vstd::prelude::*;

verus! {

/// The sequence runs strictly upward in ring order.
pub open spec fn sorted(index: Seq<NodeView>) -> bool {
    forall|i: int, j: int| 0 <= i < j < index.len() ==> node_lt(index[i], index[j])
}

/// The first index from `i` on whose node lies at `position` or beyond it; the
/// length of the sequence if there is none.
pub open spec fn first_at_or_after_from(index: Seq<NodeView>, position: u64, i: int) -> int
    decreases index.len() - i,
{
    if i >= index.len() || index[i].position >= position {
        i
    } else {
        first_at_or_after_from(index, position, i + 1)
    }
}

/// The first index whose node lies at `position` or beyond it; the length of
/// the sequence if there is none.
pub open spec fn first_at_or_after(index: Seq<NodeView>, position: u64) -> int {
    first_at_or_after_from(index, position, 0)
}

/// The index of the node that serves `position`: the first node at or beyond
/// it, and the first node of all where the ring wraps around.
pub open spec fn successor(index: Seq<NodeView>, position: u64) -> int {
    let k = first_at_or_after(index, position);
    if k < index.len() {
        k
    } else {
        0
    }
}

/// `node` is the node of the index that serves `position`: it is the least
/// node at or beyond the position, or, where no node lies there, the least
/// node of all.
pub open spec fn serves(index: Seq<NodeView>, position: u64, node: NodeView) -> bool {
    &&& index.contains(node)
    &&& if node.position >= position {
        forall|m: NodeView| #[trigger] index.contains(m) && node_lt(m, node) ==> m.position < position
    } else {
        forall|m: NodeView| #[trigger]
            index.contains(m) ==> m.position < position && (m == node || node_lt(node, m))
    }
}

/// The test that keeps the nodes of every server but `owner`.
pub open spec fn not_owned_by(owner: Seq<char>) -> spec_fn(NodeView) -> bool {
    |n: NodeView| n.owner != owner
}

/// The index without the nodes of `owner`.
pub open spec fn without_owner(index: Seq<NodeView>, owner: Seq<char>) -> Seq<NodeView> {
    index.filter(not_owned_by(owner))
}

/// The first index at or beyond `position` is `k` if the nodes from `i` up
/// to `k` lie before the position and the node at `k`, if there is one, does not.
pub proof fn lemma_first_at_or_after_from(index: Seq<NodeView>, position: u64, i: int, k: int)
    requires
        0 <= i <= k <= index.len(),
        forall|j: int| i <= j < k ==> index[j].position < position,
        k < index.len() ==> index[k].position >= position,
    ensures
        first_at_or_after_from(index, position, i) == k,
    decreases k - i,
{
    if i < k {
        lemma_first_at_or_after_from(index, position, i + 1, k);
    }
}

/// What `first_at_or_after` says of its result.
pub proof fn lemma_first_at_or_after_bounds(index: Seq<NodeView>, position: u64, i: int)
    requires
        0 <= i <= index.len(),
    ensures
        i <= first_at_or_after_from(index, position, i) <= index.len(),
        forall|j: int|
            i <= j < first_at_or_after_from(index, position, i) ==> index[j].position < position,
        first_at_or_after_from(index, position, i) < index.len() ==> index[first_at_or_after_from(
            index,
            position,
            i,
        )].position >= position,
    decreases index.len() - i,
{
    if i < index.len() && index[i].position < position {
        lemma_first_at_or_after_bounds(index, position, i + 1);
    }
}

/// On an index in ring order, the node at the successor index serves the position.
pub proof fn lemma_successor_serves(index: Seq<NodeView>, position: u64)
    requires
        sorted(index),
        index.len() > 0,
    ensures
        0 <= successor(index, position) < index.len(),
        serves(index, position, index[successor(index, position)]),
{
    let k = first_at_or_after(index, position);
    lemma_first_at_or_after_bounds(index, position, 0);
    let at = successor(index, position);
    let node = index[at];
    assert(index.contains(node));
    if k < index.len() {
        assert forall|m: NodeView| #[trigger] index.contains(m) && node_lt(m, node) implies m.position
            < position by {
            let j = choose|j: int| 0 <= j < index.len() && index[j] == m;
            lemma_node_lt_asymmetric(m, node);
            if j > k {
                assert(node_lt(index[k], index[j]));
            }
        }
    } else {
        assert forall|m: NodeView| #[trigger] index.contains(m) implies m.position < position && (m
            == node || node_lt(node, m)) by {
            let j = choose|j: int| 0 <= j < index.len() && index[j] == m;
            if j > 0 {
                assert(node_lt(index[0], index[j]));
            }
        }
    }
}

/// On an index in ring order, only the node at the successor index serves the position.
pub proof fn lemma_serving_node_is_successor(index: Seq<NodeView>, position: u64, node: NodeView)
    requires
        sorted(index),
        serves(index, position, node),
    ensures
        index[successor(index, position)] == node,
{
    let i = choose|i: int| 0 <= i < index.len() && index[i] == node;
    if node.position >= position {
        assert forall|j: int| 0 <= j < i implies index[j].position < position by {
            assert(index.contains(index[j]));
            assert(node_lt(index[j], index[i]));
        }
        lemma_first_at_or_after_from(index, position, 0, i);
    } else {
        assert forall|j: int| 0 <= j < index.len() implies index[j].position < position by {
            assert(index.contains(index[j]));
        }
        lemma_first_at_or_after_from(index, position, 0, index.len() as int);
        if i > 0 {
            assert(index.contains(index[0]));
            assert(node_lt(index[0], index[i]));
            lemma_node_lt_asymmetric(index[0], node);
        }
    }
}

/// Inserting a node between the nodes before it and the nodes after it keeps the order.
pub proof fn lemma_insert_keeps_sorted(index: Seq<NodeView>, k: int, node: NodeView)
    requires
        sorted(index),
        0 <= k <= index.len(),
        forall|j: int| 0 <= j < k ==> node_lt(index[j], node),
        forall|j: int| k <= j < index.len() ==> node_lt(node, index[j]),
    ensures
        sorted(index.insert(k, node)),
{
    let out = index.insert(k, node);
    index.insert_ensures(k, node);
    assert forall|i: int, j: int| 0 <= i < j < out.len() implies node_lt(out[i], out[j]) by {
        if i > k {
            assert(out[i] == index[i - 1]);
        }
        if j > k {
            assert(out[j] == index[j - 1]);
        }
    }
}

/// An insertion adds the inserted node to what a sequence holds, and nothing else.
pub proof fn lemma_insert_contains(index: Seq<NodeView>, k: int, node: NodeView)
    requires
        0 <= k <= index.len(),
    ensures
        forall|e: NodeView|
            #![trigger index.insert(k, node).contains(e)]
            #![trigger index.contains(e)]
            index.insert(k, node).contains(e) <==> index.contains(e) || e == node,
{
    let out = index.insert(k, node);
    index.insert_ensures(k, node);
    assert forall|e: NodeView| out.contains(e) implies index.contains(e) || e == node by {
        let i = choose|i: int| 0 <= i < out.len() && out[i] == e;
        if i < k {
            assert(index[i] == e);
        } else if i > k {
            assert(index[i - 1] == e);
        }
    }
    assert forall|e: NodeView| index.contains(e) || e == node implies out.contains(e) by {
        if e == node {
            assert(out[k] == e);
        } else {
            let i = choose|i: int| 0 <= i < index.len() && index[i] == e;
            if i < k {
                assert(out[i] == e);
            } else {
                assert(out[i + 1] == e);
            }
        }
    }
}

/// Dropping the nodes of one owner keeps the order of the others, and keeps
/// exactly the others.
pub proof fn lemma_without_owner(index: Seq<NodeView>, owner: Seq<char>)
    requires
        sorted(index),
    ensures
        sorted(without_owner(index, owner)),
        forall|e: NodeView|
            #![trigger without_owner(index, owner).contains(e)]
            #![trigger index.contains(e)]
            without_owner(index, owner).contains(e) <==> index.contains(e) && e.owner != owner,
    decreases index.len(),
{
    reveal(Seq::filter);
    let out = without_owner(index, owner);
    if index.len() > 0 {
        let front = index.drop_last();
        let rest = without_owner(front, owner);
        lemma_without_owner(front, owner);
        assert forall|e: NodeView| index.contains(e) <==> front.contains(e) || e == index.last() by {
            if index.contains(e) {
                let i = choose|i: int| 0 <= i < index.len() && index[i] == e;
                if i < front.len() {
                    assert(front[i] == e);
                }
            }
            if front.contains(e) {
                let i = choose|i: int| 0 <= i < front.len() && front[i] == e;
                assert(index[i] == e);
            }
            if e == index.last() {
                assert(index[index.len() - 1] == e);
            }
        }
        if index.last().owner != owner {
            assert(out == rest.push(index.last()));
            assert forall|i: int, j: int| 0 <= i < j < out.len() implies node_lt(out[i], out[j]) by {
                if j == out.len() - 1 {
                    assert(rest.contains(rest[i]));
                    let m = choose|m: int| 0 <= m < front.len() && front[m] == rest[i];
                    assert(node_lt(index[m], index[index.len() - 1]));
                }
            }
            assert forall|e: NodeView| out.contains(e) <==> rest.contains(e) || e == index.last() by {
                if out.contains(e) {
                    let i = choose|i: int| 0 <= i < out.len() && out[i] == e;
                    if i < rest.len() {
                        assert(rest[i] == e);
                    }
                }
                if rest.contains(e) {
                    let i = choose|i: int| 0 <= i < rest.len() && rest[i] == e;
                    assert(out[i] == e);
                }
                if e == index.last() {
                    assert(out[out.len() - 1] == e);
                }
            }
        } else {
            assert(out == rest);
        }
    }
}

/// Two sequences in ring order that hold the same nodes are the same sequence.
pub proof fn lemma_sorted_unique(a: Seq<NodeView>, b: Seq<NodeView>)
    requires
        sorted(a),
        sorted(b),
        forall|e: NodeView|
            #![trigger a.contains(e)]
            #![trigger b.contains(e)]
            a.contains(e) <==> b.contains(e),
    ensures
        a == b,
    decreases a.len(),
{
    if a.len() == 0 {
        if b.len() > 0 {
            assert(b.contains(b[0]));
        }
        assert(a =~= b);
    } else {
        let top = a.last();
        assert(a.contains(top));
        assert(b.len() > 0);
        let m = choose|m: int| 0 <= m < b.len() && b[m] == top;
        // `top` is the greatest node of `a`, so it is the last node of `b` too.
        if m < b.len() - 1 {
            let above = b.last();
            assert(node_lt(top, above));
            assert(b.contains(above));
            let n = choose|n: int| 0 <= n < a.len() && a[n] == above;
            if n < a.len() - 1 {
                assert(node_lt(a[n], top));
            }
            lemma_node_lt_asymmetric(top, above);
        }
        let a0 = a.drop_last();
        let b0 = b.drop_last();
        assert forall|e: NodeView| a0.contains(e) <==> b0.contains(e) by {
            if a0.contains(e) {
                let i = choose|i: int| 0 <= i < a0.len() && a0[i] == e;
                assert(node_lt(a[i], top));
                lemma_node_lt_asymmetric(e, e);
                assert(b.contains(e)) by {
                    assert(a[i] == e);
                }
                let j = choose|j: int| 0 <= j < b.len() && b[j] == e;
                assert(b0[j] == e);
            }
            if b0.contains(e) {
                let j = choose|j: int| 0 <= j < b0.len() && b0[j] == e;
                assert(node_lt(b[j], top));
                lemma_node_lt_asymmetric(e, e);
                assert(a.contains(e)) by {
                    assert(b[j] == e);
                }
                let i = choose|i: int| 0 <= i < a.len() && a[i] == e;
                assert(a0[i] == e);
            }
        }
        lemma_sorted_unique(a0, b0);
        assert(a =~= a0.push(top));
        assert(b =~= b0.push(top));
    }
}

/// Finds the first node at `position` or beyond it, by binary search.
pub fn lower_bound(index: &Vec<VirtualNode>, position: u64) -> (k: usize)
    requires
        sorted(node_views(index@)),
    ensures
        k == first_at_or_after(node_views(index@), position),
        k <= index.len(),
{
    let ghost views = node_views(index@);
    let mut lo: usize = 0;
    let mut hi: usize = index.len();
    while lo < hi
        invariant
            views == node_views(index@),
            sorted(views),
            lo <= hi <= index.len(),
            forall|j: int| 0 <= j < lo ==> views[j].position < position,
            forall|j: int| hi <= j < views.len() ==> views[j].position >= position,
        decreases hi - lo,
    {
        let mid = lo + (hi - lo) / 2;
        if index[mid].position < position {
            assert forall|j: int| 0 <= j < mid + 1 implies views[j].position < position by {
                if j < mid {
                    assert(node_lt(views[j], views[mid as int]));
                }
            }
            lo = mid + 1;
        } else {
            assert forall|j: int| mid <= j < views.len() implies views[j].position >= position by {
                if j > mid {
                    assert(node_lt(views[mid as int], views[j]));
                }
            }
            hi = mid;
        }
    }
    proof {
        lemma_first_at_or_after_from(views, position, 0, lo as int);
    }
    lo
}

/// Finds where `node` belongs in the index, by binary search: behind the
/// nodes that come before it.
pub fn insertion_point(index: &Vec<VirtualNode>, node: &VirtualNode) -> (k: usize)
    requires
        sorted(node_views(index@)),
    ensures
        k <= index.len(),
        forall|j: int| 0 <= j < k ==> node_lt(node_views(index@)[j], node@),
        forall|j: int| k <= j < index.len() ==> !node_lt(node_views(index@)[j], node@),
{
    let ghost views = node_views(index@);
    let mut lo: usize = 0;
    let mut hi: usize = index.len();
    while lo < hi
        invariant
            views == node_views(index@),
            sorted(views),
            lo <= hi <= index.len(),
            forall|j: int| 0 <= j < lo ==> node_lt(views[j], node@),
            forall|j: int| hi <= j < views.len() ==> !node_lt(views[j], node@),
        decreases hi - lo,
    {
        let mid = lo + (hi - lo) / 2;
        assert(views[mid as int] == index[mid as int]@);
        if index[mid].precedes(node) {
            assert forall|j: int| 0 <= j < mid + 1 implies node_lt(views[j], node@) by {
                if j < mid {
                    lemma_node_lt_transitive(views[j], views[mid as int], node@);
                }
            }
            lo = mid + 1;
        } else {
            assert forall|j: int| mid <= j < views.len() implies !node_lt(views[j], node@) by {
                if j > mid && node_lt(views[j], node@) {
                    lemma_node_lt_transitive(views[mid as int], views[j], node@);
                }
            }
            hi = mid;
        }
    }
    lo
}

/// Puts `node` into the index at its place in ring order.
pub fn insert_sorted(index: &mut Vec<VirtualNode>, node: VirtualNode) -> (k: usize)
    requires
        sorted(node_views(old(index)@)),
        !node_views(old(index)@).contains(node@),
    ensures
        k <= old(index).len(),
        final(index).len() == old(index).len() + 1,
        node_views(final(index)@) == node_views(old(index)@).insert(k as int, node@),
        sorted(node_views(final(index)@)),
        forall|e: NodeView|
            #![trigger node_views(final(index)@).contains(e)]
            #![trigger node_views(old(index)@).contains(e)]
            node_views(final(index)@).contains(e) <==> node_views(old(index)@).contains(e) || e
                == node@,
{
    let ghost before = node_views(index@);
    let ghost added = node@;
    let k = insertion_point(index, &node);
    index.insert(k, node);
    proof {
        before.insert_ensures(k as int, added);
        index@.insert_ensures(k as int, node);
        assert(node_views(index@) =~= before.insert(k as int, added));
        assert forall|j: int| k <= j < before.len() implies node_lt(added, before[j]) by {
            assert(before.contains(before[j]));
            if !node_lt(added, before[j]) {
                lemma_node_lt_connected(added, before[j]);
            }
        }
        lemma_insert_keeps_sorted(before, k as int, added);
        lemma_insert_contains(before, k as int, added);
    }
    k
}

/// What a sequence holds after a push: what it held, and the pushed node.
pub proof fn lemma_push_contains(nodes: Seq<NodeView>, node: NodeView)
    ensures
        forall|e: NodeView|
            #![trigger nodes.push(node).contains(e)]
            #![trigger nodes.contains(e)]
            nodes.push(node).contains(e) <==> nodes.contains(e) || e == node,
{
    let out = nodes.push(node);
    assert forall|e: NodeView| out.contains(e) implies nodes.contains(e) || e == node by {
        let i = choose|i: int| 0 <= i < out.len() && out[i] == e;
        if i < nodes.len() {
            assert(nodes[i] == e);
        }
    }
    assert forall|e: NodeView| nodes.contains(e) || e == node implies out.contains(e) by {
        if e == node {
            assert(out[nodes.len() as int] == e);
        } else {
            let i = choose|i: int| 0 <= i < nodes.len() && nodes[i] == e;
            assert(out[i] == e);
        }
    }
}

/// Makes the virtual nodes numbered `start`, `start + 1`, ... of the server
/// `owner_key`, `count` of them; puts each into the index at its place in
/// ring order, and appends each to `nodes`.
pub fn place_nodes<H: RingHash>(
    index: &mut Vec<VirtualNode>,
    nodes: &mut Vec<VirtualNode>,
    owner_key: &str,
    separator: &str,
    start: u32,
    count: u32,
)
    requires
        sorted(node_views(old(index)@)),
        start + count <= u32::MAX,
        forall|e: NodeView|
            #[trigger] node_views(old(index)@).contains(e) && e.owner == owner_key@ ==> e.sequence
                < start,
    ensures
        sorted(node_views(final(index)@)),
        final(index).len() == old(index).len() + count,
        forall|e: NodeView|
            #![trigger node_views(final(index)@).contains(e)]
            node_views(final(index)@).contains(e) <==> node_views(old(index)@).contains(e)
                || fresh_nodes::<H>(owner_key@, separator@, start as nat, count as nat).contains(e),
        node_views(final(nodes)@) == node_views(old(nodes)@) + fresh_nodes::<H>(
            owner_key@,
            separator@,
            start as nat,
            count as nat,
        ),
{
    let ghost held_at_entry = node_views(index@);
    let ghost made_at_entry = node_views(nodes@);
    let mut i: u32 = 0;
    assert(node_views(nodes@) =~= made_at_entry + fresh_nodes::<H>(
        owner_key@,
        separator@,
        start as nat,
        0,
    ));
    while i < count
        invariant
            i <= count,
            start + count <= u32::MAX,
            held_at_entry == node_views(old(index)@),
            made_at_entry == node_views(old(nodes)@),
            forall|e: NodeView|
                #[trigger] held_at_entry.contains(e) && e.owner == owner_key@ ==> e.sequence
                    < start,
            sorted(node_views(index@)),
            index.len() == old(index).len() + i,
            forall|e: NodeView|
                #![trigger node_views(index@).contains(e)]
                node_views(index@).contains(e) <==> held_at_entry.contains(e) || fresh_nodes::<H>(
                    owner_key@,
                    separator@,
                    start as nat,
                    i as nat,
                ).contains(e),
            node_views(nodes@) == made_at_entry + fresh_nodes::<H>(
                owner_key@,
                separator@,
                start as nat,
                i as nat,
            ),
        decreases count - i,
    {
        let node = VirtualNode::create::<H>(owner_key, separator, start + i);
        let twin = node.clone();
        let ghost fresh = fresh_nodes::<H>(owner_key@, separator@, start as nat, i as nat);
        let ghost made = node_views(nodes@);
        proof {
            if fresh.contains(node@) {
                let j = choose|j: int| 0 <= j < fresh.len() && fresh[j] == node@;
                assert(fresh[j].sequence == start + j);
            }
            lemma_push_contains(fresh, node@);
        }
        insert_sorted(index, node);
        nodes.push(twin);
        i += 1;
        proof {
            assert(fresh.push(twin@) =~= fresh_nodes::<H>(
                owner_key@,
                separator@,
                start as nat,
                i as nat,
            ));
            assert(node_views(nodes@) =~= made.push(twin@));
            assert(node_views(nodes@) =~= made_at_entry + fresh_nodes::<H>(
                owner_key@,
                separator@,
                start as nat,
                i as nat,
            ));
        }
    }
}

/// Copies the index without the nodes of the server `owner_key`.
pub fn retain_others(index: &Vec<VirtualNode>, owner_key: &str) -> (kept: Vec<VirtualNode>)
    ensures
        node_views(kept@) == without_owner(node_views(index@), owner_key@),
{
    let ghost views = node_views(index@);
    let mut kept: Vec<VirtualNode> = Vec::new();
    let mut i: usize = 0;
    proof {
        reveal(Seq::filter);
        assert(views.take(0) =~= Seq::<NodeView>::empty());
        assert(node_views(kept@) =~= without_owner(views.take(0), owner_key@));
    }
    while i < index.len()
        invariant
            views == node_views(index@),
            i <= index.len(),
            node_views(kept@) == without_owner(views.take(i as int), owner_key@),
        decreases index.len() - i,
    {
        let ghost before = node_views(kept@);
        proof {
            reveal(Seq::filter);
            assert(views.take(i + 1).drop_last() =~= views.take(i as int));
            assert(views.take(i + 1).last() == index[i as int]@);
        }
        if !str_equal(index[i].owner_key.as_str(), owner_key) {
            kept.push(index[i].clone());
            assert(node_views(kept@) =~= before.push(index[i as int]@));
        }
        i += 1;
    }
    assert(views.take(i as int) =~= views);
    kept
}

} // verus!
