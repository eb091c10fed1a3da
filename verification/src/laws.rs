//! What holds of every ring, whatever the servers and keys.

use crate::error::RingError;
use crate::hash::RingHash;
use crate::index::{
    lemma_first_at_or_after_from, lemma_serving_node_is_successor, lemma_sorted_unique,
    lemma_successor_serves, lemma_without_owner, serves, successor,
};
use crate::model::{found, RingView};
use crate::node::NodeView;
use vstd::prelude::*;

verus! {

/// The servers determine the index: two sound rings with the same servers
/// hold the same nodes in the same order, so a lookup depends on nothing but
/// the servers and the key.
pub proof fn lemma_servers_determine_index<H: RingHash>(a: RingView, b: RingView)
    requires
        a.wf::<H>(),
        b.wf::<H>(),
        a.servers == b.servers,
    ensures
        a.index == b.index,
{
    assert forall|e: NodeView|
        #![trigger a.index.contains(e)]
        #![trigger b.index.contains(e)]
        a.index.contains(e) <==> b.index.contains(e) by {
        assert(a.owns(e) <==> b.owns(e));
    }
    lemma_sorted_unique(a.index, b.index);
}

/// Lookups are deterministic: on one ring, two lookups of one key give the
/// same server, or fail alike.
pub proof fn lemma_lookup_deterministic<H: RingHash>(
    ring: RingView,
    key: Seq<u8>,
    first: Result<&str, RingError>,
    second: Result<&str, RingError>,
)
    requires
        found(first) == ring.lookup::<H>(key),
        found(second) == ring.lookup::<H>(key),
    ensures
        found(first) == found(second),
{
}

/// The server found by a lookup is a registered server.
pub proof fn lemma_lookup_finds_registered_server<H: RingHash>(ring: RingView, position: u64)
    requires
        ring.wf::<H>(),
        ring.index.len() > 0,
    ensures
        ring.servers.dom().contains(ring.owner_of(position)),
{
    lemma_successor_serves(ring.index, position);
    let node = ring.index[successor(ring.index, position)];
    assert(ring.index.contains(node));
    assert(ring.owns(node));
}

/// A key that is registered cannot be registered again.
pub proof fn lemma_duplicate_server_refused<H: RingHash>(ring: RingView, key: Seq<char>)
    requires
        ring.wf::<H>(),
        ring.servers.dom().contains(key),
    ensures
        ring.add_outcome(key) == Err::<(), RingError>(RingError::DuplicateServer),
{
    assert(ring.servers[key].key == key);
}

/// Registering a server and removing it again gives back the ring as it was:
/// the same servers, the same index, node for node.
pub proof fn lemma_add_then_remove_restores<H: RingHash>(
    before: RingView,
    key: Seq<char>,
    name: Seq<char>,
    count: nat,
    between: RingView,
    after: RingView,
)
    requires
        before.wf::<H>(),
        before.add_outcome(key) is Ok,
        before.added::<H>(key, name, count, between),
        between.removed::<H>(key, after),
    ensures
        after == before,
{
    assert(after.servers =~= before.servers);
    lemma_servers_determine_index::<H>(after, before);
}

/// The ring wraps around: a position beyond every node is served by the
/// owner of the first node.
pub proof fn lemma_lookup_wraps_around(ring: RingView, position: u64)
    requires
        ring.index.len() > 0,
        forall|i: int| 0 <= i < ring.index.len() ==> ring.index[i].position < position,
    ensures
        ring.lookup_position(position) == Ok::<Seq<char>, RingError>(ring.index[0].owner),
{
    lemma_first_at_or_after_from(ring.index, position, 0, ring.index.len() as int);
}

/// On a ring with a single node every position is served by that node's
/// owner, the positions beyond the node too.
pub proof fn lemma_single_node_serves_every_position(ring: RingView, position: u64)
    requires
        ring.index.len() == 1,
    ensures
        ring.lookup_position(position) == Ok::<Seq<char>, RingError>(ring.index[0].owner),
{
    if ring.index[0].position >= position {
        lemma_first_at_or_after_from(ring.index, position, 0, 0);
    } else {
        lemma_first_at_or_after_from(ring.index, position, 0, 1);
    }
}

/// On a ring with a single node every key is served by that node's owner,
/// wherever the key hashes to.
pub proof fn lemma_single_node_serves_every_key<H: RingHash>(ring: RingView, key: Seq<u8>)
    requires
        ring.index.len() == 1,
        key.len() > 0,
    ensures
        ring.lookup::<H>(key) == Ok::<Seq<char>, RingError>(ring.index[0].owner),
{
    lemma_single_node_serves_every_position(ring, H::spec_hash(key));
}

/// A ring without servers holds no node, and every lookup on it fails with
/// `EmptyRing`.
pub proof fn lemma_no_servers_empty_ring<H: RingHash>(ring: RingView, key: Seq<u8>, position: u64)
    requires
        ring.wf::<H>(),
        ring.servers.len() == 0,
    ensures
        ring.index.len() == 0,
        ring.lookup::<H>(key) == Err::<Seq<char>, RingError>(RingError::EmptyRing),
        ring.lookup_position(position) == Err::<Seq<char>, RingError>(RingError::EmptyRing),
{
    ring.servers.dom().lemma_len0_is_empty();
    if ring.index.len() > 0 {
        assert(ring.index.contains(ring.index[0]));
        assert(ring.owns(ring.index[0]));
    }
}

/// Registering a server moves a position to the new server or not at all.
pub proof fn lemma_add_moves_only_to_new_server<H: RingHash>(
    before: RingView,
    key: Seq<char>,
    name: Seq<char>,
    count: nat,
    after: RingView,
    position: u64,
)
    requires
        before.wf::<H>(),
        before.add_outcome(key) is Ok,
        before.added::<H>(key, name, count, after),
        before.index.len() > 0,
    ensures
        after.index.len() > 0,
        after.owner_of(position) == key || after.owner_of(position) == before.owner_of(position),
{
    assert forall|e: NodeView| before.index.contains(e) implies after.index.contains(e) by {
        assert(before.owns(e));
        assert(after.owns(e));
    }
    assert(before.index.contains(before.index[0]));
    assert(after.index.len() > 0) by {
        let i = choose|i: int| 0 <= i < after.index.len() && after.index[i] == before.index[0];
    }
    lemma_successor_serves(after.index, position);
    let node = after.index[successor(after.index, position)];
    if node.owner != key {
        assert(after.index.contains(node));
        assert(after.owns(node));
        assert(before.owns(node));
        assert(before.index.contains(node));
        assert(serves(before.index, position, node));
        lemma_serving_node_is_successor(before.index, position, node);
    }
}

/// Giving a server more virtual nodes moves a position to that server or not
/// at all.
pub proof fn lemma_add_node_moves_only_to_extended_server<H: RingHash>(
    before: RingView,
    key: Seq<char>,
    count: nat,
    after: RingView,
    position: u64,
)
    requires
        before.wf::<H>(),
        before.add_node_outcome(key, count) is Ok,
        before.extended::<H>(key, count, after),
        before.index.len() > 0,
    ensures
        after.index.len() > 0,
        after.owner_of(position) == key || after.owner_of(position) == before.owner_of(position),
{
    assert forall|e: NodeView| before.index.contains(e) implies after.index.contains(e) by {
        assert(before.owns(e));
        if e.owner == key {
            let j = choose|j: int|
                0 <= j < before.servers[key].nodes.len() && before.servers[key].nodes[j] == e;
            assert(after.servers[key].nodes[j] == e);
        }
        assert(after.owns(e));
    }
    assert(before.index.contains(before.index[0]));
    assert(after.index.len() > 0) by {
        let i = choose|i: int| 0 <= i < after.index.len() && after.index[i] == before.index[0];
    }
    lemma_successor_serves(after.index, position);
    let node = after.index[successor(after.index, position)];
    if node.owner != key {
        assert(after.index.contains(node));
        assert(after.owns(node));
        assert(before.owns(node));
        assert(before.index.contains(node));
        assert(serves(before.index, position, node));
        lemma_serving_node_is_successor(before.index, position, node);
    }
}

/// A sound ring holds each server whole: every virtual node of a registered
/// server is in the index. With the operations keeping the ring sound, and
/// changing it only through `&mut`, no lookup sees a server that is half
/// registered or half removed.
pub proof fn lemma_index_holds_whole_servers<H: RingHash>(ring: RingView, key: Seq<char>, j: int)
    requires
        ring.wf::<H>(),
        ring.servers.dom().contains(key),
        0 <= j < ring.servers[key].nodes.len(),
    ensures
        ring.index.contains(ring.servers[key].nodes[j]),
{
    let node = ring.servers[key].nodes[j];
    assert(ring.servers[key].nodes.contains(node));
    assert(ring.servers[key].key == key);
    assert(ring.owns(node));
}

/// The owners of the nodes in the index are the registered servers that have
/// a virtual node: no node outlives its server, and no server with nodes is
/// missing from the index.
pub proof fn lemma_index_owners_are_servers_with_nodes<H: RingHash>(ring: RingView, key: Seq<char>)
    requires
        ring.wf::<H>(),
    ensures
        (exists|e: NodeView| #[trigger] ring.index.contains(e) && e.owner == key) <==> (
        ring.servers.dom().contains(key) && ring.servers[key].nodes.len() > 0),
{
    if exists|e: NodeView| #[trigger] ring.index.contains(e) && e.owner == key {
        let e = choose|e: NodeView| #[trigger] ring.index.contains(e) && e.owner == key;
        assert(ring.owns(e));
    }
    if ring.servers.dom().contains(key) && ring.servers[key].nodes.len() > 0 {
        let e = ring.servers[key].nodes[0];
        assert(ring.servers[key].nodes.contains(e));
        assert(ring.servers[key].key == key);
        assert(ring.owns(e));
        assert(ring.index.contains(e) && e.owner == key);
    }
}

/// Removing a server moves the positions that it served, and no others.
pub proof fn lemma_remove_moves_only_from_removed<H: RingHash>(
    before: RingView,
    key: Seq<char>,
    after: RingView,
    position: u64,
)
    requires
        before.wf::<H>(),
        before.removed::<H>(key, after),
        before.index.len() > 0,
        before.owner_of(position) != key,
    ensures
        after.index.len() > 0,
        after.owner_of(position) == before.owner_of(position),
{
    lemma_without_owner(before.index, key);
    lemma_successor_serves(before.index, position);
    let node = before.index[successor(before.index, position)];
    assert(before.index.contains(node));
    assert(after.index.contains(node));
    assert(after.index.len() > 0) by {
        let i = choose|i: int| 0 <= i < after.index.len() && after.index[i] == node;
    }
    assert(serves(after.index, position, node));
    lemma_serving_node_is_successor(after.index, position, node);
}

} // verus!
