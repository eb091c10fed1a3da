//! The ring as a mathematical value, and what each operation makes of it.

use crate::error::RingError;
use crate::hash::RingHash;
use crate::index::{lemma_without_owner, sorted, successor, without_owner};
use crate::node::{fresh_nodes, node_at, NodeView};
use vstd::prelude::*;

verus! {

/// A registered server as a mathematical value.
pub struct ServerView {
    /// The key under which the server is registered.
    pub key: Seq<char>,
    /// The server's display name; it plays no part in hashing or lookup.
    pub name: Seq<char>,
    /// The server's virtual nodes, in the order in which they were made.
    pub nodes: Seq<NodeView>,
    /// The sequence number that the server's next virtual node will get.
    pub next_sequence: nat,
}

impl ServerView {
    /// A server as it is registered: with the virtual nodes numbered from 0
    /// up to `count`.
    pub open spec fn registered<H: RingHash>(
        key: Seq<char>,
        name: Seq<char>,
        separator: Seq<char>,
        count: nat,
    ) -> ServerView {
        ServerView {
            key,
            name,
            nodes: fresh_nodes::<H>(key, separator, 0, count),
            next_sequence: count,
        }
    }

    /// The server with `count` more virtual nodes, numbered on from where the
    /// server's numbering stands.
    pub open spec fn extended<H: RingHash>(self, separator: Seq<char>, count: nat) -> ServerView {
        ServerView {
            key: self.key,
            name: self.name,
            nodes: self.nodes + fresh_nodes::<H>(self.key, separator, self.next_sequence, count),
            next_sequence: self.next_sequence + count,
        }
    }

    /// A server is well formed as it is registered.
    pub proof fn lemma_registered_wf<H: RingHash>(
        key: Seq<char>,
        name: Seq<char>,
        separator: Seq<char>,
        count: nat,
    )
        requires
            key.len() > 0,
        ensures
            ServerView::registered::<H>(key, name, separator, count).wf::<H>(separator),
    {
    }

    /// A well-formed server stays so with more virtual nodes, and then has
    /// the nodes that it had and the new ones.
    pub proof fn lemma_extended_wf<H: RingHash>(self, separator: Seq<char>, count: nat)
        requires
            self.wf::<H>(separator),
        ensures
            self.extended::<H>(separator, count).wf::<H>(separator),
            forall|e: NodeView|
                #![trigger self.extended::<H>(separator, count).nodes.contains(e)]
                self.extended::<H>(separator, count).nodes.contains(e) <==> self.nodes.contains(e)
                    || fresh_nodes::<H>(self.key, separator, self.next_sequence, count).contains(e),
    {
        let more = fresh_nodes::<H>(self.key, separator, self.next_sequence, count);
        let all = self.extended::<H>(separator, count).nodes;
        assert forall|j: int| 0 <= j < all.len() implies {
            &&& #[trigger] all[j] == node_at::<H>(self.key, separator, all[j].sequence)
            &&& all[j].sequence < self.next_sequence + count
            &&& j < self.nodes.len() ==> all[j].sequence < self.next_sequence
            &&& j >= self.nodes.len() ==> all[j].sequence >= self.next_sequence
        } by {
            if j < self.nodes.len() {
                assert(all[j] == self.nodes[j]);
            } else {
                assert(all[j] == more[j - self.nodes.len()]);
            }
        }
        assert forall|i: int, j: int| 0 <= i < j < all.len() implies all[i].sequence
            < all[j].sequence by {
            if j < self.nodes.len() {
                assert(all[i] == self.nodes[i] && all[j] == self.nodes[j]);
            } else if i >= self.nodes.len() {
                assert(all[i] == more[i - self.nodes.len()]);
                assert(all[j] == more[j - self.nodes.len()]);
            }
        }
        assert forall|e: NodeView|
            #![trigger all.contains(e)]
            all.contains(e) <==> self.nodes.contains(e) || more.contains(e) by {
            if all.contains(e) {
                let j = choose|j: int| 0 <= j < all.len() && all[j] == e;
                if j < self.nodes.len() {
                    assert(self.nodes[j] == e);
                } else {
                    assert(more[j - self.nodes.len()] == e);
                }
            }
            if self.nodes.contains(e) {
                let j = choose|j: int| 0 <= j < self.nodes.len() && self.nodes[j] == e;
                assert(all[j] == e);
            }
            if more.contains(e) {
                let j = choose|j: int| 0 <= j < more.len() && more[j] == e;
                assert(all[self.nodes.len() + j] == e);
            }
        }
    }

    /// The server's key is not empty; each of its nodes is the node that its
    /// key and the node's sequence number determine; the sequence numbers rise
    /// along the nodes and stay below the next number to be given out.
    pub open spec fn wf<H: RingHash>(self, separator: Seq<char>) -> bool {
        &&& self.key.len() > 0
        &&& forall|j: int|
            0 <= j < self.nodes.len() ==> {
                &&& #[trigger] self.nodes[j] == node_at::<H>(
                    self.key,
                    separator,
                    self.nodes[j].sequence,
                )
                &&& self.nodes[j].sequence < self.next_sequence
            }
        &&& forall|i: int, j: int|
            0 <= i < j < self.nodes.len() ==> self.nodes[i].sequence < self.nodes[j].sequence
    }
}

/// The outcome of a lookup, with the server's key as a mathematical value.
pub open spec fn found(r: Result<&str, RingError>) -> Result<Seq<char>, RingError> {
    match r {
        Ok(key) => Ok(key@),
        Err(e) => Err(e),
    }
}

/// The ring as a mathematical value.
pub struct RingView {
    /// The registered servers, by key.
    pub servers: Map<Seq<char>, ServerView>,
    /// The virtual nodes of all servers, in ring order.
    pub index: Seq<NodeView>,
    /// What stands between a server's key and a sequence number in the name
    /// of a virtual node.
    pub separator: Seq<char>,
}

impl RingView {
    /// The ring without servers.
    pub open spec fn empty(separator: Seq<char>) -> RingView {
        RingView { servers: Map::empty(), index: Seq::empty(), separator }
    }

    /// `node` is a virtual node of a registered server.
    pub open spec fn owns(self, node: NodeView) -> bool {
        self.servers.dom().contains(node.owner) && self.servers[node.owner].nodes.contains(node)
    }

    /// Every server is registered under its own key and is well formed; the
    /// index is in ring order and holds exactly the virtual nodes of the
    /// registered servers.
    pub open spec fn wf<H: RingHash>(self) -> bool {
        &&& self.servers.dom().finite()
        &&& forall|k: Seq<char>|
            self.servers.dom().contains(k) ==> {
                &&& (#[trigger] self.servers[k]).key == k
                &&& self.servers[k].wf::<H>(self.separator)
            }
        &&& sorted(self.index)
        &&& forall|e: NodeView|
            #![trigger self.index.contains(e)]
            #![trigger self.owns(e)]
            self.index.contains(e) <==> self.owns(e)
    }

    /// A sound ring stays sound when the record of a server is put in, if
    /// the index then holds, in ring order, the nodes that other servers had
    /// in it and the nodes of the record.
    pub proof fn lemma_with_server_wf<H: RingHash>(self, record: ServerView, index: Seq<NodeView>)
        requires
            self.wf::<H>(),
            record.wf::<H>(self.separator),
            sorted(index),
            forall|e: NodeView|
                #![trigger index.contains(e)]
                index.contains(e) <==> (self.index.contains(e) && e.owner != record.key)
                    || record.nodes.contains(e),
        ensures
            (RingView {
                servers: self.servers.insert(record.key, record),
                index,
                separator: self.separator,
            }).wf::<H>(),
    {
        let next = RingView {
            servers: self.servers.insert(record.key, record),
            index,
            separator: self.separator,
        };
        assert forall|e: NodeView|
            #![trigger next.index.contains(e)]
            #![trigger next.owns(e)]
            next.index.contains(e) <==> next.owns(e) by {
            if e.owner != record.key {
                if record.nodes.contains(e) {
                    let j = choose|j: int| 0 <= j < record.nodes.len() && record.nodes[j] == e;
                    assert(record.nodes[j].owner == record.key);
                }
                assert(next.owns(e) <==> self.owns(e));
                assert(self.index.contains(e) <==> self.owns(e));
            }
        }
    }

    /// A sound ring stays sound when a server leaves it with all its nodes.
    pub proof fn lemma_without_server_wf<H: RingHash>(self, key: Seq<char>)
        requires
            self.wf::<H>(),
        ensures
            (RingView {
                servers: self.servers.remove(key),
                index: without_owner(self.index, key),
                separator: self.separator,
            }).wf::<H>(),
    {
        let next = RingView {
            servers: self.servers.remove(key),
            index: without_owner(self.index, key),
            separator: self.separator,
        };
        lemma_without_owner(self.index, key);
        assert forall|e: NodeView|
            #![trigger next.index.contains(e)]
            #![trigger next.owns(e)]
            next.index.contains(e) <==> next.owns(e) by {
            if e.owner != key {
                assert(next.owns(e) <==> self.owns(e));
                assert(self.index.contains(e) <==> self.owns(e));
            }
        }
    }

    /// The key of the server that serves `position` on a ring that holds a
    /// node: the owner of the first node at or beyond `position`, and of the
    /// first node of all where there is none.
    pub open spec fn owner_of(self, position: u64) -> Seq<char> {
        self.index[successor(self.index, position)].owner
    }

    /// What a lookup of a ring position gives.
    pub open spec fn lookup_position(self, position: u64) -> Result<Seq<char>, RingError> {
        if self.index.len() == 0 {
            Err(RingError::EmptyRing)
        } else {
            Ok(self.owner_of(position))
        }
    }

    /// What a lookup of `key` gives: the server that serves the position to
    /// which `H` hashes the key.
    pub open spec fn lookup<H: RingHash>(self, key: Seq<u8>) -> Result<Seq<char>, RingError> {
        if self.index.len() == 0 {
            Err(RingError::EmptyRing)
        } else if key.len() == 0 {
            Err(RingError::InvalidArgument)
        } else {
            Ok(self.owner_of(H::spec_hash(key)))
        }
    }

    /// Whether a server with this key can be registered.
    pub open spec fn add_outcome(self, key: Seq<char>) -> Result<(), RingError> {
        if key.len() == 0 {
            Err(RingError::InvalidArgument)
        } else if self.servers.dom().contains(key) {
            Err(RingError::DuplicateServer)
        } else {
            Ok(())
        }
    }

    /// Whether the server `key` can be given `count` more virtual nodes:
    /// their sequence numbers have to fit in 32 bits.
    pub open spec fn add_node_outcome(self, key: Seq<char>, count: nat) -> Result<(), RingError> {
        if !self.servers.dom().contains(key) {
            Err(RingError::ServerNotFound)
        } else if count == 0 || self.servers[key].next_sequence + count > u32::MAX {
            Err(RingError::InvalidArgument)
        } else {
            Ok(())
        }
    }

    /// Whether the server `key` can be removed.
    pub open spec fn remove_outcome(self, key: Seq<char>) -> Result<(), RingError> {
        if self.servers.dom().contains(key) {
            Ok(())
        } else {
            Err(RingError::ServerNotFound)
        }
    }

    /// `next` is this ring after the server `key` was registered with `count`
    /// virtual nodes.
    pub open spec fn added<H: RingHash>(
        self,
        key: Seq<char>,
        name: Seq<char>,
        count: nat,
        next: RingView,
    ) -> bool {
        &&& next.wf::<H>()
        &&& next.separator == self.separator
        &&& next.servers == self.servers.insert(
            key,
            ServerView::registered::<H>(key, name, self.separator, count),
        )
    }

    /// `next` is this ring after the server `key` was given `count` more
    /// virtual nodes.
    pub open spec fn extended<H: RingHash>(self, key: Seq<char>, count: nat, next: RingView) -> bool {
        &&& next.wf::<H>()
        &&& next.separator == self.separator
        &&& next.servers == self.servers.insert(
            key,
            self.servers[key].extended::<H>(self.separator, count),
        )
    }

    /// `next` is this ring after the server `key` was removed, with all its
    /// virtual nodes.
    pub open spec fn removed<H: RingHash>(self, key: Seq<char>, next: RingView) -> bool {
        &&& next.wf::<H>()
        &&& next.separator == self.separator
        &&& next.servers == self.servers.remove(key)
        &&& next.index == without_owner(self.index, key)
    }
}

} // verus!
