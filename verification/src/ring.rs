//! The ring: registered servers, and the index of their virtual nodes.

use crate::error::RingError;
use crate::hash::{RingHash, StdHash};
use crate::index::{lower_bound, place_nodes, retain_others};
use crate::model::{found, RingView, ServerView};
use crate::node::{fresh_nodes, node_views, NodeView, VirtualNode};
use crate::order::str_equal;
use std::marker::PhantomData;
use vstd::prelude::*;
use vstd::string::StringExecFns;
use vstd::utf8::encode_utf8;

verus! {

/// A backend that keys are assigned to.
#[derive(Debug)]
pub struct Server {
    name: String,
    key: String,
    nodes: Vec<VirtualNode>,
    next_sequence: u32,
}

impl View for Server {
    type V = ServerView;

    closed spec fn view(&self) -> ServerView {
        ServerView {
            key: self.key@,
            name: self.name@,
            nodes: node_views(self.nodes@),
            next_sequence: self.next_sequence as nat,
        }
    }
}

impl Server {
    /// A server with the given display name and key, and no virtual nodes yet.
    pub fn new(name: &str, key: &str) -> (server: Self)
        ensures
            server@ == (ServerView {
                key: key@,
                name: name@,
                nodes: Seq::empty(),
                next_sequence: 0,
            }),
    {
        let server = Server {
            name: String::from_str(name),
            key: String::from_str(key),
            nodes: Vec::new(),
            next_sequence: 0,
        };
        assert(server@.nodes =~= Seq::<NodeView>::empty());
        server
    }

    /// The key under which the server is registered.
    pub fn key(&self) -> (key: &str)
        ensures
            key@ == self@.key,
    {
        self.key.as_str()
    }

    /// The server's display name.
    pub fn name(&self) -> (name: &str)
        ensures
            name@ == self@.name,
    {
        self.name.as_str()
    }

    /// The number of the server's virtual nodes.
    pub fn virtual_node_count(&self) -> (count: usize)
        ensures
            count == self@.nodes.len(),
    {
        self.nodes.len()
    }

    /// The server's virtual nodes, in the order in which they were made.
    pub fn nodes(&self) -> (nodes: &Vec<VirtualNode>)
        ensures
            node_views(nodes@) == self@.nodes,
    {
        &self.nodes
    }
}

/// The servers of a vector, each under its key.
spec fn server_map(servers: Seq<Server>) -> Map<Seq<char>, ServerView>
    decreases servers.len(),
{
    if servers.len() == 0 {
        Map::empty()
    } else {
        server_map(servers.drop_last()).insert(servers.last().key@, servers.last()@)
    }
}

/// No two servers of the vector have the same key.
spec fn distinct_keys(servers: Seq<Server>) -> bool {
    forall|i: int, j: int| 0 <= i < j < servers.len() ==> servers[i].key@ != servers[j].key@
}

proof fn lemma_server_map(servers: Seq<Server>)
    requires
        distinct_keys(servers),
    ensures
        server_map(servers).dom().finite(),
        server_map(servers).dom().len() == servers.len(),
        forall|i: int|
            0 <= i < servers.len() ==> {
                &&& server_map(servers).dom().contains((#[trigger] servers[i]).key@)
                &&& server_map(servers)[servers[i].key@] == servers[i]@
            },
        forall|k: Seq<char>|
            server_map(servers).dom().contains(k) ==> exists|i: int|
                0 <= i < servers.len() && (#[trigger] servers[i]).key@ == k,
    decreases servers.len(),
{
    if servers.len() > 0 {
        let front = servers.drop_last();
        let last = servers.last();
        lemma_server_map(front);
        assert forall|i: int| 0 <= i < servers.len() implies {
            &&& server_map(servers).dom().contains((#[trigger] servers[i]).key@)
            &&& server_map(servers)[servers[i].key@] == servers[i]@
        } by {
            if i < front.len() {
                assert(front[i] == servers[i]);
            }
        }
        assert forall|k: Seq<char>| server_map(servers).dom().contains(k) implies exists|i: int|
            0 <= i < servers.len() && (#[trigger] servers[i]).key@ == k by {
            if k == last.key@ {
                assert(servers[servers.len() - 1].key@ == k);
            } else {
                let i = choose|i: int| 0 <= i < front.len() && (#[trigger] front[i]).key@ == k;
                assert(servers[i].key@ == k);
            }
        }
        if server_map(front).dom().contains(last.key@) {
            let i = choose|i: int| 0 <= i < front.len() && (#[trigger] front[i]).key@ == last.key@;
            assert(servers[i].key@ == servers[servers.len() - 1].key@);
        }
    }
}

proof fn lemma_server_map_push(servers: Seq<Server>, server: Server)
    ensures
        server_map(servers.push(server)) == server_map(servers).insert(server.key@, server@),
{
    assert(servers.push(server).drop_last() =~= servers);
}

proof fn lemma_server_map_remove(servers: Seq<Server>, slot: int)
    requires
        distinct_keys(servers),
        0 <= slot < servers.len(),
    ensures
        distinct_keys(servers.remove(slot)),
        server_map(servers.remove(slot)) == server_map(servers).remove(servers[slot].key@),
    decreases servers.len(),
{
    let rest = servers.remove(slot);
    let front = servers.drop_last();
    servers.remove_ensures(slot);
    lemma_server_map(front);
    if slot == servers.len() - 1 {
        assert(rest =~= front);
        if server_map(front).dom().contains(servers[slot].key@) {
            let i = choose|i: int|
                0 <= i < front.len() && (#[trigger] front[i]).key@ == servers[slot].key@;
            assert(servers[i].key@ == servers[slot].key@);
        }
        assert(server_map(rest) =~= server_map(servers).remove(servers[slot].key@));
    } else {
        lemma_server_map_remove(front, slot);
        assert(rest.drop_last() =~= front.remove(slot));
        assert(rest.last() == servers.last());
        assert(servers[slot].key@ != servers[servers.len() - 1].key@);
        assert(server_map(rest) =~= server_map(servers).remove(servers[slot].key@));
    }
}

/// A consistent-hashing ring: it assigns each key to one of its servers, so
/// that a change of the servers moves few keys. `H` places keys and virtual
/// nodes on the ring.
pub struct ConsistentHasing<H: RingHash = StdHash> {
    servers: Vec<Server>,
    virtual_nodes: Vec<VirtualNode>,
    separator: String,
    hasher: PhantomData<H>,
}

impl<H: RingHash> View for ConsistentHasing<H> {
    type V = RingView;

    closed spec fn view(&self) -> RingView {
        RingView {
            servers: server_map(self.servers@),
            index: node_views(self.virtual_nodes@),
            separator: self.separator@,
        }
    }
}

impl ConsistentHasing<StdHash> {
    /// A ring without servers that hashes with the standard library's default
    /// hasher and names virtual nodes with the separator `_`.
    pub fn new() -> (ring: Self)
        ensures
            ring.wf(),
            ring@ == RingView::empty("_"@),
    {
        Self::with_separator("_")
    }
}

impl<H: RingHash> ConsistentHasing<H> {
    /// The ring is sound: its view is well formed, and it holds each server once.
    pub open spec fn wf(&self) -> bool {
        &&& self@.wf::<H>()
        &&& self.holds_each_server_once()
    }

    /// No two of the ring's server records have the same key.
    pub closed spec fn holds_each_server_once(&self) -> bool {
        distinct_keys(self.servers@)
    }

    /// A ring without servers that names virtual nodes with the given separator.
    pub fn with_separator(separator: &str) -> (ring: Self)
        ensures
            ring.wf(),
            ring@ == RingView::empty(separator@),
    {
        let ring = ConsistentHasing {
            servers: Vec::new(),
            virtual_nodes: Vec::new(),
            separator: String::from_str(separator),
            hasher: PhantomData,
        };
        assert(ring@.index =~= Seq::<NodeView>::empty());
        assert(ring@.servers =~= Map::<Seq<char>, ServerView>::empty());
        ring
    }

    /// The ring position of a string: the hash of its UTF-8 bytes.
    pub fn hash(value: &str) -> (position: u64)
        ensures
            position == H::spec_hash(encode_utf8(value@)),
    {
        H::hash(value.as_bytes())
    }

    /// Finds the record of the server `server_key`.
    fn find_server(&self, server_key: &str) -> (slot: Option<usize>)
        requires
            self.wf(),
        ensures
            match slot {
                Some(i) => {
                    &&& i < self.servers.len()
                    &&& self.servers[i as int].key@ == server_key@
                    &&& self@.servers.dom().contains(server_key@)
                },
                None => !self@.servers.dom().contains(server_key@),
            },
    {
        proof {
            lemma_server_map(self.servers@);
        }
        let mut i: usize = 0;
        while i < self.servers.len()
            invariant
                i <= self.servers.len(),
                forall|j: int| 0 <= j < i ==> (#[trigger] self.servers[j]).key@ != server_key@,
                self@.servers.dom().contains(server_key@) <==> exists|j: int|
                    0 <= j < self.servers.len() && (#[trigger] self.servers[j]).key@ == server_key@,
            decreases self.servers.len() - i,
        {
            if str_equal(self.servers[i].key.as_str(), server_key) {
                return Some(i);
            }
            i += 1;
        }
        None
    }

    /// Whether a server with this key is registered.
    pub fn server_exist(&self, server_key: &str) -> (registered: bool)
        requires
            self.wf(),
        ensures
            registered == self@.servers.dom().contains(server_key@),
    {
        self.find_server(server_key).is_some()
    }

    /// The server registered under `server_key`, to read.
    pub fn get_server(&self, server_key: &str) -> (r: Result<&Server, RingError>)
        requires
            self.wf(),
        ensures
            match r {
                Ok(server) => self@.servers.dom().contains(server_key@) && server@
                    == self@.servers[server_key@],
                Err(e) => e == RingError::ServerNotFound && !self@.servers.dom().contains(
                    server_key@,
                ),
            },
    {
        match self.find_server(server_key) {
            Some(i) => {
                proof {
                    lemma_server_map(self.servers@);
                }
                Ok(&self.servers[i])
            },
            None => Err(RingError::ServerNotFound),
        }
    }

    /// Registers `server` under its key, with `virtual_node_count` virtual
    /// nodes numbered from 0, each put into the index at its place in ring
    /// order. A count of 0 registers a server that serves no key.
    ///
    /// Fails with `InvalidArgument` if the key is empty, and with
    /// `DuplicateServer` if a server with this key is registered; the ring
    /// is then unchanged.
    pub fn add(&mut self, server: Server, virtual_node_count: u32) -> (r: Result<(), RingError>)
        requires
            old(self).wf(),
        ensures
            final(self).wf(),
            r == old(self)@.add_outcome(server@.key),
            r is Ok ==> old(self)@.added::<H>(
                server@.key,
                server@.name,
                virtual_node_count as nat,
                final(self)@,
            ),
            r is Ok ==> final(self)@.index.len() == old(self)@.index.len() + virtual_node_count,
            r is Err ==> final(self)@ == old(self)@,
    {
        if server.key.as_str().is_empty() {
            return Err(RingError::InvalidArgument);
        }
        if self.server_exist(server.key.as_str()) {
            return Err(RingError::DuplicateServer);
        }
        let ghost before = self@;
        let ghost key = server.key@;
        let mut nodes: Vec<VirtualNode> = Vec::new();
        proof {
            assert forall|e: NodeView| #[trigger]
                before.index.contains(e) && e.owner == key implies e.sequence < 0 by {
                assert(before.owns(e));
            }
        }
        place_nodes::<H>(
            &mut self.virtual_nodes,
            &mut nodes,
            server.key.as_str(),
            self.separator.as_str(),
            0,
            virtual_node_count,
        );
        assert(node_views(nodes@) =~= fresh_nodes::<H>(
            key,
            before.separator,
            0,
            virtual_node_count as nat,
        ));
        let record = Server {
            name: server.name,
            key: server.key,
            nodes,
            next_sequence: virtual_node_count,
        };
        proof {
            lemma_server_map(self.servers@);
            lemma_server_map_push(self.servers@, record);
            ServerView::lemma_registered_wf::<H>(
                key,
                record@.name,
                before.separator,
                virtual_node_count as nat,
            );
            let index = node_views(self.virtual_nodes@);
            assert forall|e: NodeView| #![trigger index.contains(e)]
                index.contains(e) <==> (before.index.contains(e) && e.owner != key)
                    || record@.nodes.contains(e) by {
                if before.index.contains(e) {
                    assert(before.owns(e));
                }
            }
            before.lemma_with_server_wf::<H>(record@, index);
        }
        self.servers.push(record);
        Ok(())
    }

    /// Gives the server `server_key` `virtual_node_count` more virtual nodes,
    /// numbered on from where the server's numbering stands, each put into
    /// the index at its place in ring order.
    ///
    /// Fails with `ServerNotFound` if no such server is registered, else with
    /// `InvalidArgument` if the count is 0 or the sequence numbers would
    /// leave 32 bits; the ring is then unchanged.
    pub fn add_node(&mut self, server_key: &str, virtual_node_count: u32) -> (r: Result<
        (),
        RingError,
    >)
        requires
            old(self).wf(),
        ensures
            final(self).wf(),
            r == old(self)@.add_node_outcome(server_key@, virtual_node_count as nat),
            r is Ok ==> old(self)@.extended::<H>(
                server_key@,
                virtual_node_count as nat,
                final(self)@,
            ),
            r is Ok ==> final(self)@.index.len() == old(self)@.index.len() + virtual_node_count,
            r is Err ==> final(self)@ == old(self)@,
    {
        let slot = match self.find_server(server_key) {
            Some(i) => i,
            None => {
                return Err(RingError::ServerNotFound);
            },
        };
        proof {
            lemma_server_map(self.servers@);
        }
        let start = self.servers[slot].next_sequence;
        if virtual_node_count == 0 || virtual_node_count > u32::MAX - start {
            return Err(RingError::InvalidArgument);
        }
        let ghost before = self@;
        let ghost key = server_key@;
        let ghost owner = before.servers[key];
        proof {
            lemma_server_map_remove(self.servers@, slot as int);
        }
        let mut server = self.servers.remove(slot);
        proof {
            assert forall|e: NodeView| #[trigger]
                before.index.contains(e) && e.owner == key implies e.sequence < start by {
                assert(before.owns(e));
                let j = choose|j: int| 0 <= j < owner.nodes.len() && owner.nodes[j] == e;
                assert(owner.nodes[j].sequence < owner.next_sequence);
            }
        }
        place_nodes::<H>(
            &mut self.virtual_nodes,
            &mut server.nodes,
            server_key,
            self.separator.as_str(),
            start,
            virtual_node_count,
        );
        server.next_sequence = start + virtual_node_count;
        proof {
            let rest = self.servers@;
            lemma_server_map(rest);
            lemma_server_map_push(rest, server);
            assert forall|j: int| 0 <= j < rest.len() implies (#[trigger] rest[j]).key@ != key by {
                assert(server_map(rest).dom().contains(rest[j].key@));
            }
            assert(server@ == owner.extended::<H>(before.separator, virtual_node_count as nat));
            owner.lemma_extended_wf::<H>(before.separator, virtual_node_count as nat);
            let index = node_views(self.virtual_nodes@);
            assert forall|e: NodeView| #![trigger index.contains(e)]
                index.contains(e) <==> (before.index.contains(e) && e.owner != key)
                    || server@.nodes.contains(e) by {
                if before.index.contains(e) {
                    assert(before.owns(e));
                }
                if owner.nodes.contains(e) {
                    let j = choose|j: int| 0 <= j < owner.nodes.len() && owner.nodes[j] == e;
                    assert(owner.nodes[j].owner == key);
                    assert(before.owns(e));
                }
            }
            before.lemma_with_server_wf::<H>(server@, index);
            assert(before.servers.remove(key).insert(key, server@) =~= before.servers.insert(
                key,
                server@,
            ));
        }
        self.servers.push(server);
        Ok(())
    }

    /// Removes the server `server_key` and, from the index, all its virtual
    /// nodes; the other nodes keep their order.
    ///
    /// Fails with `ServerNotFound` if no such server is registered; the ring
    /// is then unchanged.
    pub fn remove(&mut self, server_key: &str) -> (r: Result<(), RingError>)
        requires
            old(self).wf(),
        ensures
            final(self).wf(),
            r == old(self)@.remove_outcome(server_key@),
            r is Ok ==> old(self)@.removed::<H>(server_key@, final(self)@),
            r is Err ==> final(self)@ == old(self)@,
    {
        let slot = match self.find_server(server_key) {
            Some(i) => i,
            None => {
                return Err(RingError::ServerNotFound);
            },
        };
        let ghost before = self@;
        let ghost key = server_key@;
        let kept = retain_others(&self.virtual_nodes, server_key);
        proof {
            lemma_server_map(self.servers@);
            lemma_server_map_remove(self.servers@, slot as int);
            before.lemma_without_server_wf::<H>(key);
        }
        self.virtual_nodes = kept;
        self.servers.remove(slot);
        Ok(())
    }

    /// The key of the server that serves the ring position `position`: the
    /// owner of the first virtual node at or beyond it, found by binary
    /// search, and of the first node of all where the ring wraps around.
    ///
    /// Fails with `EmptyRing` if the ring holds no virtual node.
    pub fn lookup_position(&self, position: u64) -> (r: Result<&str, RingError>)
        requires
            self.wf(),
        ensures
            found(r) == self@.lookup_position(position),
            r matches Ok(key) ==> self@.servers.dom().contains(key@),
    {
        if self.virtual_nodes.len() == 0 {
            return Err(RingError::EmptyRing);
        }
        let first = lower_bound(&self.virtual_nodes, position);
        let k = if first < self.virtual_nodes.len() {
            first
        } else {
            0
        };
        proof {
            let node = self@.index[k as int];
            assert(self@.index.contains(node));
            assert(self@.owns(node));
        }
        Ok(self.virtual_nodes[k].owner_key.as_str())
    }

    /// The key of the server that serves `key`: the server that serves the
    /// position to which `H` hashes the key.
    ///
    /// Fails with `EmptyRing` if the ring holds no virtual node, else with
    /// `InvalidArgument` if the key is empty.
    pub fn lookup(&self, key: &[u8]) -> (r: Result<&str, RingError>)
        requires
            self.wf(),
        ensures
            found(r) == self@.lookup::<H>(key@),
            r matches Ok(server_key) ==> self@.servers.dom().contains(server_key@),
    {
        if self.virtual_nodes.len() == 0 {
            return Err(RingError::EmptyRing);
        }
        if key.len() == 0 {
            return Err(RingError::InvalidArgument);
        }
        self.lookup_position(H::hash(key))
    }

    /// The server that serves `key`, to read.
    ///
    /// Fails as [`ConsistentHasing::lookup`] does.
    pub fn lookup_server(&self, key: &[u8]) -> (r: Result<&Server, RingError>)
        requires
            self.wf(),
        ensures
            match r {
                Ok(server) => self@.lookup::<H>(key@) == Ok::<Seq<char>, RingError>(server@.key)
                    && self@.servers.dom().contains(server@.key) && server@
                    == self@.servers[server@.key],
                Err(e) => self@.lookup::<H>(key@) == Err::<Seq<char>, RingError>(e),
            },
    {
        let owner = match self.lookup(key) {
            Ok(owner) => owner,
            Err(e) => {
                return Err(e);
            },
        };
        match self.get_server(owner) {
            Ok(server) => Ok(server),
            Err(e) => Err(e),
        }
    }

    /// The number of registered servers.
    pub fn server_count(&self) -> (count: usize)
        requires
            self.wf(),
        ensures
            count == self@.servers.len(),
    {
        proof {
            lemma_server_map(self.servers@);
        }
        self.servers.len()
    }

    /// The number of virtual nodes on the ring.
    pub fn virtual_node_count(&self) -> (count: usize)
        ensures
            count == self@.index.len(),
    {
        self.virtual_nodes.len()
    }

    /// The virtual nodes of all servers, in ring order.
    pub fn nodes(&self) -> (nodes: &Vec<VirtualNode>)
        ensures
            node_views(nodes@) == self@.index,
    {
        &self.virtual_nodes
    }

    /// What stands between a server's key and a sequence number in the name
    /// of a virtual node.
    pub fn separator(&self) -> (separator: &str)
        ensures
            separator@ == self@.separator,
    {
        self.separator.as_str()
    }
}

} // verus!
