//! Virtual nodes: the points that servers occupy on the ring.

use crate::decimal::{decimal, decimal_string};
use crate::hash::RingHash;
use crate::order::{
    key_lt, lemma_key_lt_asymmetric, lemma_key_lt_connected, lemma_key_lt_transitive, str_less,
};
use vstd::prelude::*;
use vstd::string::StringExecFns;
use vstd::utf8::encode_utf8;

verus! {

/// One point on the ring.
#[derive(Debug, PartialEq, Eq)]
pub struct VirtualNode {
    /// The ring coordinate: the hash of the node's name.
    pub position: u64,
    /// The key of the server that owns the node.
    pub owner_key: String,
    /// The node's number among the nodes that its server was ever given.
    pub sequence: u32,
}

/// A virtual node as a mathematical value.
pub struct NodeView {
    pub position: u64,
    pub owner: Seq<char>,
    pub sequence: nat,
}

impl View for VirtualNode {
    type V = NodeView;

    open spec fn view(&self) -> NodeView {
        NodeView {
            position: self.position,
            owner: self.owner_key@,
            sequence: self.sequence as nat,
        }
    }
}

/// The nodes of a vector as mathematical values, in the vector's order.
pub open spec fn node_views(nodes: Seq<VirtualNode>) -> Seq<NodeView> {
    Seq::new(nodes.len(), |i: int| nodes[i]@)
}

/// The name of a server's virtual node: the server's key, the separator, and
/// the node's sequence number in decimal.
pub open spec fn node_key(owner: Seq<char>, separator: Seq<char>, sequence: nat) -> Seq<char> {
    owner + separator + decimal(sequence)
}

/// The virtual node with the given sequence number of the server `owner`:
/// it lies where `H` puts the UTF-8 bytes of its name.
pub open spec fn node_at<H: RingHash>(
    owner: Seq<char>,
    separator: Seq<char>,
    sequence: nat,
) -> NodeView {
    NodeView {
        position: H::spec_hash(encode_utf8(node_key(owner, separator, sequence))),
        owner,
        sequence,
    }
}

/// The nodes numbered `start`, `start + 1`, ... of the server `owner`, `count` of them.
pub open spec fn fresh_nodes<H: RingHash>(
    owner: Seq<char>,
    separator: Seq<char>,
    start: nat,
    count: nat,
) -> Seq<NodeView> {
    Seq::new(count, |i: int| node_at::<H>(owner, separator, (start + i) as nat))
}

/// The order of the ring: by position; nodes at one position by their owner's
/// key, compared bytewise; nodes of one owner by sequence number.
pub open spec fn node_lt(a: NodeView, b: NodeView) -> bool {
    ||| a.position < b.position
    ||| a.position == b.position && key_lt(a.owner, b.owner)
    ||| a.position == b.position && a.owner == b.owner && a.sequence < b.sequence
}

/// No node comes before itself, and no two come before each other.
pub proof fn lemma_node_lt_asymmetric(a: NodeView, b: NodeView)
    ensures
        !(node_lt(a, b) && node_lt(b, a)),
{
    lemma_key_lt_asymmetric(a.owner, b.owner);
}

/// What comes before a node comes before all that it comes before.
pub proof fn lemma_node_lt_transitive(a: NodeView, b: NodeView, c: NodeView)
    requires
        node_lt(a, b),
        node_lt(b, c),
    ensures
        node_lt(a, c),
{
    lemma_key_lt_asymmetric(a.owner, a.owner);
    if key_lt(a.owner, b.owner) && key_lt(b.owner, c.owner) {
        lemma_key_lt_transitive(a.owner, b.owner, c.owner);
    }
}

/// Of two different nodes one comes before the other.
pub proof fn lemma_node_lt_connected(a: NodeView, b: NodeView)
    requires
        !node_lt(a, b),
        !node_lt(b, a),
    ensures
        a == b,
{
    lemma_key_lt_connected(a.owner, b.owner);
}

impl Clone for VirtualNode {
    fn clone(&self) -> (r: Self)
        ensures
            r@ == self@,
    {
        VirtualNode {
            position: self.position,
            owner_key: self.owner_key.clone(),
            sequence: self.sequence,
        }
    }
}

impl VirtualNode {
    /// Writes the name of the virtual node with the given sequence number of
    /// the server `owner_key`.
    pub fn name_of(owner_key: &str, separator: &str, sequence: u32) -> (name: String)
        ensures
            name@ == node_key(owner_key@, separator@, sequence as nat),
    {
        let mut name = String::from_str(owner_key);
        name.append(separator);
        let numeral = decimal_string(sequence);
        name.append(numeral.as_str());
        name
    }

    /// Makes the virtual node with the given sequence number of the server
    /// `owner_key`, hashing its name with `H`.
    pub fn create<H: RingHash>(owner_key: &str, separator: &str, sequence: u32) -> (node: Self)
        ensures
            node@ == node_at::<H>(owner_key@, separator@, sequence as nat),
    {
        let name = Self::name_of(owner_key, separator, sequence);
        let position = H::hash(name.as_str().as_bytes());
        VirtualNode { position, owner_key: String::from_str(owner_key), sequence }
    }

    /// The name that was hashed to place this node.
    pub fn name(&self, separator: &str) -> (name: String)
        ensures
            name@ == node_key(self@.owner, separator@, self@.sequence),
    {
        Self::name_of(self.owner_key.as_str(), separator, self.sequence)
    }

    /// Decides whether this node comes before `other` on the ring.
    pub fn precedes(&self, other: &VirtualNode) -> (r: bool)
        ensures
            r == node_lt(self@, other@),
    {
        if self.position != other.position {
            return self.position < other.position;
        }
        if str_less(self.owner_key.as_str(), other.owner_key.as_str()) {
            return true;
        }
        if str_less(other.owner_key.as_str(), self.owner_key.as_str()) {
            proof {
                lemma_key_lt_asymmetric(self.owner_key@, self.owner_key@);
            }
            return false;
        }
        proof {
            lemma_key_lt_connected(self.owner_key@, other.owner_key@);
        }
        self.sequence < other.sequence
    }
}

} // verus!
