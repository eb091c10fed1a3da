//! A consistent-hashing ring with virtual nodes.
//!
//! A ring assigns every key to one of a changing set of servers. Each server
//! stands on the ring at several points, its virtual nodes; a key belongs to
//! the server of the first virtual node at or beyond the point to which the
//! key hashes, and the ring wraps around. Registering or removing a server
//! then moves only the keys that this server takes over or gives up.
//!
//! - [`ring`] holds the ring itself and its operations;
//! - [`model`] says what a ring is as a mathematical value, and what each
//!   operation makes of it;
//! - [`laws`] proves what holds of every ring;
//! - [`index`] keeps virtual nodes in ring order;
//! - [`node`] defines virtual nodes and their order;
//! - [`hash`] holds the hash functions that place names and keys on the ring;
//! - [`order`] and [`decimal`] order and write the names of virtual nodes;
//! - [`error`] lists the reasons for which an operation is refused.

pub mod decimal;
pub mod error;
pub mod hash;
pub mod index;
pub mod laws;
pub mod model;
pub mod node;
pub mod order;
pub mod ring;

pub use error::RingError;
pub use hash::{Fnv1a, RingHash, StdHash};
pub use node::VirtualNode;
pub use ring::{ConsistentHasing, Server};
