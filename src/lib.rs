//! A Kademlia-style distributed hash table node: proof-of-work identities,
//! an XOR-metric routing table, an authenticated request protocol and an
//! iterative peer lookup.
pub mod client;
pub mod config;
pub mod crypto;
pub mod id;
pub mod identity;
pub mod lookup;
pub mod message;
pub mod node;
pub mod protocol;
pub mod routing_table;
mod sampling;
pub mod signing;
pub mod storage;
