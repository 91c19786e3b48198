//! The requests and responses of the four operations.
use vstd::prelude::*;
use crate::message::{
    encode_request_message, request_message, KIND_FIND_NODE, KIND_FIND_VALUE, KIND_PING, KIND_STORE,
};
use crate::routing_table::{NodeInfo, PeerAddr};

verus! {

/// What every request carries: who sends it, when, its nonce, and its
/// signature under the sender's public key.
#[derive(Clone, Debug)]
pub struct Credentials {
    pub requester_node_id: Vec<u8>,
    pub requester_address: PeerAddr,
    /// Seconds since the Unix epoch.
    pub timestamp: i64,
    pub nonce: i64,
    pub signature: Vec<u8>,
    pub sender_public_key: Vec<u8>,
}

/// Asks whether a node is online.
#[derive(Clone, Debug)]
pub struct PingRequest {
    pub credentials: Credentials,
}

/// Asks a node to store a value under a key.
#[derive(Clone, Debug)]
pub struct StoreRequest {
    pub credentials: Credentials,
    pub key: Vec<u8>,
    pub value: Vec<u8>,
}

/// Asks a node for the peers it knows near a target identifier.
#[derive(Clone, Debug)]
pub struct FindNodeRequest {
    pub credentials: Credentials,
    pub target_node_id: Vec<u8>,
}

/// Asks a node for the value of a key, or else for peers near the key.
#[derive(Clone, Debug)]
pub struct FindValueRequest {
    pub credentials: Credentials,
    pub key: Vec<u8>,
}

/// The answer to a ping.
#[derive(Clone, Debug)]
pub struct PingResponse {
    pub is_online: bool,
    pub node_id: [u8; 20],
}

/// The answer to a store.
#[derive(Clone, Debug)]
pub struct StoreResponse {
    pub success: bool,
}

/// The answer to a find-node.
#[derive(Clone, Debug)]
pub struct FindNodeResponse {
    pub nodes: Vec<NodeInfo>,
}

/// The answer to a find-value: the value, or else an empty value and peers
/// near the key.
#[derive(Clone, Debug)]
pub struct FindValueResponse {
    pub value: Vec<u8>,
    pub nodes: Vec<NodeInfo>,
}

/// Why a request was refused.
#[derive(Clone, Copy, Debug, PartialEq, Eq, Structural)]
pub enum RequestError {
    /// The timestamp, the signature or the nonce was refused.
    Unauthenticated,
    /// A field does not have the form the protocol asks for.
    Malformed,
}

/// The signed message of a request of kind `kind` with these credentials.
pub open spec fn signed_message(kind: u8, c: Credentials, first: Seq<u8>, second: Seq<u8>) -> Seq<u8> {
    request_message(kind, c.timestamp, c.sender_public_key@, c.requester_node_id@, first, second)
}

impl PingRequest {
    /// The message that the signature covers.
    pub open spec fn signed(&self) -> Seq<u8> {
        signed_message(KIND_PING, self.credentials, Seq::empty(), Seq::empty())
    }

    /// The message that the signature covers.
    pub fn message(&self) -> (r: Vec<u8>)
        ensures
            r@ == self.signed(),
    {
        let c = &self.credentials;
        encode_request_message(
            KIND_PING,
            c.timestamp,
            c.sender_public_key.as_slice(),
            c.requester_node_id.as_slice(),
            &[],
            &[],
        )
    }
}

impl StoreRequest {
    /// The message that the signature covers.
    pub open spec fn signed(&self) -> Seq<u8> {
        signed_message(KIND_STORE, self.credentials, self.key@, self.value@)
    }

    /// The message that the signature covers.
    pub fn message(&self) -> (r: Vec<u8>)
        ensures
            r@ == self.signed(),
    {
        let c = &self.credentials;
        encode_request_message(
            KIND_STORE,
            c.timestamp,
            c.sender_public_key.as_slice(),
            c.requester_node_id.as_slice(),
            self.key.as_slice(),
            self.value.as_slice(),
        )
    }
}

impl FindNodeRequest {
    /// The message that the signature covers.
    pub open spec fn signed(&self) -> Seq<u8> {
        signed_message(KIND_FIND_NODE, self.credentials, self.target_node_id@, Seq::empty())
    }

    /// The message that the signature covers.
    pub fn message(&self) -> (r: Vec<u8>)
        ensures
            r@ == self.signed(),
    {
        let c = &self.credentials;
        encode_request_message(
            KIND_FIND_NODE,
            c.timestamp,
            c.sender_public_key.as_slice(),
            c.requester_node_id.as_slice(),
            self.target_node_id.as_slice(),
            &[],
        )
    }
}

impl FindValueRequest {
    /// The message that the signature covers.
    pub open spec fn signed(&self) -> Seq<u8> {
        signed_message(KIND_FIND_VALUE, self.credentials, self.key@, Seq::empty())
    }

    /// The message that the signature covers.
    pub fn message(&self) -> (r: Vec<u8>)
        ensures
            r@ == self.signed(),
    {
        let c = &self.credentials;
        encode_request_message(
            KIND_FIND_VALUE,
            c.timestamp,
            c.sender_public_key.as_slice(),
            c.requester_node_id.as_slice(),
            self.key.as_slice(),
            &[],
        )
    }
}

} // verus!
