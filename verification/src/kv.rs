//! The messages exchanged between a client and the server.
use vstd::prelude::*;

verus! {

/// Asks for the value stored under `key`.
#[derive(Clone, Debug, PartialEq, Eq)]
pub struct GetRequest {
    pub key: String,
}

/// Asks to store `value` under `key`, replacing any previous value.
#[derive(Clone, Debug, PartialEq, Eq)]
pub struct SetRequest {
    pub key: String,
    pub value: Vec<u8>,
}

/// Asks to remove `key` from the store.
#[derive(Clone, Debug, PartialEq, Eq)]
pub struct DeleteRequest {
    pub key: String,
}

/// The command carried by a request.
#[derive(Clone, Debug, PartialEq, Eq)]
pub enum Command {
    Get(GetRequest),
    Put(SetRequest),
    Delete(DeleteRequest),
}

/// A request as it arrives from a client; a request without a command is
/// malformed.
#[derive(Clone, Debug, PartialEq, Eq)]
pub struct Request {
    pub command: Option<Command>,
}

/// Answer to a get: the value, or the empty value and the error text `KO`
/// when the key is absent.
#[derive(Clone, Debug, PartialEq, Eq)]
pub struct GetReply {
    pub value: Vec<u8>,
    pub err: String,
}

/// Answer to a set.
#[derive(Clone, Debug, PartialEq, Eq)]
pub struct SetReply {
    pub status: bool,
}

/// Answer to a delete.
#[derive(Clone, Debug, PartialEq, Eq)]
pub struct DeleteReply {
    pub status: bool,
}

} // verus!
