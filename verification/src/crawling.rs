//! What a lookup gets out of one peer.

use vstd::prelude::*;

verus! {

/// A node as a lookup receives it: id, IP and port.
pub type NodeTuple = (Vec<u8>, Option<String>, Option<u16>);

/// What a peer answered.
#[derive(Debug)]
pub enum FindPayload {
    Empty,
    Nodes(Vec<NodeTuple>),
    Value(Vec<u8>),
}

/// Whether a peer answered, and what.
#[derive(Debug)]
pub struct RawResponse(pub bool, pub FindPayload);

} // verus!
