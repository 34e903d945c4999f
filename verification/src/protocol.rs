//! Kademlia protocol layer: messages, expectations and request handlers.
//!
//! [`KademliaProtocol`] holds the state of the protocol and decides what becomes of
//! datagrams, frames and requests. Its caller owns the socket, the routing table and
//! the signature back end: it asks them what a function here needs to know, hands
//! over the answers and performs what the function decided.

use std::collections::HashMap;
use vstd::prelude::*;

use crate::crawling::{FindPayload, NodeTuple, RawResponse};
use crate::endpoint::Endpoint;
use crate::fragmentation::{self, encode_fragments, MAX_MESSAGE_SIZE};
use crate::long_id::{self, LongId};
use crate::node::{self, Node};
use crate::peers::{self, StrikeCounter, WelcomeQueue};
use crate::reassembly::{BufferState, DatagramOutcome, ReassemblyBuffer};
use crate::storage::{self, ForgetfulStorage, IStorage, StorageWriteStatus, StoreState};
use crate::utils::{copy_bytes, id_eq, id_of, random_bytes, ID_LEN};

verus! {

#[derive(Debug, Clone)]
pub enum RpcMessage {
    Ping { sender_id: [u8; ID_LEN] },
    Pong { sender_id: [u8; ID_LEN] },
    Store { sender_id: [u8; ID_LEN], key: [u8; ID_LEN], value: Vec<u8> },
    StoreResult { ok: bool },
    Update {
        sender_id: [u8; ID_LEN],
        key: [u8; ID_LEN],
        value: Vec<u8>,
        auth_signature: Vec<u8>,
    },
    UpdateResult { ok: bool },
    UpdateStatusList { sender_id: [u8; ID_LEN], key: [u8; ID_LEN], value: Vec<u8> },
    UpdateStatusListResult { ok: bool },
    Delete {
        sender_id: [u8; ID_LEN],
        key: [u8; ID_LEN],
        auth_signature: Vec<u8>,
        delete_msg: Vec<u8>,
    },
    DeleteResult { ok: bool },
    FindNode { sender_id: [u8; ID_LEN], key: [u8; ID_LEN] },
    FindNodeResult { nodes: Vec<WireNode> },
    FindValue { sender_id: [u8; ID_LEN], key: [u8; ID_LEN] },
    FindValueNodes { nodes: Vec<WireNode> },
    FindValueHit { value: Vec<u8> },
    Leave { sender_id: [u8; ID_LEN] },
}

/// A node as it is sent.
#[derive(Debug)]
pub struct WireNode {
    pub id: [u8; ID_LEN],
    pub ip: Option<String>,
    pub port: Option<u16>,
}

impl Clone for WireNode {
    fn clone(&self) -> (copy: Self)
        ensures
            copy == *self,
    {
        let ip = match &self.ip {
            Some(ip) => Some(ip.clone()),
            None => None,
        };
        WireNode { id: self.id, ip, port: self.port }
    }
}

/// `node` as it is sent.
pub open spec fn wire_node(node: Node) -> WireNode {
    WireNode { id: node.id, ip: node.ip, port: node.port }
}

impl vstd::std_specs::convert::FromSpecImpl<&Node> for WireNode {
    open spec fn obeys_from_spec() -> bool {
        true
    }

    open spec fn from_spec(n: &Node) -> WireNode {
        wire_node(*n)
    }
}

impl From<&Node> for WireNode {
    fn from(n: &Node) -> (wire: Self) {
        let copy = n.clone();
        WireNode { id: copy.id, ip: copy.ip, port: copy.port }
    }
}

impl vstd::std_specs::convert::FromSpecImpl<WireNode> for Node {
    open spec fn obeys_from_spec() -> bool {
        true
    }

    open spec fn from_spec(w: WireNode) -> Node {
        node::node_of(w.id, w.ip, w.port)
    }
}

impl From<WireNode> for Node {
    fn from(w: WireNode) -> (node: Self) {
        Node::new(w.id, w.ip, w.port)
    }
}

/// A message with its correlation id.
#[derive(Debug)]
pub struct Frame {
    pub msg_id: u32,
    pub is_request: bool,
    pub message: RpcMessage,
}

/// The kind of response that a request waits for.
#[derive(Debug, Clone, Copy, Eq, PartialEq, Structural)]
pub enum ExpectedResponse {
    Pong,
    StoreResult,
    UpdateResult,
    UpdateStatusListResult,
    DeleteResult,
    FindNodeResult,
    FindValueResult,
    NoResponse,
}

/// The kind of response that `message` waits for.
pub open spec fn response_kind(message: RpcMessage) -> ExpectedResponse {
    match message {
        RpcMessage::Ping { .. } => ExpectedResponse::Pong,
        RpcMessage::Store { .. } => ExpectedResponse::StoreResult,
        RpcMessage::Update { .. } => ExpectedResponse::UpdateResult,
        RpcMessage::UpdateStatusList { .. } => ExpectedResponse::UpdateStatusListResult,
        RpcMessage::Delete { .. } => ExpectedResponse::DeleteResult,
        RpcMessage::FindNode { .. } => ExpectedResponse::FindNodeResult,
        RpcMessage::FindValue { .. } => ExpectedResponse::FindValueResult,
        _ => ExpectedResponse::NoResponse,
    }
}

/// `message` is a response of the kind `expected`.
pub open spec fn is_response(expected: ExpectedResponse, message: RpcMessage) -> bool {
    match message {
        RpcMessage::Pong { .. } => expected is Pong,
        RpcMessage::StoreResult { .. } => expected is StoreResult,
        RpcMessage::UpdateResult { .. } => expected is UpdateResult,
        RpcMessage::UpdateStatusListResult { .. } => expected is UpdateStatusListResult,
        RpcMessage::DeleteResult { .. } => expected is DeleteResult,
        RpcMessage::FindNodeResult { .. } => expected is FindNodeResult,
        RpcMessage::FindValueHit { .. } => expected is FindValueResult,
        RpcMessage::FindValueNodes { .. } => expected is FindValueResult,
        _ => false,
    }
}

impl ExpectedResponse {
    pub fn for_request(message: &RpcMessage) -> (expected: Self)
        ensures
            expected == response_kind(*message),
    {
        match message {
            RpcMessage::Ping { .. } => ExpectedResponse::Pong,
            RpcMessage::Store { .. } => ExpectedResponse::StoreResult,
            RpcMessage::Update { .. } => ExpectedResponse::UpdateResult,
            RpcMessage::UpdateStatusList { .. } => ExpectedResponse::UpdateStatusListResult,
            RpcMessage::Delete { .. } => ExpectedResponse::DeleteResult,
            RpcMessage::FindNode { .. } => ExpectedResponse::FindNodeResult,
            RpcMessage::FindValue { .. } => ExpectedResponse::FindValueResult,
            _ => ExpectedResponse::NoResponse,
        }
    }

    pub fn accepts(self, message: &RpcMessage) -> (accepted: bool)
        ensures
            accepted <==> is_response(self, *message),
    {
        match self {
            ExpectedResponse::Pong => matches!(message, RpcMessage::Pong { .. }),
            ExpectedResponse::StoreResult => matches!(message, RpcMessage::StoreResult { .. }),
            ExpectedResponse::UpdateResult => matches!(message, RpcMessage::UpdateResult { .. }),
            ExpectedResponse::UpdateStatusListResult => matches!(
                message,
                RpcMessage::UpdateStatusListResult { .. }
            ),
            ExpectedResponse::DeleteResult => matches!(message, RpcMessage::DeleteResult { .. }),
            ExpectedResponse::FindNodeResult => matches!(
                message,
                RpcMessage::FindNodeResult { .. }
            ),
            ExpectedResponse::FindValueResult => matches!(
                message,
                RpcMessage::FindValueHit { .. } | RpcMessage::FindValueNodes { .. }
            ),
            ExpectedResponse::NoResponse => false,
        }
    }

    pub fn name(self) -> (name: &'static str)
        ensures
            name@ == match self {
                ExpectedResponse::Pong => "Pong"@,
                ExpectedResponse::StoreResult => "StoreResult"@,
                ExpectedResponse::UpdateResult => "UpdateResult"@,
                ExpectedResponse::UpdateStatusListResult => "UpdateStatusListResult"@,
                ExpectedResponse::DeleteResult => "DeleteResult"@,
                ExpectedResponse::FindNodeResult => "FindNodeResult"@,
                ExpectedResponse::FindValueResult => "FindValueHit|FindValueNodes"@,
                ExpectedResponse::NoResponse => "no response"@,
            },
    {
        match self {
            ExpectedResponse::Pong => "Pong",
            ExpectedResponse::StoreResult => "StoreResult",
            ExpectedResponse::UpdateResult => "UpdateResult",
            ExpectedResponse::UpdateStatusListResult => "UpdateStatusListResult",
            ExpectedResponse::DeleteResult => "DeleteResult",
            ExpectedResponse::FindNodeResult => "FindNodeResult",
            ExpectedResponse::FindValueResult => "FindValueHit|FindValueNodes",
            ExpectedResponse::NoResponse => "no response",
        }
    }
}

/// The name of the kind of a message.
pub open spec fn message_name(message: RpcMessage) -> Seq<char> {
    match message {
        RpcMessage::Ping { .. } => "Ping"@,
        RpcMessage::Pong { .. } => "Pong"@,
        RpcMessage::Store { .. } => "Store"@,
        RpcMessage::StoreResult { .. } => "StoreResult"@,
        RpcMessage::Update { .. } => "Update"@,
        RpcMessage::UpdateResult { .. } => "UpdateResult"@,
        RpcMessage::UpdateStatusList { .. } => "UpdateStatusList"@,
        RpcMessage::UpdateStatusListResult { .. } => "UpdateStatusListResult"@,
        RpcMessage::Delete { .. } => "Delete"@,
        RpcMessage::DeleteResult { .. } => "DeleteResult"@,
        RpcMessage::FindNode { .. } => "FindNode"@,
        RpcMessage::FindNodeResult { .. } => "FindNodeResult"@,
        RpcMessage::FindValue { .. } => "FindValue"@,
        RpcMessage::FindValueHit { .. } => "FindValueHit"@,
        RpcMessage::FindValueNodes { .. } => "FindValueNodes"@,
        RpcMessage::Leave { .. } => "Leave"@,
    }
}

pub fn rpc_message_name(message: &RpcMessage) -> (name: &'static str)
    ensures
        name@ == message_name(*message),
{
    match message {
        RpcMessage::Ping { .. } => "Ping",
        RpcMessage::Pong { .. } => "Pong",
        RpcMessage::Store { .. } => "Store",
        RpcMessage::StoreResult { .. } => "StoreResult",
        RpcMessage::Update { .. } => "Update",
        RpcMessage::UpdateResult { .. } => "UpdateResult",
        RpcMessage::UpdateStatusList { .. } => "UpdateStatusList",
        RpcMessage::UpdateStatusListResult { .. } => "UpdateStatusListResult",
        RpcMessage::Delete { .. } => "Delete",
        RpcMessage::DeleteResult { .. } => "DeleteResult",
        RpcMessage::FindNode { .. } => "FindNode",
        RpcMessage::FindNodeResult { .. } => "FindNodeResult",
        RpcMessage::FindValue { .. } => "FindValue",
        RpcMessage::FindValueHit { .. } => "FindValueHit",
        RpcMessage::FindValueNodes { .. } => "FindValueNodes",
        RpcMessage::Leave { .. } => "Leave",
    }
}

/// What a peer says of a record it was asked to store.
#[derive(Debug, Clone, Copy, PartialEq, Eq, Structural)]
pub enum StoreStatus {
    Stored,
    AlreadyStored,
    Conflict,
    CapacityExceeded,
    InvalidRecord,
}

/// What a write to the store is reported as.
pub open spec fn status_of(status: StorageWriteStatus) -> StoreStatus {
    match status {
        StorageWriteStatus::Stored => StoreStatus::Stored,
        StorageWriteStatus::AlreadyStored => StoreStatus::AlreadyStored,
        StorageWriteStatus::Conflict => StoreStatus::Conflict,
        StorageWriteStatus::CapacityExceeded => StoreStatus::CapacityExceeded,
    }
}

impl vstd::std_specs::convert::FromSpecImpl<StorageWriteStatus> for StoreStatus {
    open spec fn obeys_from_spec() -> bool {
        true
    }

    open spec fn from_spec(status: StorageWriteStatus) -> StoreStatus {
        status_of(status)
    }
}

impl From<StorageWriteStatus> for StoreStatus {
    fn from(status: StorageWriteStatus) -> (wire: Self) {
        match status {
            StorageWriteStatus::Stored => StoreStatus::Stored,
            StorageWriteStatus::AlreadyStored => StoreStatus::AlreadyStored,
            StorageWriteStatus::Conflict => StoreStatus::Conflict,
            StorageWriteStatus::CapacityExceeded => StoreStatus::CapacityExceeded,
        }
    }
}

/// A record with this status is held by the peer that reports it.
pub open spec fn is_granted(status: StoreStatus) -> bool {
    status is Stored || status is AlreadyStored
}

/// The status of a request to store `value` under `key` at `now`. `verified` tells
/// whether the record passed verification.
pub open spec fn store_status(
    store: StoreState,
    key: Seq<u8>,
    value: Seq<u8>,
    verified: bool,
    now: u128,
) -> StoreStatus {
    if verified {
        status_of(store.after_insert_if_absent(key, value, now).1)
    } else {
        StoreStatus::InvalidRecord
    }
}

/// The bytes that carry a status behind a frame. A peer that reads the frame alone
/// skips them.
pub open spec fn status_trailer(status: Option<StoreStatus>) -> Seq<u8> {
    match status {
        Some(StoreStatus::Stored) => seq![0u8],
        Some(StoreStatus::AlreadyStored) => seq![1u8],
        Some(StoreStatus::Conflict) => seq![2u8],
        Some(StoreStatus::CapacityExceeded) => seq![3u8],
        Some(StoreStatus::InvalidRecord) => seq![4u8],
        None => seq![],
    }
}

/// The status that the bytes behind a frame carry.
pub open spec fn status_in(trailer: Seq<u8>) -> Option<StoreStatus> {
    if trailer.len() != 1 {
        None
    } else {
        match trailer[0] {
            0u8 => Some(StoreStatus::Stored),
            1u8 => Some(StoreStatus::AlreadyStored),
            2u8 => Some(StoreStatus::Conflict),
            3u8 => Some(StoreStatus::CapacityExceeded),
            4u8 => Some(StoreStatus::InvalidRecord),
            _ => None,
        }
    }
}

impl StoreStatus {
    /// Whether the peer holds the record.
    pub fn granted(self) -> (granted: bool)
        ensures
            granted == is_granted(self),
    {
        match self {
            StoreStatus::Stored | StoreStatus::AlreadyStored => true,
            _ => false,
        }
    }
}

/// Puts a status behind the frame in `bytes`.
pub fn append_status(bytes: &mut Vec<u8>, status: Option<StoreStatus>)
    ensures
        final(bytes)@ == old(bytes)@ + status_trailer(status),
{
    match status {
        Some(StoreStatus::Stored) => bytes.push(0),
        Some(StoreStatus::AlreadyStored) => bytes.push(1),
        Some(StoreStatus::Conflict) => bytes.push(2),
        Some(StoreStatus::CapacityExceeded) => bytes.push(3),
        Some(StoreStatus::InvalidRecord) => bytes.push(4),
        None => {},
    }
}

/// Reads the status behind a frame. Bytes that carry none are skipped.
pub fn read_status(trailer: &[u8]) -> (status: Option<StoreStatus>)
    ensures
        status == status_in(trailer@),
{
    if trailer.len() != 1 {
        return None;
    }
    match trailer[0] {
        0 => Some(StoreStatus::Stored),
        1 => Some(StoreStatus::AlreadyStored),
        2 => Some(StoreStatus::Conflict),
        3 => Some(StoreStatus::CapacityExceeded),
        4 => Some(StoreStatus::InvalidRecord),
        _ => None,
    }
}

/// A status that was put behind a frame is read back.
pub proof fn law_status_reads_back(status: Option<StoreStatus>)
    ensures
        status_in(status_trailer(status)) == status,
{
}

/// The outcome of a value lookup at this node.
#[derive(Debug)]
pub enum FindValueResult {
    Nodes(Vec<Node>),
    Value(Vec<u8>),
}

/// The root of trust that a record is verified against.
#[derive(Debug, Clone, Copy, PartialEq, Eq, Structural)]
pub enum VerificationDomain {
    SelfSigned,
    IssuerSigned,
}

/// No message answers two kinds of requests.
pub proof fn law_response_fits_one_kind(
    a: ExpectedResponse,
    b: ExpectedResponse,
    message: RpcMessage,
)
    requires
        is_response(a, message),
        is_response(b, message),
    ensures
        a == b,
{
}

/// No request passes for a response, and no response waits for one.
pub proof fn law_requests_are_no_responses(expected: ExpectedResponse, message: RpcMessage)
    requires
        is_response(expected, message),
    ensures
        response_kind(message) is NoResponse,
        expected !is NoResponse,
{
}

/// Every request but a departure waits for the response that is named after it, and such a
/// response is taken whatever it says.
pub proof fn law_requests_wait_for_their_own_response(
    id: [u8; ID_LEN],
    key: [u8; ID_LEN],
    value: Vec<u8>,
    other: Vec<u8>,
    nodes: Vec<WireNode>,
    ok: bool,
)
    ensures
        is_response(response_kind(RpcMessage::Ping { sender_id: id }), RpcMessage::Pong {
            sender_id: key,
        }),
        is_response(
            response_kind(RpcMessage::Store { sender_id: id, key, value }),
            RpcMessage::StoreResult { ok },
        ),
        is_response(
            response_kind(
                RpcMessage::Update { sender_id: id, key, value, auth_signature: other },
            ),
            RpcMessage::UpdateResult { ok },
        ),
        is_response(
            response_kind(RpcMessage::UpdateStatusList { sender_id: id, key, value }),
            RpcMessage::UpdateStatusListResult { ok },
        ),
        is_response(
            response_kind(
                RpcMessage::Delete { sender_id: id, key, auth_signature: value, delete_msg: other },
            ),
            RpcMessage::DeleteResult { ok },
        ),
        is_response(
            response_kind(RpcMessage::FindNode { sender_id: id, key }),
            RpcMessage::FindNodeResult { nodes },
        ),
        is_response(
            response_kind(RpcMessage::FindValue { sender_id: id, key }),
            RpcMessage::FindValueNodes { nodes },
        ),
        is_response(
            response_kind(RpcMessage::FindValue { sender_id: id, key }),
            RpcMessage::FindValueHit { value },
        ),
        forall|message: RpcMessage|
            !#[trigger] is_response(response_kind(RpcMessage::Leave { sender_id: id }), message),
{
}

/// A peer with this many invalid records to its name is dropped.
pub const INVALID_SIG_BAN_THRESHOLD: u32 = 3;

/// Most records replicated to a new peer at a time.
pub const REPLICATION_CONCURRENCY: usize = 4;

/// Time to wait for the response to a request, in nanoseconds.
pub const RPC_TIMEOUT: u128 = 5_000_000_000;

/// What is to be done about a peer in the routing table.
#[derive(Debug)]
pub enum PeerAction {
    Nothing,
    /// Hand the peer to [`KademliaProtocol::schedule_welcome_if_new`].
    Introduce(Node),
    /// Remove the peer.
    Remove(Node),
}

/// The sender of a request.
pub open spec fn sender(id: [u8; ID_LEN], addr: (String, u16)) -> Node {
    node::node_of(id, Some(addr.0), Some(addr.1))
}

/// A request that was sent: who is to answer it, and with what.
pub type Expectation = (Endpoint, ExpectedResponse);

/// The state of the protocol as a mathematical value.
#[verifier::ext_equal]
pub struct ProtocolState {
    /// This node.
    pub source: Node,
    /// The id of the status-list record.
    pub status_key: Seq<u8>,
    /// Invalid records per peer.
    pub strikes: Map<Seq<u8>, u32>,
    /// Peers whose discovery is being worked on.
    pub welcoming: Set<Seq<u8>>,
    /// Requests that wait for a response.
    pub pending: Map<u32, Expectation>,
    pub next_msg_id: u32,
    pub next_frag_id: u32,
    /// Messages of which only some fragments have arrived.
    pub buffer: BufferState,
}

/// The id after `id`; ids start over after the largest.
pub open spec fn next_of(id: u32) -> u32 {
    if id == u32::MAX {
        0
    } else {
        (id + 1) as u32
    }
}

/// What became of a frame.
#[derive(Debug)]
pub enum FrameStep {
    /// The response that a request waited for. It goes to whoever sent the request.
    Response { message: RpcMessage, action: PeerAction },
    /// A request, to be answered under `msg_id`.
    Request { msg_id: u32, message: RpcMessage },
    /// A response of another kind than the request waits for. It still waits.
    UnexpectedKind { expected: ExpectedResponse },
    /// A response from someone else than was asked. The request still waits.
    UnexpectedPeer { expected_peer: Endpoint },
    /// A response to nothing.
    NotPending,
}

/// The node that answered with `message` from `addr`, if the answer shows its id.
pub open spec fn introduced_by(message: RpcMessage, addr: (String, u16)) -> PeerAction {
    match message {
        RpcMessage::Pong { sender_id } => PeerAction::Introduce(sender(sender_id, addr)),
        _ => PeerAction::Nothing,
    }
}

impl ProtocolState {
    /// What becomes of `frame` from `peer`, at the address `addr`.
    pub open spec fn frame_step(self, frame: Frame, peer: Endpoint, addr: (String, u16)) -> FrameStep {
        if frame.is_request {
            FrameStep::Request { msg_id: frame.msg_id, message: frame.message }
        } else if !self.pending.contains_key(frame.msg_id) {
            FrameStep::NotPending
        } else {
            let (expected_peer, expected) = self.pending[frame.msg_id];
            if expected_peer != peer {
                FrameStep::UnexpectedPeer { expected_peer }
            } else if !is_response(expected, frame.message) {
                FrameStep::UnexpectedKind { expected }
            } else {
                FrameStep::Response {
                    message: frame.message,
                    action: introduced_by(frame.message, addr),
                }
            }
        }
    }

    /// The state after `frame` from `peer`: a request that got its response waits no
    /// more.
    pub open spec fn after_frame(self, frame: Frame, peer: Endpoint, addr: (String, u16)) -> ProtocolState {
        if self.frame_step(frame, peer, addr) is Response {
            ProtocolState { pending: self.pending.remove(frame.msg_id), ..self }
        } else {
            self
        }
    }
}

impl ProtocolState {
    /// The state after a request to `peer` was registered, and the frame to send.
    pub open spec fn after_call(self, peer: Endpoint, message: RpcMessage) -> (
        ProtocolState,
        Frame,
    ) {
        (
            ProtocolState {
                next_msg_id: next_of(self.next_msg_id),
                pending: self.pending.insert(self.next_msg_id, (peer, response_kind(message))),
                ..self
            },
            Frame { msg_id: self.next_msg_id, is_request: true, message },
        )
    }

    /// The state after a request was given up on.
    pub open spec fn after_abandon(self, msg_id: u32) -> ProtocolState {
        ProtocolState { pending: self.pending.remove(msg_id), ..self }
    }

    /// The state after a serialized frame of `len` bytes was cut into datagrams, and the
    /// fragment id of these, or `None` if it is too large to be sent.
    pub open spec fn after_send(self, len: nat) -> (ProtocolState, Option<u32>) {
        if len <= MAX_MESSAGE_SIZE {
            (
                ProtocolState { next_frag_id: next_of(self.next_frag_id), ..self },
                Some(self.next_frag_id),
            )
        } else {
            (self, None)
        }
    }

    /// The state after the work on the peer `id` is done.
    pub open spec fn after_welcome(self, id: Seq<u8>) -> ProtocolState {
        ProtocolState { welcoming: self.welcoming.remove(id), ..self }
    }

    /// How the verification of a record under `key` goes on.
    pub open spec fn verify_step(self, key: Seq<u8>, cached: Option<bool>) -> VerifyStep {
        match cached {
            Some(outcome) => VerifyStep::Known(outcome),
            None => VerifyStep::Verify(self.domain_of(key)),
        }
    }

    /// The state after the peer `id` was discovered, and whether work on it starts.
    /// `is_new` is what the routing table says of it.
    pub open spec fn after_discovery(self, id: Seq<u8>, is_new: bool) -> (ProtocolState, bool) {
        if is_new && !self.welcoming.contains(id) && self.welcoming.len()
            < peers::WELCOME_CONCURRENCY {
            (ProtocolState { welcoming: self.welcoming.insert(id), ..self }, true)
        } else {
            (self, false)
        }
    }
}

/// The protocol layer of a node.
pub struct KademliaProtocol {
    pub source_node: Node,
    status_key: [u8; ID_LEN],
    invalid_sig_strikes: StrikeCounter,
    welcome_in_flight: WelcomeQueue,
    pending: HashMap<u32, Expectation>,
    next_msg_id: u32,
    next_frag_id: u32,
    reassembly: ReassemblyBuffer,
}

impl View for KademliaProtocol {
    type V = ProtocolState;

    closed spec fn view(&self) -> ProtocolState {
        ProtocolState {
            source: self.source_node,
            status_key: self.status_key@,
            strikes: self.invalid_sig_strikes@,
            welcoming: self.welcome_in_flight@,
            pending: self.pending@,
            next_msg_id: self.next_msg_id,
            next_frag_id: self.next_frag_id,
            buffer: self.reassembly@,
        }
    }
}

impl KademliaProtocol {
    /// The parts of the state are valid.
    pub closed spec fn wf(&self) -> bool {
        &&& self.source_node.wf()
        &&& self.welcome_in_flight.wf()
        &&& self.reassembly.wf()
    }

    /// The protocol layer of `source_node`. The status list is the record with the
    /// id `status_key`.
    pub fn new(source_node: Node, status_key: [u8; ID_LEN], now: u128) -> (protocol: Self)
        requires
            source_node.wf(),
        ensures
            protocol.wf(),
            protocol@ == (ProtocolState {
                source: source_node,
                status_key: status_key@,
                strikes: Map::empty(),
                welcoming: Set::empty(),
                pending: Map::empty(),
                next_msg_id: 0,
                next_frag_id: 0,
                buffer: BufferState { slots: Map::empty(), last_gc: now },
            }),
    {
        KademliaProtocol {
            source_node,
            status_key,
            invalid_sig_strikes: StrikeCounter::new(),
            welcome_in_flight: WelcomeQueue::new(),
            pending: HashMap::new(),
            next_msg_id: 0,
            next_frag_id: 0,
            reassembly: ReassemblyBuffer::new(now),
        }
    }

    /// Takes the next message id.
    fn next_id(&mut self) -> (id: u32)
        requires
            old(self).wf(),
        ensures
            final(self).wf(),
            id == old(self)@.next_msg_id,
            final(self)@ == (ProtocolState {
                next_msg_id: next_of(old(self)@.next_msg_id),
                ..old(self)@
            }),
    {
        let id: u32 = self.next_msg_id;
        self.next_msg_id = id.wrapping_add(1);
        id
    }

    /// Takes the next fragment id.
    fn next_frag_id_val(&mut self) -> (id: u32)
        requires
            old(self).wf(),
        ensures
            final(self).wf(),
            id == old(self)@.next_frag_id,
            final(self)@ == (ProtocolState {
                next_frag_id: next_of(old(self)@.next_frag_id),
                ..old(self)@
            }),
    {
        let id: u32 = self.next_frag_id;
        self.next_frag_id = id.wrapping_add(1);
        id
    }

    /// Drops incomplete messages that are too old, at a bounded cadence.
    pub fn gc_reassembly(&mut self, now: u128)
        requires
            old(self).wf(),
        ensures
            final(self).wf(),
            final(self)@ == (ProtocolState {
                buffer: old(self)@.buffer.after_gc(now),
                ..old(self)@
            }),
    {
        self.reassembly.gc(now);
    }

    /// How many messages are incomplete.
    pub fn reassembly_len(&self) -> (len: usize)
        requires
            self.wf(),
        ensures
            len == self@.buffer.slots.dom().len(),
    {
        self.reassembly.len()
    }

    /// Decides whether to start on the discovery of `node`. `is_new` is what the
    /// routing table says of it.
    ///
    /// Duplicate discoveries coalesce by id, and capacity is deliberately bounded:
    /// a peer that finds no room is retried on a later request.
    pub fn schedule_welcome_if_new(&mut self, node: &Node, is_new: bool) -> (start: bool)
        requires
            old(self).wf(),
        ensures
            final(self).wf(),
            (final(self)@, start) == old(self)@.after_discovery(node.id@, is_new),
    {
        is_new && self.welcome_in_flight.start(node.id)
    }

    /// The discovery of the peer `id` is done, if one was under way.
    pub fn finish_welcome(&mut self, id: &[u8; ID_LEN])
        requires
            old(self).wf(),
        ensures
            final(self).wf(),
            final(self)@ == old(self)@.after_welcome(id@),
    {
        self.welcome_in_flight.finish(id)
    }

    /// The datagrams that carry a serialized frame, or `None` if it is too large to
    /// be sent.
    pub fn send_frame(&mut self, bytes: &[u8]) -> (datagrams: Option<Vec<Vec<u8>>>)
        requires
            old(self).wf(),
        ensures
            final(self).wf(),
            final(self)@ == old(self)@.after_send(bytes@.len()).0,
            match old(self)@.after_send(bytes@.len()).1 {
                Some(frag_id) => {
                    &&& datagrams matches Some(datagrams)
                    &&& datagrams@.len() == fragmentation::fragment_count(bytes@.len())
                    &&& forall|i: int|
                        0 <= i < datagrams@.len() ==> (#[trigger] datagrams@[i])@
                            == fragmentation::fragment_datagram(frag_id, bytes@, i)
                },
                None => datagrams is None,
            },
    {
        if bytes.len() > MAX_MESSAGE_SIZE {
            return None;
        }
        let frag_id: u32 = self.next_frag_id_val();
        Some(encode_fragments(frag_id, bytes))
    }

    /// Registers a request to `peer` and returns the frame to send.
    pub fn call(&mut self, peer: Endpoint, message: RpcMessage) -> (frame: Frame)
        requires
            old(self).wf(),
        ensures
            final(self).wf(),
            (final(self)@, frame) == old(self)@.after_call(peer, message),
    {
        broadcast use vstd::std_specs::hash::group_hash_axioms;

        let msg_id: u32 = self.next_id();
        let expected = ExpectedResponse::for_request(&message);
        self.pending.insert(msg_id, (peer, expected));
        Frame { msg_id, is_request: true, message }
    }

    /// Gives up on a request: it could not be sent, or no response came in time.
    pub fn abandon_call(&mut self, msg_id: u32)
        requires
            old(self).wf(),
        ensures
            final(self).wf(),
            final(self)@ == old(self)@.after_abandon(msg_id),
    {
        broadcast use vstd::std_specs::hash::group_hash_axioms;

        self.pending.remove(&msg_id);
    }

    /// Whether a request with this id waits for a response.
    pub fn is_pending(&self, msg_id: u32) -> (pending: bool)
        requires
            self.wf(),
        ensures
            pending <==> self@.pending.contains_key(msg_id),
    {
        broadcast use vstd::std_specs::hash::group_hash_axioms;

        self.pending.contains_key(&msg_id)
    }

    /// Takes in a datagram from `peer`. A serialized frame comes out once all of its
    /// fragments have arrived.
    pub fn handle_datagram(&mut self, data: &[u8], peer: Endpoint, now: u128) -> (outcome:
        DatagramOutcome)
        requires
            old(self).wf(),
        ensures
            final(self).wf(),
            ({
                let (buffer, became) = old(self)@.buffer.after_datagram(peer, data@, now);
                &&& outcome@ == became
                &&& final(self)@ == (ProtocolState { buffer, ..old(self)@ })
            }),
    {
        self.reassembly.accept(peer, data, now)
    }

    /// Takes in a frame from `peer`, whose address is `sender_addr`.
    ///
    /// A response counts only if it comes from the peer that was asked and is of the
    /// kind that was asked for.
    pub fn handle_frame(&mut self, frame: Frame, peer: Endpoint, sender_addr: (String, u16)) -> (step:
        FrameStep)
        requires
            old(self).wf(),
        ensures
            final(self).wf(),
            step == old(self)@.frame_step(frame, peer, sender_addr),
            final(self)@ == old(self)@.after_frame(frame, peer, sender_addr),
    {
        broadcast use vstd::std_specs::hash::group_hash_axioms;

        if frame.is_request {
            return FrameStep::Request { msg_id: frame.msg_id, message: frame.message };
        }
        let (expected_peer, expected): Expectation = match self.pending.get(&frame.msg_id) {
            Some(expectation) => *expectation,
            None => {
                return FrameStep::NotPending;
            },
        };
        if expected_peer != peer {
            return FrameStep::UnexpectedPeer { expected_peer };
        }
        if !expected.accepts(&frame.message) {
            return FrameStep::UnexpectedKind { expected };
        }
        self.pending.remove(&frame.msg_id);
        let action = match &frame.message {
            RpcMessage::Pong { sender_id } => PeerAction::Introduce(
                Node::new(*sender_id, Some(sender_addr.0), Some(sender_addr.1)),
            ),
            _ => PeerAction::Nothing,
        };
        FrameStep::Response { message: frame.message, action }
    }
}

/// What a peer's request leads to: the states of the protocol and of the store,
/// whether the request was granted, and what to do about the peer.
#[verifier::ext_equal]
pub struct Effect {
    pub protocol: ProtocolState,
    pub store: StoreState,
    pub ok: bool,
    pub action: PeerAction,
}

impl ProtocolState {
    /// A request that changes nothing.
    pub open spec fn refused(self, store: StoreState) -> Effect {
        Effect { protocol: self, store, ok: false, action: PeerAction::Nothing }
    }

    /// A request to store a new record. `verified` tells whether the record passed
    /// verification; a peer that sends too many that do not is dropped.
    pub open spec fn on_store(
        self,
        store: StoreState,
        from: Node,
        key: Seq<u8>,
        value: Seq<u8>,
        verified: bool,
        now: u128,
    ) -> Effect {
        let granted = is_granted(store_status(store, key, value, verified, now));
        if verified {
            Effect {
                protocol: self,
                store: store.after_insert_if_absent(key, value, now).0,
                ok: granted,
                action: if granted {
                    PeerAction::Introduce(from)
                } else {
                    PeerAction::Nothing
                },
            }
        } else {
            let strikes = (peers::strikes_against(self.strikes, from.id@) + 1) as u32;
            Effect {
                protocol: ProtocolState { strikes: self.strikes.insert(from.id@, strikes), ..self },
                store,
                ok: false,
                action: if strikes >= INVALID_SIG_BAN_THRESHOLD {
                    PeerAction::Remove(from)
                } else {
                    PeerAction::Introduce(from)
                },
            }
        }
    }

    /// A request to replace an existing record other than the status list.
    pub open spec fn on_update(
        self,
        store: StoreState,
        from: Node,
        key: Seq<u8>,
        value: Seq<u8>,
        verified: bool,
        now: u128,
    ) -> Effect {
        if key == self.status_key || !store.is_live(key, now) || !verified {
            self.refused(store)
        } else {
            Effect {
                protocol: self,
                store: store.after_set(key, value, now).0,
                ok: true,
                action: PeerAction::Introduce(from),
            }
        }
    }

    /// A request to replace the status list.
    pub open spec fn on_update_status_list(
        self,
        store: StoreState,
        from: Node,
        key: Seq<u8>,
        value: Seq<u8>,
        verified: bool,
        now: u128,
    ) -> Effect {
        if key != self.status_key || !store.is_live(key, now) || !verified {
            self.refused(store)
        } else {
            Effect {
                protocol: self,
                store: store.after_set(key, value, now).0,
                ok: true,
                action: PeerAction::Introduce(from),
            }
        }
    }

    /// A request to delete a record.
    pub open spec fn on_delete(
        self,
        store: StoreState,
        from: Node,
        key: Seq<u8>,
        verified: bool,
        now: u128,
    ) -> Effect {
        if !store.is_live(key, now) || !verified {
            self.refused(store)
        } else {
            Effect {
                protocol: self,
                store: store.after_delete(key),
                ok: true,
                action: PeerAction::Introduce(from),
            }
        }
    }

    /// The root of trust for the record `key`.
    pub open spec fn domain_of(self, key: Seq<u8>) -> VerificationDomain {
        if key == self.status_key {
            VerificationDomain::IssuerSigned
        } else {
            VerificationDomain::SelfSigned
        }
    }
}

/// Whether a departing peer is dropped: it must be registered, and the request must
/// come from its registered address.
pub open spec fn may_leave(registered: Option<Node>, from: Node) -> bool {
    registered is Some && node::same_home(registered->0, from)
}

/// How the verification of a record goes on.
#[derive(Debug)]
pub enum VerifyStep {
    /// The outcome is known.
    Known(bool),
    /// The record has to be verified against this root of trust, and the outcome
    /// remembered.
    Verify(VerificationDomain),
}

/// What has to be verified before a request is answered.
#[derive(Debug)]
pub enum Verification {
    /// Nothing.
    NotNeeded,
    /// The record that came with the request, as
    /// [`KademliaProtocol::verify_for_key`] says.
    Record,
    /// The record that came with the request, as an update of this one.
    Update(Vec<u8>),
    /// The record that came with the request, against the issuer.
    Issuer,
    /// The deletion of this record.
    Deletion(Vec<u8>),
}

/// What the routing table and the signature back end said about a request.
#[derive(Debug)]
pub struct Answers {
    /// What [`KademliaProtocol::verification_of`] asked for is valid.
    pub verified: bool,
    /// The nodes known closest to the requested key, the sender left out.
    pub neighbors: Vec<Node>,
    /// The contact registered under the sender's id.
    pub registered: Option<Node>,
}

/// `nodes` as they are sent.
pub open spec fn wire_nodes(nodes: Seq<Node>) -> Seq<WireNode> {
    nodes.map_values(|n: Node| wire_node(n))
}

/// What is sent of a list of nodes is the whole list, in order, with the id, the IP and the
/// port of each, so that reading it gives back the list.
pub proof fn law_all_nodes_are_sent(nodes: Seq<Node>)
    ensures
        wire_nodes(nodes).len() == nodes.len(),
        forall|i: int|
            0 <= i < nodes.len() ==> (#[trigger] wire_nodes(nodes)[i]).id == nodes[i].id
                && wire_nodes(nodes)[i].ip == nodes[i].ip && wire_nodes(nodes)[i].port
                == nodes[i].port,
        node::all_wf(nodes) ==> wire_nodes(nodes).map_values(
            |w: WireNode| node::node_of(w.id, w.ip, w.port),
        ) == nodes,
{
    if node::all_wf(nodes) {
        assert forall|i: int| 0 <= i < nodes.len() implies node::node_of(
            (#[trigger] nodes[i]).id,
            nodes[i].ip,
            nodes[i].port,
        ) == nodes[i] by {
            long_id::lemma_long_of(nodes[i].long_id);
        }
        assert(wire_nodes(nodes).map_values(|w: WireNode| node::node_of(w.id, w.ip, w.port))
            =~= nodes);
    }
}

fn to_wire(nodes: &Vec<Node>) -> (wire: Vec<WireNode>)
    ensures
        wire@ == wire_nodes(nodes@),
{
    let mut wire: Vec<WireNode> = Vec::new();
    let mut i: usize = 0;
    while i < nodes.len()
        invariant
            i <= nodes@.len(),
            wire@ == wire_nodes(nodes@.take(i as int)),
        decreases nodes@.len() - i,
    {
        wire.push(WireNode::from(&nodes[i]));
        i = i + 1;
        assert(wire@ =~= wire_nodes(nodes@.take(i as int)));
    }
    assert(nodes@.take(i as int) =~= nodes@);
    wire
}

impl KademliaProtocol {
    /// Answers a ping: with this node's id.
    pub fn rpc_ping(&self, sender_id: [u8; ID_LEN], sender_addr: (String, u16)) -> (answer: (
        [u8; ID_LEN],
        PeerAction,
    ))
        requires
            self.wf(),
        ensures
            answer.0 == self@.source.id,
            answer.1 == PeerAction::Introduce(sender(sender_id, sender_addr)),
    {
        let source = Node::new(sender_id, Some(sender_addr.0), Some(sender_addr.1));
        (self.source_node.id, PeerAction::Introduce(source))
    }

    /// Stores a record for a peer and says what became of it. `verified` is the outcome
    /// of [`KademliaProtocol::verify_for_key`] on it.
    pub fn rpc_store(
        &mut self,
        storage: &mut ForgetfulStorage,
        sender_id: [u8; ID_LEN],
        sender_addr: (String, u16),
        key: [u8; ID_LEN],
        value: Vec<u8>,
        verified: bool,
        now: u128,
    ) -> (answer: (StoreStatus, PeerAction))
        requires
            old(self).wf(),
            old(storage).wf(),
            verified || peers::strikes_against(old(self)@.strikes, sender_id@) < u32::MAX,
        ensures
            final(self).wf(),
            final(storage).wf(),
            answer.0 == store_status(old(storage)@, key@, value@, verified, now),
            (Effect {
                protocol: final(self)@,
                store: final(storage)@,
                ok: is_granted(answer.0),
                action: answer.1,
            }) == old(self)@.on_store(
                old(storage)@,
                sender(sender_id, sender_addr),
                key@,
                value@,
                verified,
                now,
            ),
    {
        let source = Node::new(sender_id, Some(sender_addr.0), Some(sender_addr.1));
        if !verified {
            let strikes: u32 = self.invalid_sig_strikes.record(sender_id);
            return if strikes >= INVALID_SIG_BAN_THRESHOLD {
                (StoreStatus::InvalidRecord, PeerAction::Remove(source))
            } else {
                (StoreStatus::InvalidRecord, PeerAction::Introduce(source))
            };
        }
        let status = StoreStatus::from(
            storage.insert_if_absent_at(vstd::slice::slice_to_vec(key.as_slice()), value, now),
        );
        if status.granted() {
            (status, PeerAction::Introduce(source))
        } else {
            (status, PeerAction::Nothing)
        }
    }

    /// Replaces a record for a peer. `verified` tells whether the owner of the
    /// present record authorised it.
    ///
    /// The status list is not updated this way.
    pub fn rpc_update(
        &mut self,
        storage: &mut ForgetfulStorage,
        sender_id: [u8; ID_LEN],
        sender_addr: (String, u16),
        key: [u8; ID_LEN],
        value: Vec<u8>,
        verified: bool,
        now: u128,
    ) -> (answer: (bool, PeerAction))
        requires
            old(self).wf(),
            old(storage).wf(),
        ensures
            final(self).wf(),
            final(storage).wf(),
            (Effect {
                protocol: final(self)@,
                store: final(storage)@,
                ok: answer.0,
                action: answer.1,
            }) == old(self)@.on_update(
                old(storage)@,
                sender(sender_id, sender_addr),
                key@,
                value@,
                verified,
                now,
            ),
    {
        if id_eq(&key, &self.status_key) {
            return (false, PeerAction::Nothing);
        }
        if storage.get_at(key.as_slice(), now).is_none() || !verified {
            return (false, PeerAction::Nothing);
        }
        let source = Node::new(sender_id, Some(sender_addr.0), Some(sender_addr.1));
        let _ = storage.set_at(vstd::slice::slice_to_vec(key.as_slice()), value, now);
        (true, PeerAction::Introduce(source))
    }

    /// Replaces the status list for a peer. `verified` tells whether the issuer
    /// signed it.
    pub fn rpc_update_status_list(
        &mut self,
        storage: &mut ForgetfulStorage,
        sender_id: [u8; ID_LEN],
        sender_addr: (String, u16),
        key: [u8; ID_LEN],
        value: Vec<u8>,
        verified: bool,
        now: u128,
    ) -> (answer: (bool, PeerAction))
        requires
            old(self).wf(),
            old(storage).wf(),
        ensures
            final(self).wf(),
            final(storage).wf(),
            (Effect {
                protocol: final(self)@,
                store: final(storage)@,
                ok: answer.0,
                action: answer.1,
            }) == old(self)@.on_update_status_list(
                old(storage)@,
                sender(sender_id, sender_addr),
                key@,
                value@,
                verified,
                now,
            ),
    {
        if !id_eq(&key, &self.status_key) {
            return (false, PeerAction::Nothing);
        }
        if storage.get_at(key.as_slice(), now).is_none() || !verified {
            return (false, PeerAction::Nothing);
        }
        let source = Node::new(sender_id, Some(sender_addr.0), Some(sender_addr.1));
        let _ = storage.set_at(vstd::slice::slice_to_vec(key.as_slice()), value, now);
        (true, PeerAction::Introduce(source))
    }

    /// Deletes a record for a peer. `verified` tells whether its owner authorised
    /// it.
    pub fn rpc_delete(
        &mut self,
        storage: &mut ForgetfulStorage,
        sender_id: [u8; ID_LEN],
        sender_addr: (String, u16),
        key: [u8; ID_LEN],
        verified: bool,
        now: u128,
    ) -> (answer: (bool, PeerAction))
        requires
            old(self).wf(),
            old(storage).wf(),
        ensures
            final(self).wf(),
            final(storage).wf(),
            (Effect {
                protocol: final(self)@,
                store: final(storage)@,
                ok: answer.0,
                action: answer.1,
            }) == old(self)@.on_delete(
                old(storage)@,
                sender(sender_id, sender_addr),
                key@,
                verified,
                now,
            ),
    {
        if storage.get_at(key.as_slice(), now).is_none() || !verified {
            return (false, PeerAction::Nothing);
        }
        let source = Node::new(sender_id, Some(sender_addr.0), Some(sender_addr.1));
        storage.delete(key.as_slice());
        (true, PeerAction::Introduce(source))
    }

    /// Answers a node lookup: with `neighbors`, the nodes known closest to the key,
    /// the sender left out.
    pub fn rpc_find_node(
        &self,
        sender_id: [u8; ID_LEN],
        sender_addr: (String, u16),
        neighbors: Vec<Node>,
    ) -> (answer: (Vec<Node>, PeerAction))
        ensures
            answer.0 == neighbors,
            answer.1 == PeerAction::Introduce(sender(sender_id, sender_addr)),
    {
        let source = Node::new(sender_id, Some(sender_addr.0), Some(sender_addr.1));
        (neighbors, PeerAction::Introduce(source))
    }

    /// Answers a value lookup: with the value, or else with `neighbors`, the nodes
    /// known closest to the key, the sender left out.
    pub fn rpc_find_value(
        &self,
        storage: &ForgetfulStorage,
        sender_id: [u8; ID_LEN],
        sender_addr: (String, u16),
        key: [u8; ID_LEN],
        neighbors: Vec<Node>,
        now: u128,
    ) -> (answer: (FindValueResult, PeerAction))
        ensures
            match storage@.value_at(key@, now) {
                Some(stored) => answer.0 matches FindValueResult::Value(value) && value@ == stored,
                None => answer.0 == FindValueResult::Nodes(neighbors),
            },
            answer.1 == PeerAction::Introduce(sender(sender_id, sender_addr)),
    {
        let source = Node::new(sender_id, Some(sender_addr.0), Some(sender_addr.1));
        let result = match storage.get_at(key.as_slice(), now) {
            Some(value) => FindValueResult::Value(value),
            None => FindValueResult::Nodes(neighbors),
        };
        (result, PeerAction::Introduce(source))
    }

    /// A peer leaves. `registered` is the contact known under its id.
    pub fn rpc_leave(
        &self,
        sender_id: [u8; ID_LEN],
        sender_addr: (String, u16),
        registered: Option<Node>,
    ) -> (action: PeerAction)
        ensures
            action == if may_leave(registered, sender(sender_id, sender_addr)) {
                PeerAction::Remove(registered->0)
            } else {
                PeerAction::Nothing
            },
    {
        let source = Node::new(sender_id, Some(sender_addr.0), Some(sender_addr.1));
        match registered {
            Some(contact) => {
                if contact.same_home_as(&source) {
                    PeerAction::Remove(contact)
                } else {
                    PeerAction::Nothing
                }
            },
            None => PeerAction::Nothing,
        }
    }

    /// How to verify a record under `key`. `cached` is what the cache of outcomes
    /// says of the record in the domain of the key, if there is a cache.
    pub fn verify_for_key(&self, key: &[u8; ID_LEN], cached: Option<bool>) -> (step: VerifyStep)
        ensures
            step == self@.verify_step(key@, cached),
    {
        match cached {
            Some(outcome) => VerifyStep::Known(outcome),
            None => VerifyStep::Verify(self.domain(key)),
        }
    }

    /// The root of trust for the record `key`.
    pub fn domain(&self, key: &[u8; ID_LEN]) -> (domain: VerificationDomain)
        ensures
            domain == self@.domain_of(key@),
    {
        if id_eq(key, &self.status_key) {
            VerificationDomain::IssuerSigned
        } else {
            VerificationDomain::SelfSigned
        }
    }
}

/// `verification` is what `message` needs verified, given the store at `now`.
pub open spec fn is_needed(
    protocol: ProtocolState,
    store: StoreState,
    message: RpcMessage,
    now: u128,
    verification: Verification,
) -> bool {
    match message {
        RpcMessage::Store { .. } => verification is Record,
        RpcMessage::Update { key, .. } => if key@ == protocol.status_key {
            verification is NotNeeded
        } else {
            match store.value_at(key@, now) {
                Some(present) => verification matches Verification::Update(old) && old@ == present,
                None => verification is NotNeeded,
            }
        },
        RpcMessage::UpdateStatusList { key, .. } => if key@ == protocol.status_key
            && store.is_live(key@, now) {
            verification is Issuer
        } else {
            verification is NotNeeded
        },
        RpcMessage::Delete { key, .. } => match store.value_at(key@, now) {
            Some(present) => verification matches Verification::Deletion(old) && old@ == present,
            None => verification is NotNeeded,
        },
        _ => verification is NotNeeded,
    }
}

/// The sender and the key of a lookup request.
pub open spec fn lookup_of(message: RpcMessage) -> Option<([u8; ID_LEN], [u8; ID_LEN])> {
    match message {
        RpcMessage::FindNode { sender_id, key } => Some((sender_id, key)),
        RpcMessage::FindValue { sender_id, key } => Some((sender_id, key)),
        _ => None,
    }
}

/// What answering a request leaves behind.
#[verifier::ext_equal]
pub struct Answered {
    pub protocol: ProtocolState,
    pub store: StoreState,
    pub reply: Option<RpcMessage>,
    pub action: PeerAction,
    /// What became of a record that was to be stored.
    pub status: Option<StoreStatus>,
}

impl Answered {
    /// The reply aside, this is what `effect` says.
    pub open spec fn follows(self, effect: Effect) -> bool {
        &&& self.protocol == effect.protocol
        &&& self.store == effect.store
        &&& self.action == effect.action
    }
}

/// `after` is what answering `message` from `addr` leaves behind.
pub open spec fn is_answer(
    protocol: ProtocolState,
    store: StoreState,
    message: RpcMessage,
    addr: (String, u16),
    answers: Answers,
    now: u128,
    after: Answered,
) -> bool {
    let same = after.protocol == protocol && after.store == store;
    &&& after.status == match message {
        RpcMessage::Store { key, value, .. } => Some(
            store_status(store, key@, value@, answers.verified, now),
        ),
        _ => None,
    }
    &&& match message {
        RpcMessage::Ping { sender_id } => {
            &&& after.reply == Some(RpcMessage::Pong { sender_id: protocol.source.id })
            &&& same
            &&& after.action == PeerAction::Introduce(sender(sender_id, addr))
        },
        RpcMessage::Store { sender_id, key, value } => {
            let effect = protocol.on_store(
                store,
                sender(sender_id, addr),
                key@,
                value@,
                answers.verified,
                now,
            );
            &&& after.reply == Some(RpcMessage::StoreResult { ok: effect.ok })
            &&& after.follows(effect)
        },
        RpcMessage::Update { sender_id, key, value, .. } => {
            let effect = protocol.on_update(
                store,
                sender(sender_id, addr),
                key@,
                value@,
                answers.verified,
                now,
            );
            &&& after.reply == Some(RpcMessage::UpdateResult { ok: effect.ok })
            &&& after.follows(effect)
        },
        RpcMessage::UpdateStatusList { sender_id, key, value } => {
            let effect = protocol.on_update_status_list(
                store,
                sender(sender_id, addr),
                key@,
                value@,
                answers.verified,
                now,
            );
            &&& after.reply == Some(RpcMessage::UpdateStatusListResult { ok: effect.ok })
            &&& after.follows(effect)
        },
        RpcMessage::Delete { sender_id, key, .. } => {
            let effect = protocol.on_delete(
                store,
                sender(sender_id, addr),
                key@,
                answers.verified,
                now,
            );
            &&& after.reply == Some(RpcMessage::DeleteResult { ok: effect.ok })
            &&& after.follows(effect)
        },
        RpcMessage::FindNode { sender_id, .. } => {
            &&& after.reply matches Some(RpcMessage::FindNodeResult { nodes })
            &&& nodes@ == wire_nodes(answers.neighbors@)
            &&& same
            &&& after.action == PeerAction::Introduce(sender(sender_id, addr))
        },
        RpcMessage::FindValue { sender_id, key } => {
            &&& match store.value_at(key@, now) {
                Some(stored) => after.reply matches Some(RpcMessage::FindValueHit { value }) && value@
                    == stored,
                None => after.reply matches Some(RpcMessage::FindValueNodes { nodes }) && nodes@
                    == wire_nodes(answers.neighbors@),
            }
            &&& same
            &&& after.action == PeerAction::Introduce(sender(sender_id, addr))
        },
        RpcMessage::Leave { sender_id } => {
            &&& after.reply is None
            &&& same
            &&& after.action == if may_leave(answers.registered, sender(sender_id, addr)) {
                PeerAction::Remove(answers.registered->0)
            } else {
                PeerAction::Nothing
            }
        },
        _ => after.reply is None && same && after.action is Nothing,
    }
}

impl KademliaProtocol {
    /// The strikes against a peer for invalid records.
    pub fn strikes(&self, id: &[u8; ID_LEN]) -> (count: u32)
        ensures
            count == peers::strikes_against(self@.strikes, id@),
    {
        self.invalid_sig_strikes.count(id)
    }

    /// What has to be verified before `message` is answered.
    pub fn verification_of(&self, storage: &ForgetfulStorage, message: &RpcMessage, now: u128) -> (
        verification: Verification)
        ensures
            is_needed(self@, storage@, *message, now, verification),
    {
        match message {
            RpcMessage::Store { .. } => Verification::Record,
            RpcMessage::Update { key, .. } => {
                if id_eq(key, &self.status_key) {
                    return Verification::NotNeeded;
                }
                match storage.get_at(key.as_slice(), now) {
                    Some(old) => Verification::Update(old),
                    None => Verification::NotNeeded,
                }
            },
            RpcMessage::UpdateStatusList { key, .. } => {
                if id_eq(key, &self.status_key) && storage.get_at(key.as_slice(), now).is_some() {
                    Verification::Issuer
                } else {
                    Verification::NotNeeded
                }
            },
            RpcMessage::Delete { key, .. } => match storage.get_at(key.as_slice(), now) {
                Some(old) => Verification::Deletion(old),
                None => Verification::NotNeeded,
            },
            _ => Verification::NotNeeded,
        }
    }

    /// The node whose neighbors `message` asks for, and the sender, who is to be left
    /// out of them.
    pub fn lookup_target(&self, message: &RpcMessage, sender_addr: (String, u16)) -> (target: Option<
        (Node, Node),
    >)
        ensures
            target == match lookup_of(*message) {
                Some((sender_id, key)) => Some(
                    (node::node_of(key, None, None), sender(sender_id, sender_addr)),
                ),
                None => None,
            },
    {
        match message {
            RpcMessage::FindNode { sender_id, key } | RpcMessage::FindValue { sender_id, key } => {
                let source = Node::new(*sender_id, Some(sender_addr.0), Some(sender_addr.1));
                Some((Node::from_id(*key), source))
            },
            _ => None,
        }
    }

    /// Answers a request. `answers` holds what others say about it.
    ///
    /// The reply, if there is one, is of the kind that the sender waits for. The status
    /// that comes with the reply to a store request goes behind its frame.
    pub fn dispatch_request(
        &mut self,
        storage: &mut ForgetfulStorage,
        message: RpcMessage,
        sender_addr: (String, u16),
        answers: Answers,
        now: u128,
    ) -> (answer: (Option<RpcMessage>, PeerAction, Option<StoreStatus>))
        requires
            old(self).wf(),
            old(storage).wf(),
            message matches RpcMessage::Store { sender_id, .. } ==> answers.verified
                || peers::strikes_against(old(self)@.strikes, sender_id@) < u32::MAX,
        ensures
            final(self).wf(),
            final(storage).wf(),
            is_answer(
                old(self)@,
                old(storage)@,
                message,
                sender_addr,
                answers,
                now,
                (Answered {
                    protocol: final(self)@,
                    store: final(storage)@,
                    reply: answer.0,
                    action: answer.1,
                    status: answer.2,
                }),
            ),
    {
        match message {
            RpcMessage::Ping { sender_id } => {
                let (id, action) = self.rpc_ping(sender_id, sender_addr);
                (Some(RpcMessage::Pong { sender_id: id }), action, None)
            },
            RpcMessage::Store { sender_id, key, value } => {
                let (status, action) = self.rpc_store(
                    storage,
                    sender_id,
                    sender_addr,
                    key,
                    value,
                    answers.verified,
                    now,
                );
                (Some(RpcMessage::StoreResult { ok: status.granted() }), action, Some(status))
            },
            RpcMessage::Update { sender_id, key, value, .. } => {
                let (ok, action) = self.rpc_update(
                    storage,
                    sender_id,
                    sender_addr,
                    key,
                    value,
                    answers.verified,
                    now,
                );
                (Some(RpcMessage::UpdateResult { ok }), action, None)
            },
            RpcMessage::UpdateStatusList { sender_id, key, value } => {
                let (ok, action) = self.rpc_update_status_list(
                    storage,
                    sender_id,
                    sender_addr,
                    key,
                    value,
                    answers.verified,
                    now,
                );
                (Some(RpcMessage::UpdateStatusListResult { ok }), action, None)
            },
            RpcMessage::Delete { sender_id, key, .. } => {
                let (ok, action) = self.rpc_delete(
                    storage,
                    sender_id,
                    sender_addr,
                    key,
                    answers.verified,
                    now,
                );
                (Some(RpcMessage::DeleteResult { ok }), action, None)
            },
            RpcMessage::FindNode { sender_id, .. } => {
                let (nodes, action) = self.rpc_find_node(sender_id, sender_addr, answers.neighbors);
                (Some(RpcMessage::FindNodeResult { nodes: to_wire(&nodes) }), action, None)
            },
            RpcMessage::FindValue { sender_id, key } => {
                let (result, action) = self.rpc_find_value(
                    storage,
                    sender_id,
                    sender_addr,
                    key,
                    answers.neighbors,
                    now,
                );
                let reply = match result {
                    FindValueResult::Value(value) => RpcMessage::FindValueHit { value },
                    FindValueResult::Nodes(nodes) => RpcMessage::FindValueNodes {
                        nodes: to_wire(&nodes),
                    },
                };
                (Some(reply), action, None)
            },
            RpcMessage::Leave { sender_id } => {
                (None, self.rpc_leave(sender_id, sender_addr, answers.registered), None)
            },
            _ => (None, PeerAction::Nothing, None),
        }
    }
}

/// A reply is of the kind that the sender of the request waits for, and only
/// requests that wait for one get one.
pub proof fn law_reply_fits_the_request(
    protocol: ProtocolState,
    store: StoreState,
    message: RpcMessage,
    addr: (String, u16),
    answers: Answers,
    now: u128,
    after: Answered,
)
    requires
        is_answer(protocol, store, message, addr, answers, now, after),
    ensures
        after.reply is None <==> response_kind(message) is NoResponse,
        after.reply matches Some(response) ==> is_response(response_kind(message), response),
{
}

/// A node lookup is answered with all the neighbors, in order; a value lookup with the live
/// value, and only without one with all the neighbors. Both introduce the sender and change
/// nothing.
pub proof fn law_lookups_are_answered_in_full(
    protocol: ProtocolState,
    store: StoreState,
    message: RpcMessage,
    addr: (String, u16),
    answers: Answers,
    now: u128,
    after: Answered,
)
    requires
        is_answer(protocol, store, message, addr, answers, now, after),
    ensures
        message is FindNode ==> (after.reply matches Some(RpcMessage::FindNodeResult { nodes })
            && nodes@.len() == answers.neighbors@.len() && forall|i: int|
            0 <= i < nodes@.len() ==> (#[trigger] nodes@[i]).id == answers.neighbors@[i].id
                && nodes@[i].ip == answers.neighbors@[i].ip && nodes@[i].port
                == answers.neighbors@[i].port),
        message matches RpcMessage::FindValue { key, .. } ==> if store.records.contains_key(key@)
            && !storage::expired(store.ttl, store.records[key@].1, now) {
            after.reply matches Some(RpcMessage::FindValueHit { value }) && value@
                == store.records[key@].0
        } else {
            after.reply matches Some(RpcMessage::FindValueNodes { nodes }) && nodes@.len()
                == answers.neighbors@.len() && forall|i: int|
                0 <= i < nodes@.len() ==> (#[trigger] nodes@[i]).id == answers.neighbors@[i].id
                    && nodes@[i].ip == answers.neighbors@[i].ip && nodes@[i].port
                    == answers.neighbors@[i].port
        },
        message is FindNode || message is FindValue ==> after.protocol == protocol && after.store
            == store && after.action is Introduce,
{
    law_all_nodes_are_sent(answers.neighbors@);
}

/// A ping is answered with this node's id and changes nothing.
pub proof fn law_ping_is_answered_with_the_own_id(
    protocol: ProtocolState,
    store: StoreState,
    message: RpcMessage,
    addr: (String, u16),
    answers: Answers,
    now: u128,
    after: Answered,
)
    requires
        message is Ping,
        is_answer(protocol, store, message, addr, answers, now, after),
    ensures
        after.reply matches Some(RpcMessage::Pong { sender_id }) && sender_id
            == protocol.source.id,
        after.protocol == protocol,
        after.store == store,
{
}

/// Whoever is introduced by a request is its sender, under the address that it came from.
pub proof fn law_requests_introduce_their_sender(
    protocol: ProtocolState,
    store: StoreState,
    message: RpcMessage,
    addr: (String, u16),
    answers: Answers,
    now: u128,
    after: Answered,
)
    requires
        is_answer(protocol, store, message, addr, answers, now, after),
    ensures
        after.action matches PeerAction::Introduce(node) ==> node.ip == Some(addr.0) && node.port
            == Some(addr.1) && match message {
            RpcMessage::Ping { sender_id } => node.id == sender_id,
            RpcMessage::Store { sender_id, .. } => node.id == sender_id,
            RpcMessage::Update { sender_id, .. } => node.id == sender_id,
            RpcMessage::UpdateStatusList { sender_id, .. } => node.id == sender_id,
            RpcMessage::Delete { sender_id, .. } => node.id == sender_id,
            RpcMessage::FindNode { sender_id, .. } => node.id == sender_id,
            RpcMessage::FindValue { sender_id, .. } => node.id == sender_id,
            _ => false,
        },
        message is Ping || message is FindNode || message is FindValue
            ==> after.action is Introduce,
{
}

/// A departing peer is removed exactly if it is registered under the address that the
/// message came from; then it is the registered contact that is removed. There is no
/// reply, and nothing else changes.
pub proof fn law_only_the_peer_itself_can_leave(
    protocol: ProtocolState,
    store: StoreState,
    sender_id: [u8; ID_LEN],
    addr: (String, u16),
    answers: Answers,
    now: u128,
    after: Answered,
)
    requires
        is_answer(protocol, store, RpcMessage::Leave { sender_id }, addr, answers, now, after),
    ensures
        ({
            let same_address = answers.registered matches Some(contact) && (
            contact.ip matches Some(ip) && ip@ == addr.0@) && contact.port == Some(addr.1);
            &&& same_address ==> after.action == PeerAction::Remove(answers.registered->0)
            &&& !same_address ==> after.action is Nothing
        }),
        after.reply is None,
        after.protocol == protocol,
        after.store == store,
{
}

/// Nothing is written that was not verified as it should: a request that needs no
/// verification writes nothing, a record to be stored is verified as such, and an update or
/// a deletion is held against the live record that it is about.
pub proof fn law_every_write_needs_its_verification(
    protocol: ProtocolState,
    store: StoreState,
    message: RpcMessage,
    addr: (String, u16),
    answers: Answers,
    now: u128,
    needed: Verification,
    after: Answered,
)
    requires
        is_needed(protocol, store, message, now, needed),
        is_answer(protocol, store, message, addr, answers, now, after),
    ensures
        needed is NotNeeded ==> after.store == store,
        after.store != store ==> answers.verified,
        match message {
            RpcMessage::Store { .. } => needed is Record,
            RpcMessage::Update { key, .. } => after.store != store ==> (
            needed matches Verification::Update(old) && store.records.contains_key(key@)
                && store.records[key@].0 == old@),
            RpcMessage::UpdateStatusList { key, .. } => after.store != store ==> needed is Issuer,
            RpcMessage::Delete { key, .. } => after.store != store ==> (
            needed matches Verification::Deletion(old) && store.records.contains_key(key@)
                && store.records[key@].0 == old@),
            _ => needed is NotNeeded,
        },
{
}

/// Only the record under the key of the request is ever touched, and only the request of a
/// record that could not be verified leaves a trace in the protocol.
pub proof fn law_requests_touch_their_own_record_only(
    protocol: ProtocolState,
    store: StoreState,
    message: RpcMessage,
    addr: (String, u16),
    answers: Answers,
    now: u128,
    after: Answered,
    other: Seq<u8>,
)
    requires
        is_answer(protocol, store, message, addr, answers, now, after),
        match message {
            RpcMessage::Store { key, .. } => other != key@,
            RpcMessage::Update { key, .. } => other != key@,
            RpcMessage::UpdateStatusList { key, .. } => other != key@,
            RpcMessage::Delete { key, .. } => other != key@,
            _ => true,
        },
    ensures
        after.store.records.contains_key(other) == store.records.contains_key(other),
        after.store.records[other] == store.records[other],
        after.store.ttl == store.ttl && after.store.budget == store.budget,
        message !is Store || answers.verified ==> after.protocol == protocol,
{
}

/// When a peer's request is granted: a store exactly if the record can be read here
/// afterwards; an update exactly if it is authorised and replaces a live record that is
/// not the status list; the status list likewise through its own request; a deletion
/// exactly if it is authorised and there is a live record. A refused update or deletion
/// changes nothing.
pub proof fn law_when_requests_are_granted(
    protocol: ProtocolState,
    store: StoreState,
    from: Node,
    key: Seq<u8>,
    value: Seq<u8>,
    verified: bool,
    now: u128,
)
    ensures
        ({
            let live = store.records.contains_key(key) && !storage::expired(
                store.ttl,
                store.records[key].1,
                now,
            );
            let stored = protocol.on_store(store, from, key, value, verified, now);
            let updated = protocol.on_update(store, from, key, value, verified, now);
            let list = protocol.on_update_status_list(store, from, key, value, verified, now);
            let deleted = protocol.on_delete(store, from, key, verified, now);
            &&& stored.ok <==> verified && stored.store.value_at(key, now) == Some(value)
            &&& !stored.ok ==> stored.store == store
            &&& verified && !stored.ok ==> stored.action is Nothing
            &&& updated.ok <==> verified && live && key != protocol.status_key
            &&& list.ok <==> verified && live && key == protocol.status_key
            &&& deleted.ok <==> verified && live
            &&& stored.ok ==> stored.action == PeerAction::Introduce(from)
            &&& updated.ok ==> updated.action == PeerAction::Introduce(from)
            &&& list.ok ==> list.action == PeerAction::Introduce(from)
            &&& deleted.ok ==> deleted.action == PeerAction::Introduce(from)
            &&& !updated.ok ==> updated.store == store && updated.action is Nothing
            &&& !list.ok ==> list.store == store && list.action is Nothing
            &&& !deleted.ok ==> deleted.store == store && deleted.action is Nothing
        }),
{
}

/// The answer to a request tells what was done. A store is granted exactly if the record can
/// be read here afterwards, an update or a deletion exactly if it is verified and finds the
/// live record it is about. What is granted is done, but for an update without room for it,
/// and introduces the sender; what is refused changes no record.
pub proof fn law_answers_tell_what_was_done(
    protocol: ProtocolState,
    store: StoreState,
    message: RpcMessage,
    addr: (String, u16),
    answers: Answers,
    now: u128,
    after: Answered,
)
    requires
        store.ok(),
        is_answer(protocol, store, message, addr, answers, now, after),
    ensures
        match message {
            RpcMessage::Store { sender_id, key, value } => {
                let ok = after.reply->0->StoreResult_ok;
                let held = after.store.value_at(key@, now) == Some(value@);
                let strikes = if protocol.strikes.contains_key(sender_id@) {
                    protocol.strikes[sender_id@] as int
                } else {
                    0
                };
                &&& after.reply matches Some(RpcMessage::StoreResult { .. })
                &&& ok <==> answers.verified && held
                &&& ok ==> after.action is Introduce
                &&& !ok ==> after.store == store
                &&& !ok && answers.verified ==> after.action is Nothing
                &&& answers.verified ==> after.protocol == protocol
                &&& !answers.verified && strikes < u32::MAX ==> {
                    &&& after.protocol.strikes == protocol.strikes.insert(
                        sender_id@,
                        (strikes + 1) as u32,
                    )
                    &&& after.action is Remove <==> strikes + 1 >= 3
                    &&& after.action is Introduce <==> strikes + 1 < 3
                }
            },
            RpcMessage::Update { key, value, .. } => {
                let live = store.records.contains_key(key@) && !storage::expired(
                    store.ttl,
                    store.records[key@].1,
                    now,
                );
                let ok = answers.verified && live && key@ != protocol.status_key;
                let with = store.records.insert(key@, (value@, now));
                &&& after.reply == Some(RpcMessage::UpdateResult { ok })
                &&& ok ==> after.action is Introduce
                &&& !ok ==> after.store == store && after.action is Nothing
                &&& ok && storage::total_bytes(with) <= store.budget ==> after.store.records == with
                &&& ok && storage::total_bytes(with) > store.budget ==> after.store == store
            },
            RpcMessage::UpdateStatusList { key, value, .. } => {
                let live = store.records.contains_key(key@) && !storage::expired(
                    store.ttl,
                    store.records[key@].1,
                    now,
                );
                let ok = answers.verified && live && key@ == protocol.status_key;
                let with = store.records.insert(key@, (value@, now));
                &&& after.reply == Some(RpcMessage::UpdateStatusListResult { ok })
                &&& ok ==> after.action is Introduce
                &&& !ok ==> after.store == store && after.action is Nothing
                &&& ok && storage::total_bytes(with) <= store.budget ==> after.store.records == with
                &&& ok && storage::total_bytes(with) > store.budget ==> after.store == store
            },
            RpcMessage::Delete { key, .. } => {
                let ok = answers.verified && store.records.contains_key(key@) && !storage::expired(
                    store.ttl,
                    store.records[key@].1,
                    now,
                );
                &&& after.reply == Some(RpcMessage::DeleteResult { ok })
                &&& ok ==> after.action is Introduce && after.store.records
                    == store.records.remove(key@)
                &&& !ok ==> after.store == store && after.action is Nothing
            },
            _ => after.store == store && after.protocol == protocol,
        },
{
    match message {
        RpcMessage::Update { key, value, .. } => {
            storage::law_write_is_refused_only_for_want_of_room(store, key@, value@, now);
            storage::law_refused_write_changes_nothing(store, key@, value@, now);
        },
        RpcMessage::UpdateStatusList { key, value, .. } => {
            storage::law_write_is_refused_only_for_want_of_room(store, key@, value@, now);
            storage::law_refused_write_changes_nothing(store, key@, value@, now);
        },
        _ => {},
    }
}

/// Strikes are counted per peer: each record that fails verification adds one against its
/// sender and against nobody else, and from the third on the sender is dropped. A record
/// that passes adds none.
pub proof fn law_strikes_are_counted_per_peer(
    protocol: ProtocolState,
    store: StoreState,
    from: Node,
    key: Seq<u8>,
    value: Seq<u8>,
    verified: bool,
    now: u128,
    other: Seq<u8>,
)
    requires
        protocol.strikes.contains_key(from.id@) ==> protocol.strikes[from.id@] < u32::MAX,
    ensures
        ({
            let before = if protocol.strikes.contains_key(from.id@) {
                protocol.strikes[from.id@] as int
            } else {
                0
            };
            let effect = protocol.on_store(store, from, key, value, verified, now);
            let after = effect.protocol.strikes;
            &&& verified ==> after == protocol.strikes
            &&& !verified ==> after.contains_key(from.id@) && after[from.id@] == before + 1
            &&& !verified && before + 1 >= 3 ==> effect.action == PeerAction::Remove(from)
            &&& !verified && before + 1 < 3 ==> effect.action == PeerAction::Introduce(from)
            &&& other != from.id@ ==> after.contains_key(other) == protocol.strikes.contains_key(
                other,
            ) && after[other] == protocol.strikes[other]
            &&& effect.protocol == (ProtocolState { strikes: after, ..protocol })
        }),
{
}

/// The status list, and nothing else, is verified against the issuer.
pub proof fn law_issuer_signs_the_status_list_only(protocol: ProtocolState, key: Seq<u8>)
    ensures
        protocol.domain_of(key) is IssuerSigned <==> key == protocol.status_key,
        protocol.domain_of(key) is SelfSigned <==> key != protocol.status_key,
{
}

/// A record of a peer counts as valid or not as the cache says, and is verified where the
/// cache says nothing: the status list against the issuer, any other record against itself.
pub proof fn law_unknown_records_are_verified(
    protocol: ProtocolState,
    key: Seq<u8>,
    cached: Option<bool>,
    outcome: bool,
)
    ensures
        protocol.verify_step(key, cached) == VerifyStep::Known(outcome) <==> cached == Some(
            outcome,
        ),
        protocol.verify_step(key, cached) == VerifyStep::Verify(VerificationDomain::IssuerSigned)
            <==> cached is None && key == protocol.status_key,
        protocol.verify_step(key, cached) == VerifyStep::Verify(VerificationDomain::SelfSigned)
            <==> cached is None && key != protocol.status_key,
{
}

/// The lookups, and no other message, ask for the neighbors of a key, and do so for their
/// own sender and key.
pub proof fn law_lookups_ask_for_their_key(message: RpcMessage)
    ensures
        lookup_of(message) is Some <==> message is FindNode || message is FindValue,
        message matches RpcMessage::FindNode { sender_id, key } ==> lookup_of(message) == Some(
            (sender_id, key),
        ),
        message matches RpcMessage::FindValue { sender_id, key } ==> lookup_of(message) == Some(
            (sender_id, key),
        ),
{
}

/// A request that was not verified leaves the store as it was.
pub proof fn law_nothing_unverified_is_written(
    protocol: ProtocolState,
    store: StoreState,
    message: RpcMessage,
    addr: (String, u16),
    answers: Answers,
    now: u128,
    after: Answered,
)
    requires
        is_answer(protocol, store, message, addr, answers, now, after),
        !answers.verified,
    ensures
        after.store == store,
{
}

/// Where nothing needs to be verified, the outcome of verification plays no part.
pub proof fn law_unneeded_verification_plays_no_part(
    protocol: ProtocolState,
    store: StoreState,
    message: RpcMessage,
    addr: (String, u16),
    now: u128,
    answers: Answers,
    other: Answers,
    after: Answered,
)
    requires
        is_needed(protocol, store, message, now, Verification::NotNeeded),
        answers.neighbors == other.neighbors,
        answers.registered == other.registered,
        is_answer(protocol, store, message, addr, answers, now, after),
    ensures
        is_answer(protocol, store, message, addr, other, now, after),
{
}

/// The status list is replaced only through its own kind of request, and that kind
/// touches nothing else.
pub proof fn law_status_list_has_its_own_path(
    protocol: ProtocolState,
    store: StoreState,
    from: Node,
    key: Seq<u8>,
    value: Seq<u8>,
    verified: bool,
    now: u128,
    other: Seq<u8>,
)
    requires
        other != protocol.status_key,
    ensures
        ({
            let after = protocol.on_update(store, from, key, value, verified, now).store.records;
            &&& after.contains_key(protocol.status_key) == store.records.contains_key(
                protocol.status_key,
            )
            &&& after[protocol.status_key] == store.records[protocol.status_key]
        }),
        ({
            let after = protocol.on_update_status_list(
                store,
                from,
                key,
                value,
                verified,
                now,
            ).store.records;
            &&& after.contains_key(other) == store.records.contains_key(other)
            &&& after[other] == store.records[other]
        }),
{
}

/// The third invalid record gets a peer dropped, and no earlier one does.
pub proof fn law_third_strike_drops_the_peer(
    protocol: ProtocolState,
    store: StoreState,
    from: Node,
    key: Seq<u8>,
    value: Seq<u8>,
    now: u128,
)
    requires
        peers::strikes_against(protocol.strikes, from.id@) == 0,
    ensures
        ({
            let first = protocol.on_store(store, from, key, value, false, now);
            let second = first.protocol.on_store(store, from, key, value, false, now);
            let third = second.protocol.on_store(store, from, key, value, false, now);
            &&& first.action == PeerAction::Introduce(from)
            &&& second.action == PeerAction::Introduce(from)
            &&& third.action == PeerAction::Remove(from)
        }),
{
}

/// The status tells exactly what became of a record: one that was not verified is
/// invalid, the live record itself is already stored, another live record under its key
/// is a conflict, and under a free key the budget decides.
pub proof fn law_status_tells_what_became_of_the_record(
    store: StoreState,
    key: Seq<u8>,
    value: Seq<u8>,
    verified: bool,
    now: u128,
)
    ensures
        ({
            let status = store_status(store, key, value, verified, now);
            &&& status is InvalidRecord <==> !verified
            &&& verified && store.value_at(key, now) == Some(value) ==> status is AlreadyStored
            &&& verified ==> (status is Conflict <==> (store.value_at(key, now) matches Some(
                present,
            ) && present != value))
            &&& verified && !store.records.contains_key(key) ==> status == if storage::total_bytes(
                store.records,
            ) + storage::record_bytes(key, value) <= store.budget {
                StoreStatus::Stored
            } else {
                StoreStatus::CapacityExceeded
            }
        }),
{
}

/// Publishing the same record again is granted as long as the record is live.
pub proof fn law_storing_again_is_granted(
    protocol: ProtocolState,
    store: StoreState,
    from: Node,
    key: Seq<u8>,
    value: Seq<u8>,
    now: u128,
)
    requires
        store.value_at(key, now) == Some(value),
    ensures
        protocol.on_store(store, from, key, value, true, now).ok,
{
}

/// A record that was stored, replaced or deleted for a peer reads that way until it
/// expires. The one exception is a replacement that finds no room: it is granted all
/// the same and leaves the record as it was.
pub proof fn law_granted_requests_take_effect(
    protocol: ProtocolState,
    store: StoreState,
    from: Node,
    key: Seq<u8>,
    value: Seq<u8>,
    now: u128,
    later: u128,
)
    requires
        !storage::expired(store.ttl, now, later),
    ensures
        ({
            let effect = protocol.on_store(store, from, key, value, true, now);
            effect.ok ==> effect.store.value_at(key, later) == Some(value)
        }),
        ({
            let effect = protocol.on_update(store, from, key, value, true, now);
            effect.ok ==> if store.after_set(key, value, now).1 is CapacityExceeded {
                effect.store == store
            } else {
                effect.store.value_at(key, later) == Some(value)
            }
        }),
        ({
            let effect = protocol.on_update_status_list(store, from, key, value, true, now);
            effect.ok ==> if store.after_set(key, value, now).1 is CapacityExceeded {
                effect.store == store
            } else {
                effect.store.value_at(key, later) == Some(value)
            }
        }),
        ({
            let effect = protocol.on_delete(store, from, key, true, now);
            effect.ok ==> effect.store.value_at(key, later) is None
        }),
{
}

/// A request is always passed on as it came, under its own id, whatever requests of this
/// node wait for a response, and changes nothing: the two sides number their requests
/// independently.
pub proof fn law_request_is_always_passed_on(
    protocol: ProtocolState,
    frame: Frame,
    peer: Endpoint,
    addr: (String, u16),
)
    requires
        frame.is_request,
    ensures
        protocol.frame_step(frame, peer, addr) == (FrameStep::Request {
            msg_id: frame.msg_id,
            message: frame.message,
        }),
        protocol.after_frame(frame, peer, addr) == protocol,
{
}

/// A response counts exactly if its id waits for one from this peer and of this kind. It
/// then arrives as it is, introduces its sender if it is the answer to a ping, and ends
/// the wait for its id and for no other; otherwise the reason is given and nothing
/// changes.
pub proof fn law_response_counts_where_it_is_waited_for(
    protocol: ProtocolState,
    frame: Frame,
    peer: Endpoint,
    addr: (String, u16),
    other: u32,
)
    requires
        !frame.is_request,
    ensures
        ({
            let step = protocol.frame_step(frame, peer, addr);
            let after = protocol.after_frame(frame, peer, addr);
            let id = frame.msg_id;
            let waits = protocol.pending.contains_key(id);
            let counts = waits && protocol.pending[id].0 == peer && is_response(
                protocol.pending[id].1,
                frame.message,
            );
            &&& counts <==> (step matches FrameStep::Response { message, .. } && message
                == frame.message)
            &&& step is NotPending <==> !waits
            &&& waits && protocol.pending[id].0 != peer <==> step == (FrameStep::UnexpectedPeer {
                expected_peer: protocol.pending[id].0,
            }) && waits
            &&& waits && protocol.pending[id].0 == peer && !counts <==> step == (
            FrameStep::UnexpectedKind { expected: protocol.pending[id].1 }) && waits
            &&& step matches FrameStep::Response { action, .. } ==> (match frame.message {
                RpcMessage::Pong { sender_id } => action matches PeerAction::Introduce(node)
                    && node.id == sender_id && node.ip == Some(addr.0) && node.port == Some(addr.1),
                _ => action is Nothing,
            })
            &&& after == (ProtocolState { pending: after.pending, ..protocol })
            &&& after.pending.contains_key(id) <==> waits && !counts
            &&& other != id ==> after.pending.contains_key(other) == protocol.pending.contains_key(
                other,
            ) && after.pending[other] == protocol.pending[other]
        }),
{
}

/// A call is answered once: its response, from the peer that was asked, arrives and ends
/// the wait. One from elsewhere does not. The next call gets another id, so that both
/// wait side by side.
pub proof fn law_call_and_response_belong_together(
    protocol: ProtocolState,
    peer: Endpoint,
    message: RpcMessage,
    response: Frame,
    from: Endpoint,
    addr: (String, u16),
    next_peer: Endpoint,
    next: RpcMessage,
)
    requires
        !response.is_request,
        response.msg_id == protocol.after_call(peer, message).1.msg_id,
        is_response(response_kind(message), response.message),
    ensures
        ({
            let (waiting, frame) = protocol.after_call(peer, message);
            let (both, second) = waiting.after_call(next_peer, next);
            &&& frame.is_request && frame.message == message
            &&& waiting.frame_step(response, from, addr) is Response <==> from == peer
            &&& second.msg_id != frame.msg_id
            &&& both.frame_step(response, from, addr) is Response <==> from == peer
            &&& both.pending[second.msg_id] == (next_peer, response_kind(next))
            &&& waiting == (ProtocolState {
                pending: waiting.pending,
                next_msg_id: waiting.next_msg_id,
                ..protocol
            })
        }),
        forall|id: u32|
            id != response.msg_id ==> #[trigger] protocol.after_call(
                peer,
                message,
            ).0.pending.contains_key(id) == protocol.pending.contains_key(id)
                && protocol.after_call(peer, message).0.pending[id] == protocol.pending[id],
{
}

/// A request that was given up on waits no more: whatever comes under its id is a response to
/// nothing. The other requests wait on.
pub proof fn law_abandoned_request_waits_no_more(
    protocol: ProtocolState,
    msg_id: u32,
    frame: Frame,
    peer: Endpoint,
    addr: (String, u16),
)
    requires
        !frame.is_request,
    ensures
        frame.msg_id == msg_id ==> protocol.after_abandon(msg_id).frame_step(frame, peer, addr)
            is NotPending,
        frame.msg_id != msg_id ==> protocol.after_abandon(msg_id).frame_step(frame, peer, addr)
            == protocol.frame_step(frame, peer, addr),
        protocol.after_abandon(msg_id) == (ProtocolState {
            pending: protocol.after_abandon(msg_id).pending,
            ..protocol
        }),
{
}

/// A message is sent exactly if it is within the limit, and no two in a row share a fragment
/// id, so that their fragments are not mixed up. One that is too large changes nothing.
pub proof fn law_messages_within_the_limit_are_sent(
    protocol: ProtocolState,
    first: nat,
    second: nat,
)
    ensures
        ({
            let (one, a) = protocol.after_send(first);
            let (two, b) = one.after_send(second);
            &&& a is Some <==> first <= 262_144
            &&& a is None ==> one == protocol
            &&& a matches Some(id) ==> id == protocol.next_frag_id
            &&& a is Some && b is Some ==> a != b
            &&& one == (ProtocolState { next_frag_id: one.next_frag_id, ..protocol })
        }),
{
}

/// Ids count up and start over behind the largest, so that no id comes back before all the
/// others were used.
pub proof fn law_ids_count_up(id: u32)
    ensures
        id < u32::MAX ==> next_of(id) == id + 1,
        next_of(u32::MAX) == 0,
{
}

/// Discoveries, one at a time: one starts exactly for a new peer that is not being worked on
/// while no other is, a second one of the same peer has to wait until the first is done, and no
/// other peer is touched.
pub proof fn law_discoveries_are_bounded_and_unique(
    protocol: ProtocolState,
    id: Seq<u8>,
    is_new: bool,
    other: Seq<u8>,
)
    requires
        protocol.welcoming.finite(),
        protocol.welcoming.len() <= 1,
    ensures
        ({
            let (after, start) = protocol.after_discovery(id, is_new);
            &&& !is_new ==> !start
            &&& protocol.welcoming.contains(id) ==> !start
            &&& protocol.welcoming.len() == 1 ==> !start
            &&& is_new && !protocol.welcoming.contains(id) && protocol.welcoming.len()
                < 1 ==> start
            &&& !start ==> after == protocol
            &&& start ==> after.welcoming.contains(id)
            &&& other != id ==> after.welcoming.contains(other) == protocol.welcoming.contains(
                other,
            )
            &&& after == (ProtocolState { welcoming: after.welcoming, ..protocol })
            &&& after.welcoming.len() <= 1
            &&& start ==> !after.after_discovery(id, true).1
            &&& start ==> after.after_welcome(id).after_discovery(id, true).1
            &&& other != id ==> protocol.after_welcome(id).welcoming.contains(other)
                == protocol.welcoming.contains(other)
            &&& !protocol.after_welcome(id).welcoming.contains(id)
            &&& protocol.after_welcome(id) == (ProtocolState {
                welcoming: protocol.after_welcome(id).welcoming,
                ..protocol
            })
        }),
{
    let (after, start) = protocol.after_discovery(id, is_new);
    if start {
        assert(after.welcoming.remove(id) =~= protocol.welcoming);
    }
}

/// A response that does not come from the peer that was asked, or is of another
/// kind than was asked for, changes nothing: the request still waits, and the
/// sender is not introduced.
pub proof fn law_unexpected_response_changes_nothing(
    protocol: ProtocolState,
    frame: Frame,
    peer: Endpoint,
    addr: (String, u16),
)
    requires
        !frame.is_request,
        protocol.pending.contains_key(frame.msg_id) ==> protocol.pending[frame.msg_id].0 != peer
            || !is_response(protocol.pending[frame.msg_id].1, frame.message),
    ensures
        protocol.after_frame(frame, peer, addr) == protocol,
        protocol.frame_step(frame, peer, addr) !is Response,
{
}

/// The expected response from the expected peer reaches the request, once.
pub proof fn law_expected_response_arrives_once(
    protocol: ProtocolState,
    frame: Frame,
    peer: Endpoint,
    addr: (String, u16),
)
    requires
        !frame.is_request,
        protocol.pending.contains_key(frame.msg_id),
        protocol.pending[frame.msg_id].0 == peer,
        is_response(protocol.pending[frame.msg_id].1, frame.message),
    ensures
        protocol.frame_step(frame, peer, addr) is Response,
        protocol.after_frame(frame, peer, addr).frame_step(frame, peer, addr) is NotPending,
{
}

/// Who a request says it is from.
pub open spec fn sender_of(message: RpcMessage) -> Option<[u8; ID_LEN]> {
    match message {
        RpcMessage::Ping { sender_id } => Some(sender_id),
        RpcMessage::Store { sender_id, .. } => Some(sender_id),
        RpcMessage::Update { sender_id, .. } => Some(sender_id),
        RpcMessage::UpdateStatusList { sender_id, .. } => Some(sender_id),
        RpcMessage::Delete { sender_id, .. } => Some(sender_id),
        RpcMessage::FindNode { sender_id, .. } => Some(sender_id),
        RpcMessage::FindValue { sender_id, .. } => Some(sender_id),
        RpcMessage::Leave { sender_id } => Some(sender_id),
        _ => None,
    }
}

/// The key that a request is about.
pub open spec fn key_of(message: RpcMessage) -> Option<[u8; ID_LEN]> {
    match message {
        RpcMessage::Store { key, .. } => Some(key),
        RpcMessage::Update { key, .. } => Some(key),
        RpcMessage::UpdateStatusList { key, .. } => Some(key),
        RpcMessage::Delete { key, .. } => Some(key),
        RpcMessage::FindNode { key, .. } => Some(key),
        RpcMessage::FindValue { key, .. } => Some(key),
        _ => None,
    }
}

/// A request and where it goes.
#[derive(Debug)]
pub struct OutgoingCall {
    /// IP and port of the peer.
    pub address: (String, u16),
    pub message: RpcMessage,
}

/// `message` to `peer`; nothing can be sent to a peer without an address.
pub open spec fn outgoing(peer: Node, message: RpcMessage) -> Option<OutgoingCall> {
    match (peer.ip, peer.port) {
        (Some(ip), Some(port)) => Some(OutgoingCall { address: (ip, port), message }),
        _ => None,
    }
}

fn call_to(peer: &Node, message: RpcMessage) -> (call: Option<OutgoingCall>)
    ensures
        call == outgoing(*peer, message),
{
    match peer.address() {
        Some(address) => Some(OutgoingCall { address, message }),
        None => None,
    }
}

/// A message goes out as it is, to the address of the peer, and goes out exactly if the peer
/// has an IP and a port.
pub proof fn law_messages_go_to_the_address_of_the_peer(peer: Node, message: RpcMessage)
    ensures
        outgoing(peer, message) is Some <==> peer.ip is Some && peer.port is Some,
        outgoing(peer, message) matches Some(call) ==> Some(call.address.0) == peer.ip && Some(
            call.address.1,
        ) == peer.port && call.message == message,
{
}

/// What a response says to a request that is granted or refused.
pub open spec fn verdict(expected: ExpectedResponse, reply: Option<RpcMessage>) -> Option<bool> {
    match reply {
        Some(message) => if !is_response(expected, message) {
            None
        } else {
            match message {
                RpcMessage::StoreResult { ok } => Some(ok),
                RpcMessage::UpdateResult { ok } => Some(ok),
                RpcMessage::UpdateStatusListResult { ok } => Some(ok),
                RpcMessage::DeleteResult { ok } => Some(ok),
                _ => None,
            }
        },
        None => None,
    }
}

/// The verdict on a request is what the response of its kind says, and there is none
/// without such a response.
pub proof fn law_verdict_is_what_the_response_says(
    expected: ExpectedResponse,
    reply: Option<RpcMessage>,
    ok: bool,
)
    ensures
        verdict(expected, reply) == Some(ok) <==> ({
            ||| expected is StoreResult && reply == Some(RpcMessage::StoreResult { ok })
            ||| expected is UpdateResult && reply == Some(RpcMessage::UpdateResult { ok })
            ||| expected is UpdateStatusListResult && reply == Some(
                RpcMessage::UpdateStatusListResult { ok },
            )
            ||| expected is DeleteResult && reply == Some(RpcMessage::DeleteResult { ok })
        }),
{
}

/// What a store, update or delete call to `peer` comes to.
pub open spec fn call_conclusion(
    peer: Node,
    expected: ExpectedResponse,
    reply: Option<RpcMessage>,
) -> (bool, PeerAction) {
    match verdict(expected, reply) {
        Some(ok) => (ok, PeerAction::Nothing),
        None => (false, PeerAction::Remove(peer)),
    }
}

/// Concludes a store, update or delete call to `peer`. A peer that does not answer
/// as expected is removed.
pub fn conclude_call(peer: Node, expected: ExpectedResponse, reply: Option<RpcMessage>) -> (
    conclusion: (bool, PeerAction))
    ensures
        conclusion == call_conclusion(peer, expected, reply),
{
    match reply {
        Some(message) => {
            if expected.accepts(&message) {
                match message {
                    RpcMessage::StoreResult { ok }
                    | RpcMessage::UpdateResult { ok }
                    | RpcMessage::UpdateStatusListResult { ok }
                    | RpcMessage::DeleteResult { ok } => (ok, PeerAction::Nothing),
                    _ => (false, PeerAction::Remove(peer)),
                }
            } else {
                (false, PeerAction::Remove(peer))
            }
        },
        None => (false, PeerAction::Remove(peer)),
    }
}

/// What a peer reports of a record it was asked to store: `reply` is its answer, and
/// `status` came behind it. A status that contradicts the answer does not count; a
/// bare refusal gives no cause.
pub open spec fn reported_status(reply: Option<RpcMessage>, status: Option<StoreStatus>) -> Option<
    StoreStatus,
> {
    match verdict(ExpectedResponse::StoreResult, reply) {
        Some(ok) => match status {
            Some(status) if is_granted(status) == ok => Some(status),
            _ => if ok {
                Some(StoreStatus::Stored)
            } else {
                None
            },
        },
        None => None,
    }
}

/// Concludes a store call to `peer`. A peer that does not answer as expected is
/// removed.
pub fn conclude_store(
    peer: Node,
    reply: Option<RpcMessage>,
    status: Option<StoreStatus>,
) -> (conclusion: (Option<StoreStatus>, PeerAction))
    ensures
        conclusion.0 == reported_status(reply, status),
        conclusion.1 == match verdict(ExpectedResponse::StoreResult, reply) {
            Some(_) => PeerAction::Nothing,
            None => PeerAction::Remove(peer),
        },
{
    let ok = match reply {
        Some(RpcMessage::StoreResult { ok }) => ok,
        _ => {
            return (None, PeerAction::Remove(peer));
        },
    };
    let reported = match status {
        Some(status) if status.granted() == ok => Some(status),
        _ => if ok {
            Some(StoreStatus::Stored)
        } else {
            None
        },
    };
    (reported, PeerAction::Nothing)
}

/// What became of a record at a peer is what the node that sent it learns.
pub proof fn law_status_reaches_the_publisher(
    protocol: ProtocolState,
    store: StoreState,
    message: RpcMessage,
    addr: (String, u16),
    answers: Answers,
    now: u128,
    after: Answered,
)
    requires
        is_answer(protocol, store, message, addr, answers, now, after),
    ensures
        message matches RpcMessage::Store { key, value, .. } ==> reported_status(
            after.reply,
            status_in(status_trailer(after.status)),
        ) == Some(store_status(store, key@, value@, answers.verified, now)),
{
    law_status_reads_back(after.status);
}

/// A peer is reported to hold a record exactly when it granted the request,
/// whatever status came with its answer.
pub proof fn law_granted_as_answered(reply: Option<RpcMessage>, status: Option<StoreStatus>)
    ensures
        verdict(ExpectedResponse::StoreResult, reply) == Some(true) <==> (reported_status(
            reply,
            status,
        ) matches Some(reported) && is_granted(reported)),
{
}

/// An answer that comes without a status, or with one that contradicts it, says no more than
/// it does: a grant counts as stored, and a refusal gives no cause. One that agrees is
/// reported as it is, and without an answer nothing is.
pub proof fn law_status_never_outweighs_the_answer(
    reply: Option<RpcMessage>,
    status: Option<StoreStatus>,
    ok: bool,
)
    ensures
        reply == Some(RpcMessage::StoreResult { ok }) && status is None ==> reported_status(
            reply,
            status,
        ) == if ok {
            Some(StoreStatus::Stored)
        } else {
            None
        },
        reply == Some(RpcMessage::StoreResult { ok }) && status is Some && (status
            == Some(StoreStatus::Stored) || status == Some(StoreStatus::AlreadyStored)) != ok
            ==> reported_status(reply, status) == reported_status(reply, None),
        reply == Some(RpcMessage::StoreResult { ok }) && status is Some && (status
            == Some(StoreStatus::Stored) || status == Some(StoreStatus::AlreadyStored)) == ok
            ==> reported_status(reply, status) == status,
        !(reply matches Some(message) && message is StoreResult) ==> reported_status(reply, status)
            is None,
{
}

/// `conclusion` is what a ping comes to.
pub open spec fn is_ping_conclusion(
    reply: Option<RpcMessage>,
    conclusion: (bool, Vec<u8>),
) -> bool {
    match reply {
        Some(RpcMessage::Pong { sender_id }) => conclusion.0 && conclusion.1@ == sender_id@,
        _ => !conclusion.0 && conclusion.1@ == Seq::<u8>::empty(),
    }
}

/// What is to be done about a node that was pinged.
pub open spec fn ping_action(node: Node, reply: Option<RpcMessage>) -> PeerAction {
    if reply matches Some(RpcMessage::Pong { .. }) {
        PeerAction::Nothing
    } else {
        PeerAction::Remove(node)
    }
}

/// Concludes a ping: whether the peer is there, and the id it gave.
pub fn conclude_ping(reply: Option<RpcMessage>) -> (conclusion: (bool, Vec<u8>))
    ensures
        is_ping_conclusion(reply, conclusion),
{
    match reply {
        Some(RpcMessage::Pong { sender_id }) => (
            true,
            vstd::slice::slice_to_vec(sender_id.as_slice()),
        ),
        _ => (false, Vec::new()),
    }
}

/// Concludes a ping that finds out whether `node` is still there. A node that does
/// not answer is removed; one that does was introduced by its answer.
pub fn conclude_ping_node(node: Node, reply: Option<RpcMessage>) -> (action: PeerAction)
    ensures
        action == ping_action(node, reply),
{
    let (ok, _) = conclude_ping(reply);
    if ok {
        PeerAction::Nothing
    } else {
        PeerAction::Remove(node)
    }
}

/// `tuple` is what a lookup makes of `wire`.
pub open spec fn is_tuple(tuple: NodeTuple, wire: WireNode) -> bool {
    tuple.0@ == wire.id@ && tuple.1 == wire.ip && tuple.2 == wire.port
}

/// `payload` holds `nodes` as a lookup receives them.
pub open spec fn is_node_payload(payload: FindPayload, nodes: Seq<WireNode>) -> bool {
    &&& payload matches FindPayload::Nodes(tuples)
    &&& tuples@.len() == nodes.len()
    &&& forall|i: int| 0 <= i < nodes.len() ==> is_tuple(#[trigger] tuples@[i], nodes[i])
}

/// A lookup receives every node that the peer knows close to the key, in order, with the id
/// and the address of each.
pub proof fn law_lookup_receives_what_the_peer_knows(
    protocol: ProtocolState,
    store: StoreState,
    message: RpcMessage,
    addr: (String, u16),
    answers: Answers,
    now: u128,
    after: Answered,
    payload: FindPayload,
)
    requires
        is_answer(protocol, store, message, addr, answers, now, after),
        after.reply matches Some(RpcMessage::FindNodeResult { nodes }) ==> is_node_payload(
            payload,
            nodes@,
        ),
        after.reply matches Some(RpcMessage::FindValueNodes { nodes }) ==> is_node_payload(
            payload,
            nodes@,
        ),
        after.reply matches Some(reply) && (reply is FindNodeResult || reply is FindValueNodes),
    ensures
        payload matches FindPayload::Nodes(tuples) && tuples@.len() == answers.neighbors@.len()
            && forall|i: int|
            0 <= i < tuples@.len() ==> (#[trigger] tuples@[i]).0@ == answers.neighbors@[i].id@
                && tuples@[i].1 == answers.neighbors@[i].ip && tuples@[i].2
                == answers.neighbors@[i].port,
{
    law_all_nodes_are_sent(answers.neighbors@);
}

fn to_tuples(nodes: &Vec<WireNode>) -> (tuples: Vec<NodeTuple>)
    ensures
        tuples@.len() == nodes@.len(),
        forall|i: int| 0 <= i < nodes@.len() ==> is_tuple(#[trigger] tuples@[i], nodes@[i]),
{
    let mut tuples: Vec<NodeTuple> = Vec::new();
    let mut i: usize = 0;
    while i < nodes.len()
        invariant
            i <= nodes@.len(),
            tuples@.len() == i,
            forall|j: int| 0 <= j < i ==> is_tuple(#[trigger] tuples@[j], nodes@[j]),
        decreases nodes@.len() - i,
    {
        let ip = match &nodes[i].ip {
            Some(ip) => Some(ip.clone()),
            None => None,
        };
        tuples.push((vstd::slice::slice_to_vec(nodes[i].id.as_slice()), ip, nodes[i].port));
        i = i + 1;
    }
    tuples
}

/// `conclusion` is what a node lookup at `peer` comes to.
pub open spec fn is_node_conclusion(
    peer: Node,
    reply: Option<RpcMessage>,
    conclusion: (RawResponse, PeerAction),
) -> bool {
    match reply {
        Some(RpcMessage::FindNodeResult { nodes }) => {
            &&& conclusion.0.0
            &&& is_node_payload(conclusion.0.1, nodes@)
            &&& conclusion.1 == PeerAction::Introduce(peer)
        },
        _ => {
            &&& !conclusion.0.0
            &&& conclusion.0.1 is Empty
            &&& conclusion.1 == PeerAction::Remove(peer)
        },
    }
}

/// `conclusion` is what a value lookup at `peer` comes to.
pub open spec fn is_value_conclusion(
    peer: Node,
    reply: Option<RpcMessage>,
    conclusion: (RawResponse, PeerAction),
) -> bool {
    match reply {
        Some(RpcMessage::FindValueHit { value }) => {
            &&& conclusion.0.0
            &&& conclusion.0.1 == FindPayload::Value(value)
            &&& conclusion.1 == PeerAction::Introduce(peer)
        },
        Some(RpcMessage::FindValueNodes { nodes }) => {
            &&& conclusion.0.0
            &&& is_node_payload(conclusion.0.1, nodes@)
            &&& conclusion.1 == PeerAction::Introduce(peer)
        },
        _ => {
            &&& !conclusion.0.0
            &&& conclusion.0.1 is Empty
            &&& conclusion.1 == PeerAction::Remove(peer)
        },
    }
}

/// A peer is removed exactly if it does not give the response that was waited for. A lookup
/// introduces one that does, and a granted or refused request leaves it as it is.
pub proof fn law_silent_peers_are_removed(
    peer: Node,
    reply: Option<RpcMessage>,
    expected: ExpectedResponse,
    ping: (bool, Vec<u8>),
    node: (RawResponse, PeerAction),
    value: (RawResponse, PeerAction),
)
    requires
        is_ping_conclusion(reply, ping),
        is_node_conclusion(peer, reply, node),
        is_value_conclusion(peer, reply, value),
        expected is StoreResult || expected is UpdateResult || expected is UpdateStatusListResult
            || expected is DeleteResult,
    ensures
        ({
            let ponged = reply is Some && is_response(ExpectedResponse::Pong, reply->0);
            let listed = reply is Some && is_response(ExpectedResponse::FindNodeResult, reply->0);
            let valued = reply is Some && is_response(ExpectedResponse::FindValueResult, reply->0);
            let judged = reply is Some && is_response(expected, reply->0);
            let (ok, action) = call_conclusion(peer, expected, reply);
            &&& ping.0 <==> ponged
            &&& ponged ==> ping.1@ == reply->0->Pong_sender_id@
            &&& !ponged ==> ping.1@.len() == 0
            &&& ping_action(peer, reply) == if ponged {
                PeerAction::Nothing
            } else {
                PeerAction::Remove(peer)
            }
            &&& node.0.0 <==> listed
            &&& node.1 == if listed {
                PeerAction::Introduce(peer)
            } else {
                PeerAction::Remove(peer)
            }
            &&& value.0.0 <==> valued
            &&& value.1 == if valued {
                PeerAction::Introduce(peer)
            } else {
                PeerAction::Remove(peer)
            }
            &&& reply matches Some(RpcMessage::FindValueHit { value: v }) ==> value.0.1
                == FindPayload::Value(v)
            &&& action == if judged {
                PeerAction::Nothing
            } else {
                PeerAction::Remove(peer)
            }
            &&& !judged ==> !ok
        }),
{
}

/// Concludes a node lookup at `peer`. A peer that does not answer as expected is
/// removed.
pub fn conclude_find_node(peer: Node, reply: Option<RpcMessage>) -> (conclusion: (
    RawResponse,
    PeerAction,
))
    ensures
        is_node_conclusion(peer, reply, conclusion),
{
    match reply {
        Some(RpcMessage::FindNodeResult { nodes }) => (
            RawResponse(true, FindPayload::Nodes(to_tuples(&nodes))),
            PeerAction::Introduce(peer),
        ),
        _ => (RawResponse(false, FindPayload::Empty), PeerAction::Remove(peer)),
    }
}

/// Concludes a value lookup at `peer`. A peer that does not answer as expected is
/// removed.
pub fn conclude_find_value(peer: Node, reply: Option<RpcMessage>) -> (conclusion: (
    RawResponse,
    PeerAction,
))
    ensures
        is_value_conclusion(peer, reply, conclusion),
{
    match reply {
        Some(RpcMessage::FindValueHit { value }) => (
            RawResponse(true, FindPayload::Value(value)),
            PeerAction::Introduce(peer),
        ),
        Some(RpcMessage::FindValueNodes { nodes }) => (
            RawResponse(true, FindPayload::Nodes(to_tuples(&nodes))),
            PeerAction::Introduce(peer),
        ),
        _ => (RawResponse(false, FindPayload::Empty), PeerAction::Remove(peer)),
    }
}

impl KademliaProtocol {
    /// The ping to send to an address. [`conclude_ping`] takes the response.
    pub fn call_ping_addr(&self) -> (message: RpcMessage)
        ensures
            message == (RpcMessage::Ping { sender_id: self@.source.id }),
    {
        RpcMessage::Ping { sender_id: self.source_node.id }
    }

    /// The ping that finds out whether `node` is still there.
    pub fn call_ping_node(&self, node: &Node) -> (call: Option<OutgoingCall>)
        ensures
            call == outgoing(*node, RpcMessage::Ping { sender_id: self@.source.id }),
            call matches Some(call) ==> sender_of(call.message) == Some(self@.source.id) && key_of(
                call.message,
            ) == None::<[u8; ID_LEN]>,
    {
        call_to(node, self.call_ping_addr())
    }

    /// The request to store a record at `peer`. [`conclude_call`] takes the response.
    pub fn call_store_rpc(&self, peer: &Node, key: [u8; ID_LEN], value: Vec<u8>) -> (call: Option<
        OutgoingCall,
    >)
        ensures
            call == outgoing(*peer, RpcMessage::Store { sender_id: self@.source.id, key, value }),
            call matches Some(call) ==> sender_of(call.message) == Some(self@.source.id) && key_of(
                call.message,
            ) == Some(key),
    {
        call_to(peer, RpcMessage::Store { sender_id: self.source_node.id, key, value })
    }

    /// The request to update a record at `peer`. [`conclude_call`] takes the response.
    pub fn call_update_rpc(
        &self,
        peer: &Node,
        key: [u8; ID_LEN],
        value: Vec<u8>,
        auth_signature: Vec<u8>,
    ) -> (call: Option<OutgoingCall>)
        ensures
            call == outgoing(
                *peer,
                RpcMessage::Update { sender_id: self@.source.id, key, value, auth_signature },
            ),
            call matches Some(call) ==> sender_of(call.message) == Some(self@.source.id) && key_of(
                call.message,
            ) == Some(key),
    {
        call_to(
            peer,
            RpcMessage::Update { sender_id: self.source_node.id, key, value, auth_signature },
        )
    }

    /// The request to update the status list at `peer`. [`conclude_call`] takes the
    /// response.
    pub fn call_status_list_update_rpc(&self, peer: &Node, key: [u8; ID_LEN], value: Vec<u8>) -> (
        call: Option<OutgoingCall>)
        ensures
            call == outgoing(
                *peer,
                RpcMessage::UpdateStatusList { sender_id: self@.source.id, key, value },
            ),
            call matches Some(call) ==> sender_of(call.message) == Some(self@.source.id) && key_of(
                call.message,
            ) == Some(key),
    {
        call_to(peer, RpcMessage::UpdateStatusList { sender_id: self.source_node.id, key, value })
    }

    /// The request to delete a record at `peer`. [`conclude_call`] takes the response.
    pub fn call_delete_rpc(
        &self,
        peer: &Node,
        key: [u8; ID_LEN],
        auth_signature: Vec<u8>,
        delete_msg: Vec<u8>,
    ) -> (call: Option<OutgoingCall>)
        ensures
            call == outgoing(
                *peer,
                RpcMessage::Delete { sender_id: self@.source.id, key, auth_signature, delete_msg },
            ),
            call matches Some(call) ==> sender_of(call.message) == Some(self@.source.id) && key_of(
                call.message,
            ) == Some(key),
    {
        call_to(
            peer,
            RpcMessage::Delete { sender_id: self.source_node.id, key, auth_signature, delete_msg },
        )
    }

    /// The message that tells `peer` of this node's departure.
    pub fn call_leave_rpc(&self, peer: &Node) -> (call: Option<OutgoingCall>)
        ensures
            call == outgoing(*peer, RpcMessage::Leave { sender_id: self@.source.id }),
            call matches Some(call) ==> sender_of(call.message) == Some(self@.source.id) && key_of(
                call.message,
            ) == None::<[u8; ID_LEN]>,
    {
        call_to(peer, RpcMessage::Leave { sender_id: self.source_node.id })
    }

    /// The node lookup at `peer`. [`conclude_find_node`] takes the response.
    pub fn call_find_node(&self, peer: &Node, target: &Node) -> (call: Option<OutgoingCall>)
        ensures
            call == outgoing(
                *peer,
                RpcMessage::FindNode { sender_id: self@.source.id, key: target.id },
            ),
            call matches Some(call) ==> sender_of(call.message) == Some(self@.source.id) && key_of(
                call.message,
            ) == Some(target.id),
    {
        call_to(peer, RpcMessage::FindNode { sender_id: self.source_node.id, key: target.id })
    }

    /// The value lookup at `peer`. [`conclude_find_value`] takes the response.
    pub fn call_find_value(&self, peer: &Node, target: &Node) -> (call: Option<OutgoingCall>)
        ensures
            call == outgoing(
                *peer,
                RpcMessage::FindValue { sender_id: self@.source.id, key: target.id },
            ),
            call matches Some(call) ==> sender_of(call.message) == Some(self@.source.id) && key_of(
                call.message,
            ) == Some(target.id),
    {
        call_to(peer, RpcMessage::FindValue { sender_id: self.source_node.id, key: target.id })
    }
}

/// The record `key` is to be copied from `this` node to the `new` one: the new node
/// is closer to it than the farthest of its `neighbors`, and this node is closer than
/// the closest of them, so that no other node needs to copy it.
pub open spec fn hands_over(this: Node, new: Node, key: Node, neighbors: Seq<Node>) -> bool {
    neighbors.len() == 0 || (node::distance(new, key) < node::distance(neighbors.last(), key)
        && node::distance(this, key) < node::distance(neighbors[0], key))
}

/// Those of `records` that `this` node copies to the `new` one, in order, where
/// `neighbors` holds the known neighbors of each.
pub open spec fn handed_over(
    this: Node,
    new: Node,
    records: Seq<([u8; ID_LEN], Vec<u8>)>,
    neighbors: Seq<Vec<Node>>,
) -> Seq<(Seq<u8>, Seq<u8>)>
    decreases records.len(),
{
    if records.len() == 0 {
        Seq::empty()
    } else {
        let before = handed_over(this, new, records.drop_last(), neighbors);
        let (key, value) = records.last();
        if hands_over(
            this,
            new,
            node::node_of(key, None, None),
            neighbors[records.len() - 1]@,
        ) {
            before.push((key@, value@))
        } else {
            before
        }
    }
}

/// The id that `random` picks from the range `lo..=hi`.
pub open spec fn picks(lo: LongId, hi: LongId, random: Seq<u8>, id: Seq<u8>) -> bool {
    long_id::be_value(id) == lo.value() + long_id::be_value(random) % ((hi.value() - lo.value()
        + 1) as nat)
}

/// An id in the range `lo..=hi`, picked by the bytes of `random`.
pub fn refresh_id(lo: LongId, hi: LongId, random: &[u8]) -> (id: [u8; ID_LEN])
    requires
        lo.value() <= hi.value() < long_id::pow256(ID_LEN as nat),
        random@.len() == ID_LEN,
    ensures
        picks(lo, hi, random@, id@),
        lo.value() <= long_id::be_value(id@) <= hi.value(),
{
    let one = LongId { w3: 0, w2: 0, w1: 0, w0: 1 };
    proof {
        long_id::lemma_pow256_20();
        assert(one.value() == 1);
    }
    let span = hi.minus(lo).plus(one);
    let r = LongId::from_big_endian(random);
    let val = lo.plus(r.remainder(span));
    let bytes = val.to_big_endian();
    let tail = vstd::slice::slice_subrange(bytes.as_slice(), 12, 32);
    proof {
        let head = bytes@.subrange(0, 12);
        assert(bytes@ =~= head + tail@);
        long_id::lemma_be_value_concat(head, tail@);
        long_id::lemma_be_value_bound(tail@);
        let high = long_id::be_value(head);
        let unit = long_id::pow256(20);
        assert(val.value() == high * unit + long_id::be_value(tail@));
        assert(high == 0) by (nonlinear_arith)
            requires
                high * unit <= val.value(),
                val.value() < unit,
                high >= 0,
        ;
        assert(high * unit == 0) by (nonlinear_arith)
            requires
                high == 0,
        ;
    }
    id_of(tail)
}

impl KademliaProtocol {
    /// Decides which records to copy to `node`, or `None` if it is not new. `is_new`
    /// is what the routing table says of it; `neighbors` holds what it knows closest
    /// to each record, before `node` is added.
    pub fn welcome_if_new(
        &self,
        node: &Node,
        is_new: bool,
        records: &Vec<([u8; ID_LEN], Vec<u8>)>,
        neighbors: &Vec<Vec<Node>>,
    ) -> (copies: Option<Vec<([u8; ID_LEN], Vec<u8>)>>)
        requires
            records@.len() == neighbors@.len(),
        ensures
            match copies {
                Some(copies) => is_new && storage::id_pairs(copies@) == handed_over(
                    self@.source,
                    *node,
                    records@,
                    neighbors@,
                ),
                None => !is_new,
            },
    {
        if !is_new {
            return None;
        }
        let mut copies: Vec<([u8; ID_LEN], Vec<u8>)> = Vec::new();
        let mut i: usize = 0;
        assert(storage::id_pairs(copies@) =~= handed_over(
            self@.source,
            *node,
            records@.take(0),
            neighbors@,
        ));
        while i < records.len()
            invariant
                i <= records@.len(),
                records@.len() == neighbors@.len(),
                storage::id_pairs(copies@) == handed_over(
                    self@.source,
                    *node,
                    records@.take(i as int),
                    neighbors@,
                ),
            decreases records@.len() - i,
        {
            let ghost before = copies@;
            assert(records@.take(i + 1).drop_last() =~= records@.take(i as int));
            let key_node = Node::from_id(records[i].0);
            let known = &neighbors[i];
            let mut take = true;
            if known.len() > 0 {
                let last = &known[known.len() - 1];
                let first = &known[0];
                take = node.distance_to(&key_node).less_than(last.distance_to(&key_node))
                    && self.source_node.distance_to(&key_node).less_than(
                    first.distance_to(&key_node),
                );
            }
            if take {
                copies.push((records[i].0, copy_bytes(&records[i].1)));
                assert(storage::id_pairs(copies@) =~= storage::id_pairs(before).push(
                    (records@[i as int].0@, records@[i as int].1@),
                ));
            }
            i = i + 1;
        }
        assert(records@.take(i as int) =~= records@);
        Some(copies)
    }

    /// A random id for each of the `ranges`, constrained to it.
    pub fn get_refresh_ids(&self, ranges: &Vec<(LongId, LongId)>) -> (ids: Vec<[u8; ID_LEN]>)
        requires
            forall|i: int|
                0 <= i < ranges@.len() ==> (#[trigger] ranges@[i]).0.value() <= ranges@[i].1.value()
                    < long_id::pow256(ID_LEN as nat),
        ensures
            ids@.len() == ranges@.len(),
            forall|i: int|
                0 <= i < ids@.len() ==> ranges@[i].0.value() <= long_id::be_value(
                    (#[trigger] ids@[i])@,
                ) <= ranges@[i].1.value(),
    {
        let mut ids: Vec<[u8; ID_LEN]> = Vec::new();
        let mut i: usize = 0;
        while i < ranges.len()
            invariant
                i <= ranges@.len(),
                ids@.len() == i,
                forall|j: int|
                    0 <= j < ranges@.len() ==> (#[trigger] ranges@[j]).0.value()
                        <= ranges@[j].1.value() < long_id::pow256(ID_LEN as nat),
                forall|j: int|
                    0 <= j < i ==> ranges@[j].0.value() <= long_id::be_value(
                        (#[trigger] ids@[j])@,
                    ) <= ranges@[j].1.value(),
            decreases ranges@.len() - i,
        {
            let random = random_bytes(ID_LEN);
            let id = refresh_id(ranges[i].0, ranges[i].1, random.as_slice());
            ids.push(id);
            i = i + 1;
        }
        ids
    }
}

/// Of two nodes that each know the other as the closest to a record, only one copies
/// the record to a new node.
pub proof fn law_only_one_node_hands_over(
    a: Node,
    b: Node,
    new: Node,
    key: Node,
    near_a: Seq<Node>,
    near_b: Seq<Node>,
)
    requires
        near_a.len() > 0 && near_a[0] == b,
        near_b.len() > 0 && near_b[0] == a,
    ensures
        !(hands_over(a, new, key, near_a) && hands_over(b, new, key, near_b)),
{
}

/// Whether a record is copied is decided for each record by itself, in order, given its
/// known neighbors, closest first. Without any it is copied; otherwise exactly if this
/// node is closer to it than every neighbor and the new node is closer than at least one
/// of them, so that it enters their list.
pub proof fn law_newcomer_gets_what_it_enters_the_list_of(
    this: Node,
    new: Node,
    records: Seq<([u8; ID_LEN], Vec<u8>)>,
    neighbors: Seq<Vec<Node>>,
    record: ([u8; ID_LEN], Vec<u8>),
    known: Vec<Node>,
)
    requires
        records.len() == neighbors.len(),
        forall|i: int, j: int|
            0 <= i <= j < known@.len() ==> node::distance(
                #[trigger] known@[i],
                node::node_of(record.0, None, None),
            ) <= node::distance(#[trigger] known@[j], node::node_of(record.0, None, None)),
    ensures
        ({
            let key = node::node_of(record.0, None, None);
            let this_is_closest = forall|i: int|
                0 <= i < known@.len() ==> node::distance(this, key) < node::distance(
                    #[trigger] known@[i],
                    key,
                );
            let new_enters = exists|i: int|
                0 <= i < known@.len() && node::distance(new, key) < node::distance(
                    #[trigger] known@[i],
                    key,
                );
            let before = handed_over(this, new, records, neighbors);
            let after = handed_over(this, new, records.push(record), neighbors.push(known));
            if known@.len() == 0 || this_is_closest && new_enters {
                after == before.push((record.0@, record.1@))
            } else {
                after == before
            }
        }),
        handed_over(this, new, Seq::empty(), neighbors) == Seq::<(Seq<u8>, Seq<u8>)>::empty(),
{
    let key = node::node_of(record.0, None, None);
    assert(records.push(record).drop_last() =~= records);
    lemma_handed_over_prefix(this, new, records, neighbors.push(known), neighbors);
    if known@.len() > 0 {
        let last = known@.len() - 1;
        assert(known@.last() == known@[last]);
        if node::distance(this, key) < node::distance(known@[0], key) {
            assert forall|i: int| 0 <= i < known@.len() implies node::distance(this, key)
                < node::distance(#[trigger] known@[i], key) by {
                assert(node::distance(known@[0], key) <= node::distance(known@[i], key));
            }
        }
        if exists|i: int|
            0 <= i < known@.len() && node::distance(new, key) < node::distance(
                #[trigger] known@[i],
                key,
            ) {
            let i = choose|i: int|
                0 <= i < known@.len() && node::distance(new, key) < node::distance(
                    #[trigger] known@[i],
                    key,
                );
            assert(node::distance(known@[i], key) <= node::distance(known@[last], key));
        }
    }
}

/// A node that is closer to a record than all of its known neighbors hands it over to every
/// newcomer that is closer than at least one of them, and nothing is handed over that
/// this node does not hold, or to a newcomer that is as far as all the neighbors.
pub proof fn law_responsible_node_hands_over(
    this: Node,
    new: Node,
    records: Seq<([u8; ID_LEN], Vec<u8>)>,
    neighbors: Seq<Vec<Node>>,
)
    requires
        records.len() == neighbors.len(),
        forall|r: int, i: int, j: int|
            #![trigger neighbors[r]@[i], neighbors[r]@[j]]
            0 <= r < records.len() && 0 <= i <= j < neighbors[r]@.len() ==> node::distance(
                neighbors[r]@[i],
                node::node_of(records[r].0, None, None),
            ) <= node::distance(neighbors[r]@[j], node::node_of(records[r].0, None, None)),
    ensures
        forall|r: int, i: int|
            #![trigger records[r], neighbors[r]@[i]]
            0 <= r < records.len() && 0 <= i < neighbors[r]@.len() && node::distance(
                this,
                node::node_of(records[r].0, None, None),
            ) < node::distance(neighbors[r]@[0], node::node_of(records[r].0, None, None))
                && node::distance(new, node::node_of(records[r].0, None, None)) < node::distance(
                neighbors[r]@[i],
                node::node_of(records[r].0, None, None),
            ) ==> handed_over(this, new, records, neighbors).contains(
                (records[r].0@, records[r].1@),
            ),
        forall|c: int|
            0 <= c < handed_over(this, new, records, neighbors).len() ==> exists|r: int|
                #![trigger records[r]]
                {
                    &&& 0 <= r < records.len()
                    &&& #[trigger] handed_over(this, new, records, neighbors)[c] == (
                        records[r].0@,
                        records[r].1@,
                    )
                    &&& neighbors[r]@.len() == 0 || exists|i: int|
                        0 <= i < neighbors[r]@.len() && node::distance(
                            new,
                            node::node_of(records[r].0, None, None),
                        ) < node::distance(
                            #[trigger] neighbors[r]@[i],
                            node::node_of(records[r].0, None, None),
                        )
                },
    decreases records.len(),
{
    if records.len() > 0 {
        let init = records.drop_last();
        let rest = neighbors.drop_last();
        let n = records.len() - 1;
        let before = handed_over(this, new, init, rest);
        let after = handed_over(this, new, records, neighbors);
        let key = node::node_of(records[n].0, None, None);
        let known = neighbors[n];
        assert forall|r: int, i: int, j: int|
            #![trigger rest[r]@[i], rest[r]@[j]]
            0 <= r < init.len() && 0 <= i <= j < rest[r]@.len() implies node::distance(
            rest[r]@[i],
            node::node_of(init[r].0, None, None),
        ) <= node::distance(rest[r]@[j], node::node_of(init[r].0, None, None)) by {
            assert(neighbors[r] == rest[r] && records[r] == init[r]);
            assert(node::distance(
                neighbors[r]@[i],
                node::node_of(records[r].0, None, None),
            ) <= node::distance(neighbors[r]@[j], node::node_of(records[r].0, None, None)));
        }
        law_responsible_node_hands_over(this, new, init, rest);
        assert(init.push(records[n]) =~= records);
        assert(rest.push(known) =~= neighbors);
        assert forall|i: int, j: int| 0 <= i <= j < known@.len() implies node::distance(
            #[trigger] known@[i],
            key,
        ) <= node::distance(#[trigger] known@[j], key) by {
            assert(neighbors[n]@[i] == known@[i] && neighbors[n]@[j] == known@[j]);
        }
        law_newcomer_gets_what_it_enters_the_list_of(this, new, init, rest, records[n], known);
        assert forall|p: (Seq<u8>, Seq<u8>)| before.contains(p) implies after.contains(p) by {
            let c = choose|c: int| 0 <= c < before.len() && before[c] == p;
            assert(after[c] == p);
        }
        assert forall|r: int, i: int|
            #![trigger records[r], neighbors[r]@[i]]
            0 <= r < records.len() && 0 <= i < neighbors[r]@.len() && node::distance(
                this,
                node::node_of(records[r].0, None, None),
            ) < node::distance(neighbors[r]@[0], node::node_of(records[r].0, None, None))
                && node::distance(new, node::node_of(records[r].0, None, None)) < node::distance(
                neighbors[r]@[i],
                node::node_of(records[r].0, None, None),
            ) implies after.contains((records[r].0@, records[r].1@)) by {
            if r < n {
                assert(records[r] == init[r] && neighbors[r] == rest[r]);
                assert(rest[r]@[i] == neighbors[r]@[i]);
                assert(before.contains((init[r].0@, init[r].1@)));
            } else {
                assert forall|j: int| 0 <= j < known@.len() implies node::distance(this, key)
                    < node::distance(#[trigger] known@[j], key) by {
                    assert(node::distance(known@[0], key) <= node::distance(known@[j], key));
                }
                assert(node::distance(new, key) < node::distance(known@[i], key));
                assert(after[before.len() as int] == (records[n].0@, records[n].1@));
            }
        }
        assert forall|c: int| 0 <= c < after.len() implies exists|r: int|
            #![trigger records[r]]
            {
                &&& 0 <= r < records.len()
                &&& #[trigger] after[c] == (records[r].0@, records[r].1@)
                &&& neighbors[r]@.len() == 0 || exists|i: int|
                    0 <= i < neighbors[r]@.len() && node::distance(
                        new,
                        node::node_of(records[r].0, None, None),
                    ) < node::distance(
                        #[trigger] neighbors[r]@[i],
                        node::node_of(records[r].0, None, None),
                    )
            } by {
            if c < before.len() {
                assert(before[c] == after[c]);
                let r = choose|r: int|
                    #![trigger init[r]]
                    {
                        &&& 0 <= r < init.len()
                        &&& before[c] == (init[r].0@, init[r].1@)
                        &&& rest[r]@.len() == 0 || exists|i: int|
                            0 <= i < rest[r]@.len() && node::distance(
                                new,
                                node::node_of(init[r].0, None, None),
                            ) < node::distance(
                                #[trigger] rest[r]@[i],
                                node::node_of(init[r].0, None, None),
                            )
                    };
                assert(records[r] == init[r] && neighbors[r] == rest[r]);
            } else {
                assert(records[n] == records[n]);
            }
        }
    }
}

/// Any id of a range can be picked from it, and none outside of it.
pub proof fn law_refresh_ids_are_from_the_range(
    lo: LongId,
    hi: LongId,
    random: Seq<u8>,
    id: Seq<u8>,
)
    requires
        lo.value() <= hi.value(),
    ensures
        picks(lo, hi, random, id) ==> lo.value() <= long_id::be_value(id) <= hi.value(),
        lo.value() <= long_id::be_value(id) <= hi.value() && long_id::be_value(random)
            == long_id::be_value(id) - lo.value() ==> picks(lo, hi, random, id),
{
    let span = hi.value() - lo.value() + 1;
    let r = long_id::be_value(random) as int;
    assert(0 <= r % span < span) by (nonlinear_arith)
        requires
            span > 0,
    ;
    if r < span {
        assert(r % span == r) by (nonlinear_arith)
            requires
                0 <= r < span,
        ;
    }
}

/// As long as no other node is known near a record, every new node gets a copy.
pub proof fn law_lone_node_hands_everything_over(
    this: Node,
    new: Node,
    records: Seq<([u8; ID_LEN], Vec<u8>)>,
    neighbors: Seq<Vec<Node>>,
)
    requires
        neighbors.len() == records.len(),
        forall|i: int| 0 <= i < neighbors.len() ==> (#[trigger] neighbors[i])@.len() == 0,
    ensures
        handed_over(this, new, records, neighbors) == storage::id_pairs(records),
    decreases records.len(),
{
    if records.len() > 0 {
        let shorter = neighbors.drop_last();
        law_lone_node_hands_everything_over(this, new, records.drop_last(), shorter);
        lemma_handed_over_prefix(this, new, records.drop_last(), shorter, neighbors);
        assert(neighbors[records.len() - 1]@.len() == 0);
        assert(storage::id_pairs(records) =~= storage::id_pairs(records.drop_last()).push(
            (records.last().0@, records.last().1@),
        ));
    } else {
        assert(storage::id_pairs(records) =~= Seq::empty());
    }
}

proof fn lemma_handed_over_prefix(
    this: Node,
    new: Node,
    records: Seq<([u8; ID_LEN], Vec<u8>)>,
    a: Seq<Vec<Node>>,
    b: Seq<Vec<Node>>,
)
    requires
        records.len() <= a.len(),
        records.len() <= b.len(),
        forall|i: int| 0 <= i < records.len() ==> #[trigger] a[i] == b[i],
    ensures
        handed_over(this, new, records, a) == handed_over(this, new, records, b),
    decreases records.len(),
{
    if records.len() > 0 {
        lemma_handed_over_prefix(this, new, records.drop_last(), a, b);
        assert(a[records.len() - 1] == b[records.len() - 1]);
    }
}

} // verus!
