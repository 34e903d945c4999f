use auth_kademlia_rs::crawling::{FindPayload, RawResponse};
use auth_kademlia_rs::endpoint::Endpoint;
use auth_kademlia_rs::fragmentation::{encode_fragments, FRAG_CHUNK_SIZE, MAX_MESSAGE_SIZE};
use auth_kademlia_rs::long_id::LongId;
use auth_kademlia_rs::node::Node;
use auth_kademlia_rs::peers::{StrikeCounter, WelcomeQueue};
use auth_kademlia_rs::protocol::{
    append_status, conclude_call, conclude_find_node, conclude_find_value, conclude_ping,
    conclude_ping_node, conclude_store, read_status, refresh_id, rpc_message_name, Answers,
    ExpectedResponse, FindValueResult, Frame, FrameStep, KademliaProtocol, PeerAction, RpcMessage,
    StoreStatus, Verification, VerificationDomain, VerifyStep, WireNode,
    INVALID_SIG_BAN_THRESHOLD,
};
use auth_kademlia_rs::reassembly::{DatagramOutcome, MAX_REASSEMBLY_ENTRIES};
use auth_kademlia_rs::storage::{ForgetfulStorage, IStorage, StorageWriteStatus};
use auth_kademlia_rs::utils::{digest, ID_LEN};

const STATUS_LIST_KEY: &str = "status-list";

fn test_protocol() -> KademliaProtocol {
    KademliaProtocol::new(Node::from_id([1; ID_LEN]), digest(STATUS_LIST_KEY), 0)
}

fn endpoint(port: u16) -> Endpoint {
    Endpoint::V4 { ipv4: 0x7f00_0001, port }
}

fn addr(port: u16) -> (String, u16) {
    ("127.0.0.1".to_string(), port)
}

fn contact(id: u8, port: u16) -> Node {
    Node::new([id; ID_LEN], Some("127.0.0.1".to_string()), Some(port))
}

fn answers(verified: bool) -> Answers {
    Answers { verified, neighbors: vec![], registered: None }
}

/// Registers requests until one has the given id, and leaves only that one waiting.
fn pending_request(protocol: &mut KademliaProtocol, msg_id: u32, to: Endpoint, make: fn() -> RpcMessage) {
    loop {
        let frame = protocol.call(to, make());
        if frame.msg_id == msg_id {
            return;
        }
        protocol.abandon_call(frame.msg_id);
    }
}

fn ping() -> RpcMessage {
    RpcMessage::Ping { sender_id: [1; ID_LEN] }
}

fn store() -> RpcMessage {
    RpcMessage::Store { sender_id: [1; ID_LEN], key: [2; ID_LEN], value: vec![] }
}

fn response(msg_id: u32, message: RpcMessage) -> Frame {
    Frame { msg_id, is_request: false, message }
}

#[test]
fn update_status_list_cannot_overwrite_a_did_record() {
    let mut protocol = test_protocol();
    let mut storage = ForgetfulStorage::new(-1);
    let did_key = [7; ID_LEN];
    let old_record = b"legitimate did record".to_vec();
    let issuer_record = b"issuer-signed status list".to_vec();
    storage.set_at(did_key.to_vec(), old_record.clone(), 0);

    let (ok, _) = protocol.rpc_update_status_list(
        &mut storage,
        [2; ID_LEN],
        ("127.0.0.1".into(), 9000),
        did_key,
        issuer_record.clone(),
        true,
        1,
    );
    assert!(!ok);
    assert_eq!(storage.get_at(&did_key, 1), Some(old_record));

    let status_key = digest(STATUS_LIST_KEY);
    storage.set_at(status_key.to_vec(), b"old status list".to_vec(), 1);
    let (ok, _) = protocol.rpc_update_status_list(
        &mut storage,
        [3; ID_LEN],
        ("127.0.0.1".into(), 9001),
        status_key,
        issuer_record.clone(),
        true,
        2,
    );
    assert!(ok);
    assert_eq!(storage.get_at(&status_key, 2), Some(issuer_record));

    let (ok, _) = protocol.rpc_update(
        &mut storage,
        [4; ID_LEN],
        ("127.0.0.1".into(), 9002),
        status_key,
        b"wrong update path".to_vec(),
        true,
        3,
    );
    assert!(!ok);
}

#[test]
fn issuer_and_self_signed_domains_are_separate() {
    let protocol = test_protocol();
    let ordinary_key = [8; ID_LEN];
    let status_key = digest(STATUS_LIST_KEY);
    assert_eq!(protocol.domain(&ordinary_key), VerificationDomain::SelfSigned);
    assert_eq!(protocol.domain(&status_key), VerificationDomain::IssuerSigned);
    assert!(matches!(
        protocol.verify_for_key(&ordinary_key, None),
        VerifyStep::Verify(VerificationDomain::SelfSigned)
    ));
    assert!(matches!(
        protocol.verify_for_key(&status_key, None),
        VerifyStep::Verify(VerificationDomain::IssuerSigned)
    ));
}

#[test]
fn cached_outcomes_are_final() {
    let protocol = test_protocol();
    let key = [13; ID_LEN];
    assert!(matches!(
        protocol.verify_for_key(&key, Some(false)),
        VerifyStep::Known(false)
    ));
    assert!(matches!(
        protocol.verify_for_key(&key, Some(true)),
        VerifyStep::Known(true)
    ));
}

#[test]
fn response_from_an_unexpected_endpoint_is_ignored() {
    let mut protocol = test_protocol();
    let expected_peer = endpoint(9200);
    let unexpected_peer = endpoint(9201);
    pending_request(&mut protocol, 42, expected_peer, store);

    let step = protocol.handle_frame(
        response(42, RpcMessage::StoreResult { ok: true }),
        unexpected_peer,
        addr(9201),
    );
    assert!(matches!(
        step,
        FrameStep::UnexpectedPeer { expected_peer: Endpoint::V4 { port: 9200, .. } }
    ));
    assert!(protocol.is_pending(42));

    let step = protocol.handle_frame(
        response(42, RpcMessage::StoreResult { ok: true }),
        expected_peer,
        addr(9200),
    );
    assert!(matches!(
        step,
        FrameStep::Response {
            message: RpcMessage::StoreResult { ok: true },
            action: PeerAction::Nothing
        }
    ));
    assert!(!protocol.is_pending(42));
}

#[test]
fn pong_from_unexpected_endpoint_does_not_update_routing_table() {
    let mut protocol = test_protocol();
    let expected_peer = endpoint(9210);
    let unexpected_peer = endpoint(9211);
    let expected_id = [10; ID_LEN];
    let unexpected_id = [11; ID_LEN];
    pending_request(&mut protocol, 43, expected_peer, ping);

    let step = protocol.handle_frame(
        response(43, RpcMessage::Pong { sender_id: unexpected_id }),
        unexpected_peer,
        addr(9211),
    );
    assert!(
        matches!(step, FrameStep::UnexpectedPeer { .. }),
        "an unexpected Pong must not update the routing table"
    );
    assert!(protocol.is_pending(43));

    let step = protocol.handle_frame(
        response(43, RpcMessage::Pong { sender_id: expected_id }),
        expected_peer,
        addr(9210),
    );
    match step {
        FrameStep::Response {
            message: RpcMessage::Pong { sender_id },
            action: PeerAction::Introduce(node),
        } => {
            assert_eq!(sender_id, expected_id);
            assert_eq!(node, contact(10, 9210));
            assert!(protocol.schedule_welcome_if_new(&node, true));
        }
        other => panic!(
            "a valid Pong from the expected endpoint should refresh routing: {other:?}"
        ),
    }
}

#[test]
fn pong_for_pending_store_response_does_not_update_routing_table() {
    let mut protocol = test_protocol();
    let expected_peer = endpoint(9220);
    let pong_id = [12; ID_LEN];
    pending_request(&mut protocol, 44, expected_peer, store);

    let step = protocol.handle_frame(
        response(44, RpcMessage::Pong { sender_id: pong_id }),
        expected_peer,
        addr(9220),
    );
    assert!(
        matches!(
            step,
            FrameStep::UnexpectedKind { expected: ExpectedResponse::StoreResult }
        ),
        "a Pong must not update routing for a non-Ping pending RPC"
    );
    assert!(protocol.is_pending(44));

    let step = protocol.handle_frame(
        response(44, RpcMessage::StoreResult { ok: true }),
        expected_peer,
        addr(9220),
    );
    assert!(matches!(
        step,
        FrameStep::Response { message: RpcMessage::StoreResult { ok: true }, .. }
    ));
}

#[test]
fn leave_requires_the_registered_endpoint() {
    let protocol = test_protocol();
    let registered = Node::new([9; ID_LEN], Some("127.0.0.1".into()), Some(9300));

    let action = protocol.rpc_leave(
        registered.id,
        ("127.0.0.1".into(), 9301),
        Some(registered.clone()),
    );
    assert!(matches!(action, PeerAction::Nothing));

    let action = protocol.rpc_leave(
        registered.id,
        ("127.0.0.1".into(), 9300),
        Some(registered.clone()),
    );
    assert!(matches!(action, PeerAction::Remove(node) if node == registered));

    let action = protocol.rpc_leave(registered.id, ("127.0.0.1".into(), 9300), None);
    assert!(matches!(action, PeerAction::Nothing));
}

#[test]
fn oversized_fragment_never_enters_reassembly() {
    let mut protocol = test_protocol();
    let mut fragment = encode_fragments(100, &vec![0; FRAG_CHUNK_SIZE + 1])
        .into_iter()
        .next()
        .unwrap();
    fragment.push(0);

    let outcome = protocol.handle_datagram(&fragment, endpoint(9600), 0);
    assert!(matches!(outcome, DatagramOutcome::Oversized));
    assert_eq!(protocol.reassembly_len(), 0);
}

#[test]
fn reassembly_limits_entries_and_discards_inconsistent_totals() {
    let mut protocol = test_protocol();
    let incomplete = encode_fragments(0, &vec![0; FRAG_CHUNK_SIZE + 1]);
    for port in 9400..(9400 + MAX_REASSEMBLY_ENTRIES as u16 + 1) {
        protocol.handle_datagram(&incomplete[0], endpoint(port), 0);
    }
    assert_eq!(
        protocol.reassembly_len(),
        MAX_REASSEMBLY_ENTRIES,
        "the global in-flight reassembly limit must be enforced"
    );

    let mut fresh_protocol = test_protocol();
    let two_fragments = encode_fragments(99, &vec![0; FRAG_CHUNK_SIZE + 1]);
    let three_fragments = encode_fragments(99, &vec![0; FRAG_CHUNK_SIZE * 2 + 1]);
    fresh_protocol.handle_datagram(&two_fragments[0], endpoint(9500), 0);
    fresh_protocol.handle_datagram(&three_fragments[0], endpoint(9500), 0);
    assert_eq!(
        fresh_protocol.reassembly_len(),
        0,
        "an inconsistent fragment total must not poison the reassembly slot"
    );
}

#[test]
fn each_request_waits_for_its_kind() {
    let id = [1; ID_LEN];
    let cases = vec![
        (RpcMessage::Ping { sender_id: id }, ExpectedResponse::Pong, "Ping", "Pong"),
        (
            RpcMessage::Store { sender_id: id, key: id, value: vec![] },
            ExpectedResponse::StoreResult,
            "Store",
            "StoreResult",
        ),
        (
            RpcMessage::Update { sender_id: id, key: id, value: vec![], auth_signature: vec![] },
            ExpectedResponse::UpdateResult,
            "Update",
            "UpdateResult",
        ),
        (
            RpcMessage::UpdateStatusList { sender_id: id, key: id, value: vec![] },
            ExpectedResponse::UpdateStatusListResult,
            "UpdateStatusList",
            "UpdateStatusListResult",
        ),
        (
            RpcMessage::Delete {
                sender_id: id,
                key: id,
                auth_signature: vec![],
                delete_msg: vec![],
            },
            ExpectedResponse::DeleteResult,
            "Delete",
            "DeleteResult",
        ),
        (
            RpcMessage::FindNode { sender_id: id, key: id },
            ExpectedResponse::FindNodeResult,
            "FindNode",
            "FindNodeResult",
        ),
        (
            RpcMessage::FindValue { sender_id: id, key: id },
            ExpectedResponse::FindValueResult,
            "FindValue",
            "FindValueHit|FindValueNodes",
        ),
        (
            RpcMessage::Leave { sender_id: id },
            ExpectedResponse::NoResponse,
            "Leave",
            "no response",
        ),
    ];
    for (message, expected, name, expected_name) in cases {
        assert_eq!(ExpectedResponse::for_request(&message), expected);
        assert_eq!(rpc_message_name(&message), name);
        assert_eq!(expected.name(), expected_name);
        assert!(!expected.accepts(&message));
    }
}

#[test]
fn each_response_fits_one_kind() {
    let kinds = [
        ExpectedResponse::Pong,
        ExpectedResponse::StoreResult,
        ExpectedResponse::UpdateResult,
        ExpectedResponse::UpdateStatusListResult,
        ExpectedResponse::DeleteResult,
        ExpectedResponse::FindNodeResult,
        ExpectedResponse::FindValueResult,
        ExpectedResponse::NoResponse,
    ];
    let responses = vec![
        (RpcMessage::Pong { sender_id: [0; ID_LEN] }, "Pong"),
        (RpcMessage::StoreResult { ok: true }, "StoreResult"),
        (RpcMessage::UpdateResult { ok: true }, "UpdateResult"),
        (RpcMessage::UpdateStatusListResult { ok: true }, "UpdateStatusListResult"),
        (RpcMessage::DeleteResult { ok: true }, "DeleteResult"),
        (RpcMessage::FindNodeResult { nodes: vec![] }, "FindNodeResult"),
        (RpcMessage::FindValueHit { value: vec![] }, "FindValueHit"),
        (RpcMessage::FindValueNodes { nodes: vec![] }, "FindValueNodes"),
    ];
    for (message, name) in responses {
        let accepting: Vec<_> = kinds.iter().filter(|kind| kind.accepts(&message)).collect();
        assert_eq!(accepting.len(), 1);
        assert!(accepting[0].name().contains(name));
        assert_eq!(rpc_message_name(&message), name);
        assert_eq!(
            ExpectedResponse::for_request(&message),
            ExpectedResponse::NoResponse
        );
    }
}

#[test]
fn nodes_survive_the_wire() {
    let node = contact(5, 77);
    let wire = WireNode::from(&node);
    assert_eq!(wire.id, node.id);
    assert_eq!(wire.ip, node.ip);
    assert_eq!(wire.port, node.port);
    assert_eq!(Node::from(wire), node);
}

#[test]
fn write_statuses_are_passed_on() {
    assert_eq!(StoreStatus::from(StorageWriteStatus::Stored), StoreStatus::Stored);
    assert_eq!(
        StoreStatus::from(StorageWriteStatus::AlreadyStored),
        StoreStatus::AlreadyStored
    );
    assert_eq!(StoreStatus::from(StorageWriteStatus::Conflict), StoreStatus::Conflict);
    assert_eq!(
        StoreStatus::from(StorageWriteStatus::CapacityExceeded),
        StoreStatus::CapacityExceeded
    );
}

#[test]
fn requests_are_numbered_and_fragments_too() {
    let mut protocol = test_protocol();
    let first = protocol.call(endpoint(1), ping());
    let second = protocol.call(endpoint(1), ping());
    assert_eq!((first.msg_id, first.is_request), (0, true));
    assert_eq!(second.msg_id, 1);
    let a = protocol.send_frame(b"one").unwrap();
    let b = protocol.send_frame(b"two").unwrap();
    assert_eq!(a, encode_fragments(0, b"one"));
    assert_eq!(b, encode_fragments(1, b"two"));
}

#[test]
fn frames_that_are_too_large_are_not_sent() {
    let mut protocol = test_protocol();
    assert!(protocol.send_frame(&vec![0; MAX_MESSAGE_SIZE + 1]).is_none());
    // No fragment id was used up.
    let sent = protocol.send_frame(&vec![0; MAX_MESSAGE_SIZE]).unwrap();
    assert_eq!(sent[0], encode_fragments(0, &vec![0; MAX_MESSAGE_SIZE])[0]);
}

#[test]
fn a_sent_frame_arrives() {
    let mut sender = test_protocol();
    let mut receiver = test_protocol();
    let bytes: Vec<u8> = (0..5000u32).map(|i| (i % 7) as u8).collect();
    let datagrams = sender.send_frame(&bytes).unwrap();
    let mut arrived = vec![];
    for datagram in datagrams.iter().rev() {
        if let DatagramOutcome::Complete(message) =
            receiver.handle_datagram(datagram, endpoint(5), 0)
        {
            arrived.push(message);
        }
    }
    assert_eq!(arrived, vec![bytes]);
    assert_eq!(receiver.reassembly_len(), 0);
}

#[test]
fn stale_fragments_are_collected() {
    let mut protocol = test_protocol();
    let dgs = encode_fragments(1, &vec![0; FRAG_CHUNK_SIZE + 1]);
    protocol.handle_datagram(&dgs[0], endpoint(1), 0);
    protocol.gc_reassembly(9_999_999_999);
    assert_eq!(protocol.reassembly_len(), 1);
    protocol.gc_reassembly(11_000_000_000);
    assert_eq!(protocol.reassembly_len(), 0);
}

#[test]
fn responses_to_nothing_and_late_responses_are_dropped() {
    let mut protocol = test_protocol();
    let frame = protocol.call(endpoint(1), ping());
    protocol.abandon_call(frame.msg_id);
    let step = protocol.handle_frame(
        response(frame.msg_id, RpcMessage::Pong { sender_id: [3; ID_LEN] }),
        endpoint(1),
        addr(1),
    );
    assert!(matches!(step, FrameStep::NotPending));
}

#[test]
fn requests_are_passed_on() {
    let mut protocol = test_protocol();
    let frame = Frame { msg_id: 9, is_request: true, message: ping() };
    assert!(matches!(
        protocol.handle_frame(frame, endpoint(1), addr(1)),
        FrameStep::Request { msg_id: 9, message: RpcMessage::Ping { .. } }
    ));
}

#[test]
fn discoveries_coalesce_and_are_bounded() {
    let mut protocol = test_protocol();
    let a = contact(2, 1);
    let b = contact(3, 2);
    assert!(!protocol.schedule_welcome_if_new(&a, false));
    assert!(protocol.schedule_welcome_if_new(&a, true));
    assert!(!protocol.schedule_welcome_if_new(&a, true));
    assert!(!protocol.schedule_welcome_if_new(&b, true));
    // A peer that is not being welcomed frees no place.
    protocol.finish_welcome(&b.id);
    assert!(!protocol.schedule_welcome_if_new(&b, true));
    protocol.finish_welcome(&a.id);
    assert!(protocol.schedule_welcome_if_new(&b, true));
}

#[test]
fn a_refused_discovery_can_be_retried() {
    let mut queue = WelcomeQueue::new();
    assert!(queue.start([1; ID_LEN]));
    assert!(!queue.start([2; ID_LEN]));
    queue.finish(&[1; ID_LEN]);
    assert!(queue.start([2; ID_LEN]));
    assert!(!queue.start([2; ID_LEN]));
}

#[test]
fn strikes_are_counted_per_peer() {
    let mut strikes = StrikeCounter::new();
    assert_eq!(strikes.count(&[1; ID_LEN]), 0);
    assert_eq!(strikes.record([1; ID_LEN]), 1);
    assert_eq!(strikes.record([1; ID_LEN]), 2);
    assert_eq!(strikes.record([2; ID_LEN]), 1);
    assert_eq!(strikes.count(&[1; ID_LEN]), 2);
}

#[test]
fn pings_are_answered_and_introduce_the_sender() {
    let protocol = test_protocol();
    let (id, action) = protocol.rpc_ping([5; ID_LEN], addr(55));
    assert_eq!(id, [1; ID_LEN]);
    assert!(matches!(action, PeerAction::Introduce(node) if node == contact(5, 55)));
}

#[test]
fn the_third_invalid_record_drops_the_peer() {
    let mut protocol = test_protocol();
    let mut storage = ForgetfulStorage::new(-1);
    for strike in 1..=INVALID_SIG_BAN_THRESHOLD {
        let (status, action) = protocol.rpc_store(
            &mut storage,
            [5; ID_LEN],
            addr(55),
            [6; ID_LEN],
            b"forged".to_vec(),
            false,
            0,
        );
        assert_eq!(status, StoreStatus::InvalidRecord);
        assert_eq!(protocol.strikes(&[5; ID_LEN]), strike);
        if strike < INVALID_SIG_BAN_THRESHOLD {
            assert!(matches!(action, PeerAction::Introduce(_)));
        } else {
            assert!(matches!(action, PeerAction::Remove(node) if node == contact(5, 55)));
        }
    }
    assert_eq!(storage.get_at(&[6; ID_LEN], 0), None);
}

#[test]
fn stores_are_granted_once_per_value() {
    let mut protocol = test_protocol();
    let mut storage = ForgetfulStorage::with_max_storage_bytes(-1, 30);
    let mut store = |key: u8, value: &[u8]| {
        let (status, action) = protocol.rpc_store(
            &mut storage,
            [5; ID_LEN],
            addr(55),
            [key; ID_LEN],
            value.to_vec(),
            true,
            0,
        );
        assert_eq!(status.granted(), matches!(action, PeerAction::Introduce(_)));
        assert_eq!(status.granted(), !matches!(action, PeerAction::Nothing));
        (status, status.granted())
    };
    assert_eq!(store(6, b"value"), (StoreStatus::Stored, true));
    assert_eq!(store(6, b"value"), (StoreStatus::AlreadyStored, true));
    assert_eq!(store(6, b"other"), (StoreStatus::Conflict, false));
    assert_eq!(store(7, b"too much"), (StoreStatus::CapacityExceeded, false));
}

#[test]
fn the_publisher_learns_what_became_of_the_record() {
    let mut protocol = test_protocol();
    let mut storage = ForgetfulStorage::with_max_storage_bytes(-1, 30);
    let cases: [(u8, &[u8], bool, StoreStatus); 5] = [
        (6, b"forged", false, StoreStatus::InvalidRecord),
        (6, b"value", true, StoreStatus::Stored),
        (6, b"value", true, StoreStatus::AlreadyStored),
        (6, b"other", true, StoreStatus::Conflict),
        (7, b"too much", true, StoreStatus::CapacityExceeded),
    ];
    for (key, value, verified, expected) in cases {
        let request = RpcMessage::Store {
            sender_id: [5; ID_LEN],
            key: [key; ID_LEN],
            value: value.to_vec(),
        };
        let (reply, _, status) =
            protocol.dispatch_request(&mut storage, request, addr(1), answers(verified), 0);
        assert!(matches!(
            reply,
            Some(RpcMessage::StoreResult { ok }) if ok == expected.granted()
        ));
        let mut bytes = b"frame".to_vec();
        append_status(&mut bytes, status);
        assert_eq!(&bytes[..5], b"frame");
        let (reported, action) = conclude_store(contact(5, 55), reply, read_status(&bytes[5..]));
        assert_eq!(reported, Some(expected));
        assert!(matches!(action, PeerAction::Nothing));
    }
}

#[test]
fn a_status_is_read_back_from_behind_the_frame() {
    let statuses = [
        (StoreStatus::Stored, 0u8),
        (StoreStatus::AlreadyStored, 1),
        (StoreStatus::Conflict, 2),
        (StoreStatus::CapacityExceeded, 3),
        (StoreStatus::InvalidRecord, 4),
    ];
    for (status, byte) in statuses {
        let mut bytes = vec![];
        append_status(&mut bytes, Some(status));
        assert_eq!(bytes, vec![byte]);
        assert_eq!(read_status(&bytes), Some(status));
    }
    let mut bytes = vec![9];
    append_status(&mut bytes, None);
    assert_eq!(bytes, vec![9]);
    assert_eq!(read_status(&[]), None);
    assert_eq!(read_status(&[5]), None);
    assert_eq!(read_status(&[0, 0]), None);
}

#[test]
fn a_store_call_is_concluded_by_its_answer() {
    let peer = contact(5, 55);
    let granted = || Some(RpcMessage::StoreResult { ok: true });
    let refused = || Some(RpcMessage::StoreResult { ok: false });
    let conclude = |reply, status| {
        let (reported, action) = conclude_store(peer.clone(), reply, status);
        assert!(matches!(action, PeerAction::Nothing));
        reported
    };
    // Without a status, a grant is a grant and a refusal has no cause.
    assert_eq!(conclude(granted(), None), Some(StoreStatus::Stored));
    assert_eq!(conclude(refused(), None), None);
    // A status that contradicts the answer does not count.
    assert_eq!(conclude(granted(), Some(StoreStatus::Conflict)), Some(StoreStatus::Stored));
    assert_eq!(conclude(refused(), Some(StoreStatus::Stored)), None);
    for reply in [None, Some(RpcMessage::UpdateResult { ok: true })] {
        let (reported, action) = conclude_store(peer.clone(), reply, Some(StoreStatus::Stored));
        assert_eq!(reported, None);
        assert!(matches!(action, PeerAction::Remove(node) if node == peer));
    }
}

#[test]
fn updates_need_a_record_and_an_authorisation() {
    let mut protocol = test_protocol();
    let mut storage = ForgetfulStorage::new(-1);
    let key = [6; ID_LEN];
    let (ok, _) =
        protocol.rpc_update(&mut storage, [5; ID_LEN], addr(1), key, b"new".to_vec(), true, 0);
    assert!(!ok);
    storage.set_at(key.to_vec(), b"old".to_vec(), 0);
    let (ok, action) =
        protocol.rpc_update(&mut storage, [5; ID_LEN], addr(1), key, b"new".to_vec(), false, 0);
    assert!(!ok);
    assert!(matches!(action, PeerAction::Nothing));
    assert_eq!(storage.get_at(&key, 0), Some(b"old".to_vec()));
    let (ok, action) =
        protocol.rpc_update(&mut storage, [5; ID_LEN], addr(1), key, b"new".to_vec(), true, 0);
    assert!(ok);
    assert!(matches!(action, PeerAction::Introduce(_)));
    assert_eq!(storage.get_at(&key, 0), Some(b"new".to_vec()));
}

#[test]
fn deletions_need_a_record_and_an_authorisation() {
    let mut protocol = test_protocol();
    let mut storage = ForgetfulStorage::new(-1);
    let key = [6; ID_LEN];
    assert!(!protocol.rpc_delete(&mut storage, [5; ID_LEN], addr(1), key, true, 0).0);
    storage.set_at(key.to_vec(), b"old".to_vec(), 0);
    assert!(!protocol.rpc_delete(&mut storage, [5; ID_LEN], addr(1), key, false, 0).0);
    assert!(storage.get_at(&key, 0).is_some());
    assert!(protocol.rpc_delete(&mut storage, [5; ID_LEN], addr(1), key, true, 0).0);
    assert!(storage.get_at(&key, 0).is_none());
}

#[test]
fn lookups_give_the_value_or_the_neighbors() {
    let protocol = test_protocol();
    let mut storage = ForgetfulStorage::new(-1);
    let key = [6; ID_LEN];
    let neighbors = vec![contact(8, 8)];
    let (nodes, _) = protocol.rpc_find_node([5; ID_LEN], addr(1), neighbors.clone());
    assert_eq!(nodes, neighbors);
    let (result, _) =
        protocol.rpc_find_value(&storage, [5; ID_LEN], addr(1), key, neighbors.clone(), 0);
    assert!(matches!(result, FindValueResult::Nodes(nodes) if nodes == neighbors));
    storage.set_at(key.to_vec(), b"v".to_vec(), 0);
    let (result, action) = protocol.rpc_find_value(&storage, [5; ID_LEN], addr(1), key, neighbors, 0);
    assert!(matches!(result, FindValueResult::Value(value) if value == b"v"));
    assert!(matches!(action, PeerAction::Introduce(node) if node == contact(5, 1)));
}

#[test]
fn verification_is_asked_for_where_it_matters() {
    let protocol = test_protocol();
    let mut storage = ForgetfulStorage::new(-1);
    let id = [5; ID_LEN];
    let key = [6; ID_LEN];
    let status_key = digest(STATUS_LIST_KEY);
    let update = |key| RpcMessage::Update {
        sender_id: id,
        key,
        value: vec![],
        auth_signature: vec![],
    };
    let status = |key| RpcMessage::UpdateStatusList { sender_id: id, key, value: vec![] };
    let delete = RpcMessage::Delete {
        sender_id: id,
        key,
        auth_signature: vec![],
        delete_msg: vec![],
    };

    assert!(matches!(
        protocol.verification_of(&storage, &store(), 0),
        Verification::Record
    ));
    assert!(matches!(
        protocol.verification_of(&storage, &update(key), 0),
        Verification::NotNeeded
    ));
    assert!(matches!(
        protocol.verification_of(&storage, &delete, 0),
        Verification::NotNeeded
    ));
    storage.set_at(key.to_vec(), b"old".to_vec(), 0);
    storage.set_at(status_key.to_vec(), b"list".to_vec(), 0);
    assert!(matches!(
        protocol.verification_of(&storage, &update(key), 0),
        Verification::Update(old) if old == b"old"
    ));
    assert!(matches!(
        protocol.verification_of(&storage, &update(status_key), 0),
        Verification::NotNeeded
    ));
    assert!(matches!(
        protocol.verification_of(&storage, &status(key), 0),
        Verification::NotNeeded
    ));
    assert!(matches!(
        protocol.verification_of(&storage, &status(status_key), 0),
        Verification::Issuer
    ));
    assert!(matches!(
        protocol.verification_of(&storage, &delete, 0),
        Verification::Deletion(old) if old == b"old"
    ));
    assert!(matches!(
        protocol.verification_of(&storage, &ping(), 0),
        Verification::NotNeeded
    ));
}

#[test]
fn lookups_name_their_target_and_sender() {
    let protocol = test_protocol();
    let message = RpcMessage::FindNode { sender_id: [5; ID_LEN], key: [6; ID_LEN] };
    assert_eq!(
        protocol.lookup_target(&message, addr(1)),
        Some((Node::from_id([6; ID_LEN]), contact(5, 1)))
    );
    assert_eq!(protocol.lookup_target(&ping(), addr(1)), None);
}

#[test]
fn replies_fit_their_requests() {
    let mut protocol = test_protocol();
    let mut storage = ForgetfulStorage::new(-1);
    let id = [5; ID_LEN];
    let requests = vec![
        ping(),
        store(),
        RpcMessage::Update { sender_id: id, key: id, value: vec![1], auth_signature: vec![] },
        RpcMessage::UpdateStatusList { sender_id: id, key: id, value: vec![] },
        RpcMessage::FindNode { sender_id: id, key: id },
        RpcMessage::FindValue { sender_id: id, key: id },
        RpcMessage::FindValue { sender_id: id, key: [2; ID_LEN] },
        RpcMessage::Delete { sender_id: id, key: id, auth_signature: vec![], delete_msg: vec![] },
        RpcMessage::Leave { sender_id: id },
        RpcMessage::StoreResult { ok: true },
    ];
    for request in requests {
        let expected = ExpectedResponse::for_request(&request);
        let is_store = matches!(request, RpcMessage::Store { .. });
        let (reply, _, status) =
            protocol.dispatch_request(&mut storage, request, addr(1), answers(true), 0);
        assert_eq!(status.is_some(), is_store);
        match reply {
            Some(reply) => assert!(expected.accepts(&reply)),
            None => assert_eq!(expected, ExpectedResponse::NoResponse),
        }
    }
}

#[test]
fn lookups_reply_with_the_neighbors_on_the_wire() {
    let mut protocol = test_protocol();
    let mut storage = ForgetfulStorage::new(-1);
    let known = Answers {
        verified: false,
        neighbors: vec![contact(8, 80)],
        registered: None,
    };
    let request = RpcMessage::FindNode { sender_id: [5; ID_LEN], key: [6; ID_LEN] };
    let (reply, action, _) = protocol.dispatch_request(&mut storage, request, addr(1), known, 0);
    match reply {
        Some(RpcMessage::FindNodeResult { nodes }) => {
            assert_eq!(nodes.len(), 1);
            assert_eq!(Node::from(nodes[0].clone()), contact(8, 80));
        }
        other => panic!("unexpected {other:?}"),
    }
    assert!(matches!(action, PeerAction::Introduce(_)));
}

#[test]
fn a_departing_peer_is_removed_without_a_reply() {
    let mut protocol = test_protocol();
    let mut storage = ForgetfulStorage::new(-1);
    let known = Answers {
        verified: false,
        neighbors: vec![],
        registered: Some(contact(5, 1)),
    };
    let request = RpcMessage::Leave { sender_id: [5; ID_LEN] };
    let (reply, action, _) = protocol.dispatch_request(&mut storage, request, addr(1), known, 0);
    assert!(reply.is_none());
    assert!(matches!(action, PeerAction::Remove(node) if node == contact(5, 1)));
}

#[test]
fn calls_carry_the_own_id_and_the_address() {
    let protocol = test_protocol();
    let peer = contact(5, 55);
    let call = protocol.call_store_rpc(&peer, [6; ID_LEN], b"v".to_vec()).unwrap();
    assert_eq!(call.address, addr(55));
    assert!(matches!(
        call.message,
        RpcMessage::Store { sender_id, key, value }
            if sender_id == [1; ID_LEN] && key == [6; ID_LEN] && value == b"v"
    ));
    assert!(protocol
        .call_store_rpc(&Node::from_id([5; ID_LEN]), [6; ID_LEN], vec![])
        .is_none());
    assert!(matches!(
        protocol.call_update_rpc(&peer, [6; ID_LEN], vec![1], vec![2]).unwrap().message,
        RpcMessage::Update { value, auth_signature, .. }
            if value == [1] && auth_signature == [2]
    ));
    assert!(matches!(
        protocol.call_status_list_update_rpc(&peer, [6; ID_LEN], vec![1]).unwrap().message,
        RpcMessage::UpdateStatusList { value, .. } if value == [1]
    ));
    assert!(matches!(
        protocol.call_delete_rpc(&peer, [6; ID_LEN], vec![1], vec![2]).unwrap().message,
        RpcMessage::Delete { auth_signature, delete_msg, .. }
            if auth_signature == [1] && delete_msg == [2]
    ));
    assert!(matches!(
        protocol.call_leave_rpc(&peer).unwrap().message,
        RpcMessage::Leave { sender_id } if sender_id == [1; ID_LEN]
    ));
    assert!(matches!(
        protocol.call_ping_node(&peer).unwrap().message,
        RpcMessage::Ping { sender_id } if sender_id == [1; ID_LEN]
    ));
    let target = Node::from_id([9; ID_LEN]);
    assert!(matches!(
        protocol.call_find_node(&peer, &target).unwrap().message,
        RpcMessage::FindNode { key, .. } if key == [9; ID_LEN]
    ));
    assert!(matches!(
        protocol.call_find_value(&peer, &target).unwrap().message,
        RpcMessage::FindValue { key, .. } if key == [9; ID_LEN]
    ));
}

#[test]
fn peers_that_do_not_answer_are_removed() {
    let peer = contact(5, 55);
    let (ok, action) = conclude_call(
        peer.clone(),
        ExpectedResponse::StoreResult,
        Some(RpcMessage::StoreResult { ok: true }),
    );
    assert!(ok);
    assert!(matches!(action, PeerAction::Nothing));
    let (ok, action) = conclude_call(
        peer.clone(),
        ExpectedResponse::DeleteResult,
        Some(RpcMessage::DeleteResult { ok: false }),
    );
    assert!(!ok);
    assert!(matches!(action, PeerAction::Nothing));
    for reply in [None, Some(RpcMessage::StoreResult { ok: true })] {
        let (ok, action) = conclude_call(peer.clone(), ExpectedResponse::UpdateResult, reply);
        assert!(!ok);
        assert!(matches!(action, PeerAction::Remove(node) if node == peer));
    }
    assert!(matches!(
        conclude_ping_node(peer.clone(), None),
        PeerAction::Remove(node) if node == peer
    ));
    assert!(matches!(
        conclude_ping_node(peer, Some(RpcMessage::Pong { sender_id: [5; ID_LEN] })),
        PeerAction::Nothing
    ));
}

#[test]
fn pings_give_the_id_of_the_peer() {
    assert_eq!(
        conclude_ping(Some(RpcMessage::Pong { sender_id: [5; ID_LEN] })),
        (true, vec![5; ID_LEN])
    );
    assert_eq!(conclude_ping(None), (false, vec![]));
}

#[test]
fn lookups_at_a_peer_are_concluded() {
    let peer = contact(5, 55);
    let wire = || vec![WireNode::from(&contact(8, 80))];
    let (raw, action) =
        conclude_find_node(peer.clone(), Some(RpcMessage::FindNodeResult { nodes: wire() }));
    match raw {
        RawResponse(true, FindPayload::Nodes(nodes)) => assert_eq!(
            nodes,
            vec![(vec![8; ID_LEN], Some("127.0.0.1".to_string()), Some(80))]
        ),
        other => panic!("unexpected {other:?}"),
    }
    assert!(matches!(action, PeerAction::Introduce(node) if node == peer));
    let (raw, action) = conclude_find_node(peer.clone(), None);
    assert!(matches!(raw, RawResponse(false, FindPayload::Empty)));
    assert!(matches!(action, PeerAction::Remove(_)));
    let (raw, _) =
        conclude_find_value(peer.clone(), Some(RpcMessage::FindValueHit { value: vec![7] }));
    assert!(matches!(raw, RawResponse(true, FindPayload::Value(value)) if value == [7]));
    let (raw, _) =
        conclude_find_value(peer.clone(), Some(RpcMessage::FindValueNodes { nodes: wire() }));
    assert!(matches!(raw, RawResponse(true, FindPayload::Nodes(nodes)) if nodes.len() == 1));
    let (raw, action) = conclude_find_value(peer, Some(RpcMessage::StoreResult { ok: true }));
    assert!(matches!(raw, RawResponse(false, FindPayload::Empty)));
    assert!(matches!(action, PeerAction::Remove(_)));
}

fn id_with_last_byte(last: u8) -> [u8; ID_LEN] {
    let mut id = [0; ID_LEN];
    id[ID_LEN - 1] = last;
    id
}

#[test]
fn new_nodes_get_the_records_they_are_close_to() {
    let protocol = KademliaProtocol::new(Node::from_id(id_with_last_byte(1)), [9; ID_LEN], 0);
    let new = Node::from_id(id_with_last_byte(2));
    let records = vec![
        (id_with_last_byte(0), b"a".to_vec()),
        (id_with_last_byte(0x80), b"b".to_vec()),
        (id_with_last_byte(0x40), b"c".to_vec()),
    ];
    let far = vec![Node::from_id(id_with_last_byte(0x10)), Node::from_id(id_with_last_byte(0x20))];
    let near = vec![Node::from_id(id_with_last_byte(0x81)), Node::from_id(id_with_last_byte(0x82))];
    let copies = protocol
        .welcome_if_new(&new, true, &records, &vec![far, near, vec![]])
        .unwrap();
    assert_eq!(copies, vec![records[0].clone(), records[2].clone()]);
    assert!(protocol
        .welcome_if_new(&new, false, &records, &vec![vec![], vec![], vec![]])
        .is_none());
}

#[test]
fn only_the_closest_node_copies_a_record() {
    let protocol = KademliaProtocol::new(Node::from_id(id_with_last_byte(8)), [9; ID_LEN], 0);
    let new = Node::from_id(id_with_last_byte(2));
    let records = vec![(id_with_last_byte(0), b"a".to_vec())];
    let neighbors = vec![vec![
        Node::from_id(id_with_last_byte(4)),
        Node::from_id(id_with_last_byte(0x20)),
    ]];
    assert_eq!(
        protocol.welcome_if_new(&new, true, &records, &neighbors),
        Some(vec![])
    );
}

fn number(n: u64) -> LongId {
    LongId { w3: 0, w2: 0, w1: 0, w0: n }
}

#[test]
fn refresh_ids_are_picked_from_the_range() {
    let mut random = [0u8; ID_LEN];
    random[ID_LEN - 1] = 25;
    // 100 + 25 % 10
    assert_eq!(
        refresh_id(number(100), number(109), &random),
        id_with_last_byte(105)
    );
    // The whole space.
    let top = LongId { w3: 0, w2: 0xffff_ffff, w1: u64::MAX, w0: u64::MAX };
    assert_eq!(refresh_id(number(0), top, &[0xab; ID_LEN]), [0xab; ID_LEN]);
}

#[test]
fn every_range_gets_a_refresh_id() {
    let protocol = test_protocol();
    let ids = protocol.get_refresh_ids(&vec![
        (number(0), number(9)),
        (number(200), number(200)),
    ]);
    assert_eq!(ids.len(), 2);
    assert!(ids[0][ID_LEN - 1] <= 9);
    assert_eq!(ids[1], id_with_last_byte(200));
}

#[test]
fn a_response_counts_once() {
    let mut protocol = test_protocol();
    let frame = protocol.call(endpoint(1), store());
    let answer = || response(frame.msg_id, RpcMessage::StoreResult { ok: true });
    assert!(matches!(
        protocol.handle_frame(answer(), endpoint(1), addr(1)),
        FrameStep::Response { .. }
    ));
    assert!(matches!(
        protocol.handle_frame(answer(), endpoint(1), addr(1)),
        FrameStep::NotPending
    ));
}

#[test]
fn of_two_close_nodes_only_one_copies() {
    let records = vec![(id_with_last_byte(0), b"a".to_vec())];
    let new = Node::from_id(id_with_last_byte(1));
    let copies = |own: u8, other: u8| {
        KademliaProtocol::new(Node::from_id(id_with_last_byte(own)), [9; ID_LEN], 0)
            .welcome_if_new(
                &new,
                true,
                &records,
                &vec![vec![Node::from_id(id_with_last_byte(other))]],
            )
            .unwrap()
            .len()
    };
    assert_eq!(copies(2, 3), 1);
    assert_eq!(copies(3, 2), 0);
}

#[test]
fn a_replacement_without_room_is_granted_without_effect() {
    let mut protocol = test_protocol();
    let mut storage = ForgetfulStorage::with_max_storage_bytes(-1, 22);
    let key = [6; ID_LEN];
    storage.set_at(key.to_vec(), b"ab".to_vec(), 0);
    let (ok, _) =
        protocol.rpc_update(&mut storage, [5; ID_LEN], addr(1), key, b"abc".to_vec(), true, 0);
    assert!(ok);
    assert_eq!(storage.get_at(&key, 0), Some(b"ab".to_vec()));
}
