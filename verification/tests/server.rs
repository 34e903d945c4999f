use auth_kademlia_rs::network::{
    classify_set_report, finish_publication, select_responsible_nodes, GetStep,
    PublishLookup, PublishStep, Server, SetOutcome, SetRejection, SetReport, SetStep, UpdateStep,
    WorkerCursor, REPUBLISH_AGE,
};
use auth_kademlia_rs::node::Node;
use auth_kademlia_rs::protocol::{RpcMessage, StoreStatus, VerificationDomain, VerifyStep};
use auth_kademlia_rs::py_bindings::{
    available_storage_bytes, fixed_node_id, outcome_names, rejection_name,
};
use auth_kademlia_rs::storage::{ForgetfulStorage, IStorage, DEFAULT_MAX_STORAGE_BYTES};
use auth_kademlia_rs::utils::{digest, ID_LEN};

const STATUS_LIST_KEY: &str = "status-list";
const SECOND: u128 = 1_000_000_000;

fn node_with_last_byte(last: u8) -> Node {
    let mut id = [0u8; ID_LEN];
    id[ID_LEN - 1] = last;
    Node::from_id(id)
}

fn contact(id: u8, port: u16) -> Node {
    Node::new([id; ID_LEN], Some("127.0.0.1".to_string()), Some(port))
}

fn server(id: [u8; ID_LEN]) -> Server {
    Server::new(20, 3, Some(id), Some(ForgetfulStorage::new(-1)), STATUS_LIST_KEY.to_string())
}

fn listening(id: [u8; ID_LEN]) -> Server {
    let mut server = server(id);
    server.listen(0);
    server
}

#[test]
fn responsible_replica_selection_is_xor_sorted_and_never_exceeds_k() {
    let target = Node::from_id([0; ID_LEN]);
    let local = Node::from_id([0xff; ID_LEN]);
    let remotes = vec![
        node_with_last_byte(3),
        node_with_last_byte(1),
        node_with_last_byte(2),
    ];

    let (store_local, selected) = select_responsible_nodes(&local, &target, remotes, 2);
    assert!(!store_local);
    assert_eq!(
        selected.iter().map(|node| node.id).collect::<Vec<_>>(),
        vec![node_with_last_byte(1).id, node_with_last_byte(2).id]
    );

    let local = node_with_last_byte(1);
    let remotes = vec![
        node_with_last_byte(4),
        node_with_last_byte(2),
        node_with_last_byte(3),
    ];
    let (store_local, selected) = select_responsible_nodes(&local, &target, remotes, 3);
    assert!(store_local);
    assert_eq!(selected.len() + usize::from(store_local), 3);
    assert_eq!(
        selected.iter().map(|node| node.id).collect::<Vec<_>>(),
        vec![node_with_last_byte(2).id, node_with_last_byte(3).id]
    );
}

#[test]
fn set_report_classification_is_explicit() {
    let complete = SetReport {
        expected_replicas: 2,
        stored_replicas: 1,
        already_present: 1,
        ..SetReport::default()
    };
    assert!(matches!(
        classify_set_report(complete),
        SetOutcome::Complete(_)
    ));

    let degraded = SetReport {
        expected_replicas: 2,
        stored_replicas: 1,
        capacity_rejections: 1,
        ..SetReport::default()
    };
    assert!(matches!(
        classify_set_report(degraded),
        SetOutcome::Degraded(_)
    ));

    let rejected = SetReport {
        expected_replicas: 2,
        capacity_rejections: 2,
        ..SetReport::default()
    };
    assert!(matches!(
        classify_set_report(rejected),
        SetOutcome::Rejected {
            reason: SetRejection::CapacityExceeded,
            ..
        }
    ));

    let conflict = SetReport {
        expected_replicas: 2,
        stored_replicas: 1,
        conflict_rejections: 1,
        ..SetReport::default()
    };
    assert!(matches!(
        classify_set_report(conflict),
        SetOutcome::Rejected {
            reason: SetRejection::ReplicaConflict,
            ..
        }
    ));
}

#[test]
fn the_other_rejections_are_explicit() {
    let reason = |report| match classify_set_report(report) {
        SetOutcome::Rejected { reason, .. } => reason,
        other => panic!("unexpected {other:?}"),
    };
    assert_eq!(
        reason(SetReport { expected_replicas: 1, invalid_rejections: 1, ..SetReport::default() }),
        SetRejection::InvalidRecord
    );
    assert_eq!(reason(SetReport::default()), SetRejection::NoResponsibleNodes);
    assert_eq!(
        reason(SetReport { expected_replicas: 2, unavailable_nodes: 2, ..SetReport::default() }),
        SetRejection::Unavailable
    );
}

#[test]
fn selection_ignores_duplicates_and_the_own_remote_copy() {
    let target = Node::from_id([0; ID_LEN]);
    let local = node_with_last_byte(2);
    let remotes = vec![
        node_with_last_byte(1),
        node_with_last_byte(1),
        contact(0xff, 1),
        node_with_last_byte(2),
    ];
    let (store_local, selected) = select_responsible_nodes(&local, &target, remotes, 3);
    assert!(store_local);
    assert_eq!(selected, vec![node_with_last_byte(1), contact(0xff, 1)]);
    let (store_local, selected) =
        select_responsible_nodes(&local, &target, vec![node_with_last_byte(1)], 0);
    assert!(!store_local);
    assert!(selected.is_empty());
}

#[test]
fn statuses_are_counted_by_kind() {
    let mut report = SetReport::default();
    for status in [
        Some(StoreStatus::Stored),
        Some(StoreStatus::Stored),
        Some(StoreStatus::AlreadyStored),
        Some(StoreStatus::Conflict),
        Some(StoreStatus::CapacityExceeded),
        Some(StoreStatus::InvalidRecord),
        None,
    ] {
        report.record_status(status);
    }
    assert_eq!(
        report,
        SetReport {
            expected_replicas: 0,
            stored_replicas: 2,
            already_present: 1,
            capacity_rejections: 1,
            unavailable_nodes: 1,
            conflict_rejections: 1,
            invalid_rejections: 1,
        }
    );
    assert_eq!(report.acknowledged_replicas(), 3);
}

#[test]
fn a_publication_is_complete_when_every_replica_holds_it() {
    let start = || SetReport { expected_replicas: 2, ..SetReport::default() };
    let stored = Some(StoreStatus::Stored);
    let present = Some(StoreStatus::AlreadyStored);
    assert!(matches!(
        finish_publication(start(), &vec![stored, present]),
        SetOutcome::Complete(_)
    ));
    assert!(matches!(
        finish_publication(start(), &vec![stored, None]),
        SetOutcome::Degraded(_)
    ));
    assert!(matches!(
        finish_publication(start(), &vec![stored, Some(StoreStatus::Conflict)]),
        SetOutcome::Rejected { reason: SetRejection::ReplicaConflict, .. }
    ));
}

#[test]
fn every_status_has_a_count_of_its_own() {
    let statuses = vec![
        Some(StoreStatus::Stored),
        Some(StoreStatus::AlreadyStored),
        Some(StoreStatus::AlreadyStored),
        Some(StoreStatus::CapacityExceeded),
        Some(StoreStatus::InvalidRecord),
        Some(StoreStatus::InvalidRecord),
        None,
    ];
    let start = SetReport { expected_replicas: 7, ..SetReport::default() };
    match finish_publication(start, &statuses) {
        SetOutcome::Rejected { reason, report } => {
            assert_eq!(reason, SetRejection::InvalidRecord);
            assert_eq!(report.expected_replicas, 7);
            assert_eq!(report.stored_replicas, 1);
            assert_eq!(report.already_present, 2);
            assert_eq!(report.capacity_rejections, 1);
            assert_eq!(report.conflict_rejections, 0);
            assert_eq!(report.invalid_rejections, 2);
            assert_eq!(report.unavailable_nodes, 1);
            assert_eq!(report.acknowledged_replicas(), 3);
        }
        other => panic!("unexpected {other:?}"),
    }
}

#[test]
fn a_full_count_does_not_stop_the_others() {
    let mut report = SetReport { unavailable_nodes: usize::MAX, ..SetReport::default() };
    report.record_status(Some(StoreStatus::Stored));
    report.record_status(Some(StoreStatus::Conflict));
    assert_eq!(report.stored_replicas, 1);
    assert_eq!(report.conflict_rejections, 1);
    assert_eq!(report.unavailable_nodes, usize::MAX);
    assert!(matches!(
        finish_publication(report, &vec![Some(StoreStatus::InvalidRecord)]),
        SetOutcome::Rejected { reason: SetRejection::ReplicaConflict, .. }
    ));
}

#[test]
fn outcomes_carry_their_report() {
    let report = SetReport { expected_replicas: 7, ..SetReport::default() };
    let outcomes = [
        SetOutcome::Complete(report.clone()),
        SetOutcome::Degraded(report.clone()),
        SetOutcome::Rejected { reason: SetRejection::Unavailable, report: report.clone() },
    ];
    for outcome in outcomes {
        assert_eq!(outcome.clone().report(), &report);
    }
}

#[test]
fn outcomes_are_summarised() {
    let report = SetReport::default;
    assert_eq!(Server::set(&SetOutcome::Complete(report())), Some(true));
    assert_eq!(Server::set(&SetOutcome::Degraded(report())), Some(false));
    let rejected = |reason| Server::set(&SetOutcome::Rejected { reason, report: report() });
    assert_eq!(rejected(SetRejection::ExistingRecord), None);
    assert_eq!(rejected(SetRejection::InvalidRecord), None);
    assert_eq!(rejected(SetRejection::ReplicaConflict), None);
    assert_eq!(rejected(SetRejection::CapacityExceeded), Some(false));
    assert_eq!(rejected(SetRejection::Unavailable), Some(false));
    assert_eq!(rejected(SetRejection::NoResponsibleNodes), Some(false));
}

#[test]
fn local_did_get_keeps_the_fast_path() {
    let mut requester = listening([20; ID_LEN]);
    let record = b"record".to_vec();
    requester.storage.set_at(digest("did").to_vec(), record.clone(), 0);
    match requester.get("did", false, 1) {
        GetStep::Local(value) => assert_eq!(
            Server::finish_get(Some(value), true),
            Some(record),
            "a valid local DID Document must not require network quorum"
        ),
        other => panic!("unexpected {other:?}"),
    }
}

#[test]
fn status_list_uses_local_copy_as_one_vote() {
    let mut requester = listening([30; ID_LEN]);
    let old_record = b"status-list-v1".to_vec();
    requester.storage.set_at(digest(STATUS_LIST_KEY).to_vec(), old_record.clone(), 0);
    match requester.get(STATUS_LIST_KEY, true, 1) {
        GetStep::Crawl { target, initial_values, minimum_votes, sample_size } => {
            assert_eq!(target, Node::from_id(digest(STATUS_LIST_KEY)));
            assert_eq!(initial_values, vec![old_record]);
            // Two remote replicas override one stale local copy.
            assert_eq!((minimum_votes, sample_size), (2, 3));
        }
        other => panic!("unexpected {other:?}"),
    }
}

#[test]
fn update_without_quorum_preserves_the_local_record() {
    let dkey = digest("did");
    let mut requester = listening(dkey);
    let old_record = b"old".to_vec();
    requester.storage.set_at(dkey.to_vec(), old_record.clone(), 0);
    let plan = requester
        .update_digest(dkey, true, vec![contact(41, 15879), contact(42, 15880)])
        .unwrap();
    assert!(plan.store_local);
    assert_eq!(plan.remotes.len(), 2);
    let stands = requester.commit_update(dkey, b"new".to_vec(), true, &vec![false, false], 1);
    assert_eq!(
        Server::finish_update(true, stands),
        Some(false),
        "a prospective local vote alone must not satisfy a 2-of-3 update"
    );
    assert_eq!(
        requester.storage.get_at(&dkey, 1),
        Some(old_record),
        "failed quorum must not commit the new local value"
    );
}

#[test]
fn update_commits_locally_after_quorum() {
    let dkey = digest("did");
    let mut requester = listening(dkey);
    requester.storage.set_at(dkey.to_vec(), b"old".to_vec(), 0);
    let plan = requester
        .update_digest(dkey, true, vec![contact(41, 15879), contact(42, 15880)])
        .unwrap();
    assert_eq!(plan.remotes.len(), 2);
    let stands =
        requester.commit_update(dkey, b"new".to_vec(), plan.store_local, &vec![true, true], 1);
    assert_eq!(
        Server::finish_update(true, stands),
        Some(true),
        "the local replica and acknowledged remote replicas must reach quorum"
    );
    assert_eq!(
        requester.storage.get_at(&dkey, 1),
        Some(b"new".to_vec()),
        "the local value must be committed after quorum"
    );
}

#[test]
fn replicas_outside_of_the_group_do_not_decide() {
    let dkey = digest("did");
    let mut s = listening(dkey);
    // Three remote voters, of which one acknowledged; the fourth does not count.
    assert!(!s.commit_update(dkey, vec![1], false, &vec![true, false, false, true], 0));
    assert!(s.commit_update(dkey, vec![1], false, &vec![true, true, false, false], 0));
    // Not a replica: nothing is stored here.
    assert_eq!(s.storage.get_at(&dkey, 0), None);
    // Nobody to vote.
    assert!(!s.commit_update(dkey, vec![1], false, &vec![], 0));
    // Alone.
    assert!(s.commit_update(dkey, vec![1], true, &vec![], 0));
    assert_eq!(s.storage.get_at(&dkey, 0), Some(vec![1]));
}

#[test]
fn an_update_without_room_does_not_stand() {
    let dkey = digest("did");
    let mut s = Server::new(
        20,
        3,
        Some(dkey),
        Some(ForgetfulStorage::with_max_storage_bytes(-1, 22)),
        STATUS_LIST_KEY.to_string(),
    );
    s.listen(0);
    s.storage.set_at(dkey.to_vec(), b"ab".to_vec(), 0);
    assert!(!s.commit_update(dkey, b"abc".to_vec(), true, &vec![true, true], 0));
    assert_eq!(s.storage.get_at(&dkey, 0), Some(b"ab".to_vec()));
}

#[test]
fn lookups_without_anyone_to_ask_fail() {
    assert!(matches!(server([1; ID_LEN]).get("did", true, 0), GetStep::Unavailable));
    assert!(matches!(listening([1; ID_LEN]).get("did", false, 0), GetStep::Unavailable));
    assert!(matches!(listening([1; ID_LEN]).get("did", true, 0), GetStep::Crawl { .. }));
    assert_eq!(Server::finish_get(Some(vec![1]), false), None);
    assert_eq!(Server::finish_get(None, true), None);
}

#[test]
fn quorum_sizes_follow_alpha() {
    for (alpha, votes, samples) in [(0, 1, 1), (1, 1, 1), (2, 2, 2), (3, 2, 3), (5, 3, 5)] {
        let mut s = Server::new(20, alpha, Some([1; ID_LEN]), None, STATUS_LIST_KEY.to_string());
        s.listen(0);
        match s.get("did", true, 0) {
            GetStep::Crawl { minimum_votes, sample_size, initial_values, .. } => {
                assert_eq!((minimum_votes, sample_size), (votes, samples));
                assert!(initial_values.is_empty());
            }
            other => panic!("unexpected {other:?}"),
        }
    }
}

#[test]
fn records_must_belong_to_their_key() {
    let s = server([1; ID_LEN]);
    assert!(matches!(s.verify_value("did", false, Some(true)), VerifyStep::Known(false)));
    assert!(matches!(s.verify_value("did", true, Some(true)), VerifyStep::Known(true)));
    assert!(matches!(
        s.verify_value("did", true, None),
        VerifyStep::Verify(VerificationDomain::SelfSigned)
    ));
    assert!(matches!(
        s.verify_value(STATUS_LIST_KEY, false, None),
        VerifyStep::Verify(VerificationDomain::IssuerSigned)
    ));
    assert!(matches!(
        s.verify_value(STATUS_LIST_KEY, false, Some(false)),
        VerifyStep::Known(false)
    ));
}

#[test]
fn publications_look_for_existing_records() {
    let mut s = listening([1; ID_LEN]);
    assert!(matches!(s.check_publish_state("did", b"v", true, 0), PublishStep::Crawl));
    assert!(matches!(
        s.check_publish_state("did", b"v", false, 0),
        PublishStep::Done(PublishLookup::Missing(nodes)) if nodes.is_empty()
    ));
    s.storage.set_at(digest("did").to_vec(), b"v".to_vec(), 0);
    assert!(matches!(
        s.check_publish_state("did", b"v", true, 0),
        PublishStep::Done(PublishLookup::Identical)
    ));
    assert!(matches!(
        s.check_publish_state("did", b"w", true, 0),
        PublishStep::Done(PublishLookup::Conflict)
    ));
}

#[test]
fn remote_records_own_their_key_only_if_valid() {
    let nodes = vec![contact(2, 2)];
    assert!(matches!(
        Server::finish_publish_lookup(b"v", Some(b"v".to_vec()), true, vec![]),
        PublishLookup::Identical
    ));
    assert!(matches!(
        Server::finish_publish_lookup(b"v", Some(b"w".to_vec()), true, vec![]),
        PublishLookup::Conflict
    ));
    assert!(matches!(
        Server::finish_publish_lookup(b"v", Some(b"w".to_vec()), false, vec![]),
        PublishLookup::Rediscover
    ));
    assert!(matches!(
        Server::finish_publish_lookup(b"v", None, false, nodes.clone()),
        PublishLookup::Missing(found) if found == nodes
    ));
}

#[test]
fn publications_are_decided() {
    let s = listening([1; ID_LEN]);
    let reason = |step| match step {
        SetStep::Rejected(SetOutcome::Rejected { reason, report }) => {
            assert_eq!(report, SetReport::default());
            Some(reason)
        }
        _ => None,
    };
    assert_eq!(
        reason(s.set_detailed(false, PublishLookup::Identical)),
        Some(SetRejection::InvalidRecord)
    );
    assert_eq!(
        reason(server([1; ID_LEN]).set_detailed(true, PublishLookup::Identical)),
        Some(SetRejection::Unavailable)
    );
    assert_eq!(
        reason(s.set_detailed(true, PublishLookup::Conflict)),
        Some(SetRejection::ExistingRecord)
    );
    assert!(matches!(s.set_detailed(true, PublishLookup::Identical), SetStep::Discover));
    assert!(matches!(s.set_detailed(true, PublishLookup::Rediscover), SetStep::Discover));
    assert!(matches!(
        s.set_detailed(true, PublishLookup::Missing(vec![contact(2, 2)])),
        SetStep::Publish(nodes) if nodes.len() == 1
    ));
    assert!(s.reject_early(true).is_none());
    assert!(s.discover_publish_nodes(true));
    assert!(!s.discover_publish_nodes(false));
    assert!(!server([1; ID_LEN]).discover_publish_nodes(true));
}

#[test]
fn publications_start_with_the_local_replica() {
    let dkey = digest("did");
    let mut s = listening(dkey);
    let nodes = vec![contact(2, 2), contact(3, 3)];
    let publication = s.set_digest_detailed(dkey, &b"v".to_vec(), nodes.clone(), 0).unwrap();
    assert!(publication.store_local);
    assert_eq!(publication.remotes.len(), 2);
    assert_eq!(
        publication.report,
        SetReport { expected_replicas: 3, stored_replicas: 1, ..SetReport::default() }
    );
    assert_eq!(s.storage.get_at(&dkey, 0), Some(b"v".to_vec()));
    let again = s.set_digest_detailed(dkey, &b"v".to_vec(), nodes.clone(), 0).unwrap();
    assert_eq!(again.report.already_present, 1);
    let other = s.set_digest_detailed(dkey, &b"w".to_vec(), nodes, 0).unwrap();
    assert_eq!(other.report.conflict_rejections, 1);
    assert!(server(dkey).set_digest_detailed(dkey, &b"v".to_vec(), vec![], 0).is_err());
}

#[test]
fn far_nodes_do_not_store_locally() {
    let dkey = [0; ID_LEN];
    let mut s = Server::new(2, 3, Some([0xff; ID_LEN]), None, STATUS_LIST_KEY.to_string());
    s.listen(0);
    let nodes = vec![node_with_last_byte(1), node_with_last_byte(2)];
    let publication = s.set_digest_detailed(dkey, &b"v".to_vec(), nodes.clone(), 0).unwrap();
    assert!(!publication.store_local);
    assert_eq!(publication.remotes, nodes);
    assert_eq!(publication.report.expected_replicas, 2);
    assert_eq!(s.storage.get_at(&dkey, 0), None);
}

#[test]
fn updates_are_verified_by_kind() {
    let s = server([1; ID_LEN]);
    assert_eq!(s.update("did", &None, false), UpdateStep::NotFound);
    assert_eq!(s.update("did", &None, true), UpdateStep::Owner);
    assert_eq!(s.update(STATUS_LIST_KEY, &None, true), UpdateStep::Issuer);
    assert_eq!(s.update(STATUS_LIST_KEY, &Some(vec![1]), true), UpdateStep::Owner);
    assert_eq!(Server::finish_update(false, true), None);
}

#[test]
fn updates_without_anyone_to_ask_fail() {
    let dkey = digest("did");
    assert!(server(dkey).update_digest(dkey, true, vec![]).is_none());
    assert!(listening(dkey).update_digest(dkey, false, vec![]).is_none());
}

#[test]
fn updates_use_the_request_of_their_kind() {
    let s = listening([1; ID_LEN]);
    let protocol = s.protocol.as_ref().unwrap();
    let peer = contact(5, 5);
    let call = s
        .update_call(protocol, &peer, STATUS_LIST_KEY, [6; ID_LEN], vec![1], Some(vec![2]))
        .unwrap();
    assert!(matches!(call.message, RpcMessage::UpdateStatusList { .. }));
    let call = s
        .update_call(protocol, &peer, "did", [6; ID_LEN], vec![1], Some(vec![2]))
        .unwrap();
    assert!(matches!(
        call.message,
        RpcMessage::Update { auth_signature, .. } if auth_signature == [2]
    ));
    let call = s.update_call(protocol, &peer, "did", [6; ID_LEN], vec![1], None).unwrap();
    assert!(matches!(
        call.message,
        RpcMessage::Update { auth_signature, .. } if auth_signature.is_empty()
    ));
}

#[test]
fn servers_have_fixed_or_random_ids() {
    assert_eq!(server([7; ID_LEN]).node, Node::from_id([7; ID_LEN]));
    let random = || Server::new(20, 3, None, None, STATUS_LIST_KEY.to_string());
    let one = random();
    assert_ne!(one.node.id, random().node.id);
    assert_eq!(one.storage.max_storage_bytes(), DEFAULT_MAX_STORAGE_BYTES);
    assert!(one.protocol.is_none());
}

#[test]
fn bootstrap_contacts_need_a_full_id() {
    let s = listening([1; ID_LEN]);
    let addr = || ("127.0.0.1".to_string(), 9);
    assert_eq!(s.bootstrap_node(addr(), true, &[5; 20]), Some(contact(5, 9)));
    assert_eq!(s.bootstrap_node(addr(), true, &[5; 19]), None);
    assert_eq!(s.bootstrap_node(addr(), false, &[5; 20]), None);
    assert_eq!(server([1; ID_LEN]).bootstrap_node(addr(), true, &[5; 20]), None);
}

#[test]
fn saved_state_lists_the_addresses() {
    let s = listening([0x0f; ID_LEN]);
    let neighbors = vec![contact(2, 22), Node::from_id([3; ID_LEN]), contact(4, 44)];
    let addresses = vec![
        ("127.0.0.1".to_string(), 22),
        ("127.0.0.1".to_string(), 44),
    ];
    assert_eq!(s.bootstrappable_neighbors(&neighbors), addresses);
    let state = s.save_state(&neighbors).unwrap();
    assert_eq!((state.ksize, state.alpha), (20, 3));
    assert_eq!(state.id, "0f".repeat(20));
    assert_eq!(state.neighbors, addresses);
    assert!(s.save_state(&vec![Node::from_id([3; ID_LEN])]).is_none());
    assert!(server([1; ID_LEN]).save_state(&neighbors).is_none());
}

#[test]
fn statistics_count_live_records() {
    let mut s = Server::new(
        20,
        3,
        Some([1; ID_LEN]),
        Some(ForgetfulStorage::with_max_storage_bytes(1, 100)),
        STATUS_LIST_KEY.to_string(),
    );
    s.storage.set_at(b"a".to_vec(), b"1".to_vec(), 0);
    s.storage.set_at(b"b".to_vec(), b"2".to_vec(), 2 * SECOND);
    let stats = s.stats(&vec![3, 4], Some(5), 2 * SECOND);
    assert!(!stats.listening);
    assert_eq!(stats.routing_nodes, 0);
    s.listen(0);
    let stats = s.stats(&vec![3, 4], Some(5), 2 * SECOND);
    assert_eq!(stats.node_id, [1; ID_LEN]);
    assert!(stats.listening);
    assert_eq!(stats.routing_nodes, 7);
    assert_eq!(stats.storage_records, 1);
    assert_eq!(stats.storage_bytes, 4);
    assert_eq!(stats.max_storage_bytes, 100);
    assert_eq!(stats.signature_cache_entries, Some(5));
    assert_eq!(available_storage_bytes(&stats), 96);
    let mut full = stats.clone();
    full.storage_bytes = 200;
    assert_eq!(available_storage_bytes(&full), 0);
}

#[test]
fn old_records_under_ids_are_republished() {
    let mut s = server([1; ID_LEN]);
    let now = REPUBLISH_AGE as u128 * SECOND;
    s.storage.set_at(vec![2; ID_LEN], b"old".to_vec(), 0);
    s.storage.set_at(vec![3; 5], b"odd".to_vec(), 0);
    s.storage.set_at(vec![4; ID_LEN], b"new".to_vec(), 1);
    assert_eq!(s.republication(now), vec![([2; ID_LEN], b"old".to_vec())]);
}

#[test]
fn workers_take_turns() {
    let mut cursor = WorkerCursor::new(3);
    assert_eq!((0..3).map(|i| cursor.candidate(i)).collect::<Vec<_>>(), vec![0, 1, 2]);
    cursor.taken_by(1);
    assert_eq!((0..3).map(|i| cursor.candidate(i)).collect::<Vec<_>>(), vec![2, 0, 1]);
    cursor.taken_by(2);
    assert_eq!(cursor.candidate(0), 0);
}

#[test]
fn outcomes_have_names() {
    let report = SetReport::default;
    assert_eq!(outcome_names(&SetOutcome::Complete(report())), ("complete", None));
    assert_eq!(outcome_names(&SetOutcome::Degraded(report())), ("degraded", None));
    for (reason, name) in [
        (SetRejection::ExistingRecord, "existing_record"),
        (SetRejection::InvalidRecord, "invalid_record"),
        (SetRejection::ReplicaConflict, "replica_conflict"),
        (SetRejection::CapacityExceeded, "capacity_exceeded"),
        (SetRejection::Unavailable, "unavailable"),
        (SetRejection::NoResponsibleNodes, "no_responsible_nodes"),
    ] {
        assert_eq!(rejection_name(reason), name);
        let rejected = SetOutcome::Rejected { reason, report: report() };
        assert_eq!(outcome_names(&rejected), ("rejected", Some(name)));
    }
}

#[test]
fn given_node_ids_are_checked() {
    assert_eq!(fixed_node_id(None), Ok(None));
    assert_eq!(fixed_node_id(Some(vec![1; 20])), Ok(Some([1; ID_LEN])));
    assert_eq!(
        fixed_node_id(Some(vec![1; 19])),
        Err("node_id must be exactly 20 bytes, got 19".to_string())
    );
}

#[test]
fn both_layers_know_the_status_list() {
    let s = listening([1; ID_LEN]);
    let protocol = s.protocol.as_ref().unwrap();
    for key in [STATUS_LIST_KEY, "did"] {
        assert_eq!(s.domain(key), protocol.domain(&digest(key)));
    }
}

#[test]
fn the_local_status_counts_like_the_others() {
    let statuses = vec![Some(StoreStatus::AlreadyStored), None];
    let mut first = SetReport { expected_replicas: 3, ..SetReport::default() };
    first.record_status(Some(StoreStatus::Stored));
    let mut all = vec![Some(StoreStatus::Stored)];
    all.extend(statuses.iter().copied());
    let start = SetReport { expected_replicas: 3, ..SetReport::default() };
    assert_eq!(
        finish_publication(first, &statuses),
        finish_publication(start, &all)
    );
}
