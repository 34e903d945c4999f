use auth_kademlia_rs::long_id::LongId;
use auth_kademlia_rs::node::{address_to_string, Node, NodeHeap};
use auth_kademlia_rs::utils::{digest, digest_bytes, id_from_slice, ID_LEN};

fn make_node(key: &str) -> Node {
    Node::from_id(digest(key))
}

fn node_with_last_byte(last: u8) -> Node {
    let mut id = [0u8; ID_LEN];
    id[ID_LEN - 1] = last;
    Node::from_id(id)
}

fn drain(heap: &mut NodeHeap) -> Vec<Node> {
    let mut nodes = vec![];
    while let Some(node) = heap.popleft() {
        nodes.push(node);
    }
    nodes
}

#[test]
fn heap_respects_maxsize() {
    let pivot = make_node("pivot");
    let mut heap = NodeHeap::new(pivot, 3);
    for i in 0..10 {
        heap.push_one(make_node(&i.to_string()));
    }
    assert!(drain(&mut heap).len() <= 3);
}

#[test]
fn heap_no_duplicates() {
    let pivot = make_node("pivot");
    let mut heap = NodeHeap::new(pivot, 10);
    let node = make_node("a");
    heap.push_one(node.clone());
    heap.push_one(node);
    assert_eq!(drain(&mut heap).len(), 1);
}

#[test]
fn contacted_tracking() {
    let pivot = make_node("pivot");
    let mut heap = NodeHeap::new(pivot, 10);
    let node = make_node("peer");
    heap.push_one(node.clone());
    assert!(!heap.have_contacted_all());
    heap.mark_contacted(&node);
    assert!(heap.have_contacted_all());
}

#[test]
fn xor_metric_respects_full_160bit_order() {
    // `a` differs from the zero pivot only in a low-significance byte
    // (true XOR distance 2^31); `b` only in the most-significant byte
    // (true XOR distance 2^152). `a` must rank far closer than `b`.
    let pivot = Node::from_id([0u8; ID_LEN]);
    let mut a_id = [0u8; ID_LEN];
    a_id[16] = 0x80;
    let mut b_id = [0u8; ID_LEN];
    b_id[0] = 0x01;
    let a = Node::from_id(a_id);
    let b = Node::from_id(b_id);
    assert!(
        pivot.distance_to(&a) < pivot.distance_to(&b),
        "XOR metric must follow the full 160-bit order (u128 folding inverted it)"
    );
}

#[test]
fn distinct_ids_keep_distinct_long_id() {
    let mut c1 = [0u8; ID_LEN];
    c1[0] = 0xAA;
    c1[16] = 0x55;
    let mut c2 = [0u8; ID_LEN];
    c2[0] = 0xAA ^ 0x55;
    assert_ne!(
        Node::from_id(c1).long_id,
        Node::from_id(c2).long_id,
        "distinct 160-bit ids must not collide in long_id"
    );
}

#[test]
fn ids_are_read_big_endian() {
    let mut id = [0u8; ID_LEN];
    id[0] = 0x01;
    id[11] = 0x02;
    id[12] = 0x03;
    id[19] = 0x04;
    assert_eq!(
        Node::from_id(id).long_id,
        LongId {
            w3: 0,
            w2: 0x0100_0000,
            w1: 0x0000_0000_0000_0002,
            w0: 0x0300_0000_0000_0004
        }
    );
}

#[test]
fn distances_form_a_metric() {
    let a = make_node("a");
    let b = make_node("b");
    let zero = LongId { w3: 0, w2: 0, w1: 0, w0: 0 };
    assert_eq!(a.distance_to(&b), b.distance_to(&a));
    assert_eq!(a.distance_to(&a), zero);
    assert_ne!(a.distance_to(&b), zero);
    assert_eq!(
        node_with_last_byte(0b1100).distance_to(&node_with_last_byte(0b1010)),
        LongId { w3: 0, w2: 0, w1: 0, w0: 0b0110 }
    );
}

#[test]
fn digests_are_sha1() {
    assert_eq!(
        digest("abc"),
        [
            0xa9, 0x99, 0x3e, 0x36, 0x47, 0x06, 0x81, 0x6a, 0xba, 0x3e, 0x25, 0x71, 0x78, 0x50,
            0xc2, 0x6c, 0x9c, 0xd0, 0xd8, 0x9d
        ]
    );
    assert_eq!(digest("abc"), digest_bytes(b"abc"));
}

#[test]
fn random_nodes_differ() {
    assert_ne!(Node::random().id, Node::random().id);
}

#[test]
fn ids_have_one_length() {
    assert_eq!(id_from_slice(&[7; 20]), Some([7; ID_LEN]));
    assert_eq!(id_from_slice(&[7; 19]), None);
    assert_eq!(id_from_slice(&[7; 21]), None);
}

#[test]
fn nodes_are_written_as_addresses_or_keys() {
    let node = Node::new([0xab; ID_LEN], Some("10.0.0.1".to_string()), Some(5678));
    assert_eq!(node.to_string(), "10.0.0.1:5678");
    assert_eq!(node.address(), Some(("10.0.0.1".to_string(), 5678)));
    let key = Node::from_id([0xab; ID_LEN]);
    assert_eq!(key.to_string(), "<key:abababababababab>");
    assert_eq!(key.address(), None);
    assert_eq!(address_to_string("::1", 0), "::1:0");
}

#[test]
fn homes_are_compared_by_address() {
    let a = Node::new([1; ID_LEN], Some("10.0.0.1".to_string()), Some(1));
    let b = Node::new([2; ID_LEN], Some("10.0.0.1".to_string()), Some(1));
    let c = Node::new([1; ID_LEN], Some("10.0.0.1".to_string()), Some(2));
    assert!(a.same_home_as(&b));
    assert!(!a.same_home_as(&c));
    assert!(!a.same_home_as(&Node::from_id([1; ID_LEN])));
}

#[test]
fn heap_keeps_the_closest_in_order() {
    let mut heap = NodeHeap::new(node_with_last_byte(0), 3);
    heap.push(vec![
        node_with_last_byte(9),
        node_with_last_byte(4),
        node_with_last_byte(7),
        node_with_last_byte(1),
        node_with_last_byte(4),
    ]);
    let ids: Vec<u8> = heap.get_ids().iter().map(|id| id[ID_LEN - 1]).collect();
    assert_eq!(ids, vec![1, 4, 7]);
    assert_eq!(heap.len(), 3);
    assert_eq!(heap.to_vec(), heap.iter());
    assert!(heap.contains(&node_with_last_byte(7)));
    assert!(!heap.contains(&node_with_last_byte(9)));
    assert_eq!(
        heap.get_node(&node_with_last_byte(4).id),
        Some(node_with_last_byte(4))
    );
    assert_eq!(heap.get_node(&[9; ID_LEN]), None);
}

#[test]
fn heap_shows_no_more_than_maxsize_when_it_shrinks() {
    let mut heap = NodeHeap::new(node_with_last_byte(0), 5);
    heap.push(vec![
        node_with_last_byte(1),
        node_with_last_byte(2),
        node_with_last_byte(3),
    ]);
    heap.maxsize = 2;
    assert_eq!(heap.len(), 2);
    assert_eq!(heap.get_ids().len(), 2);
    // A push that adds nothing does not trim.
    heap.push_one(node_with_last_byte(1));
    assert_eq!(drain(&mut heap.clone()).len(), 3);
    heap.push_one(node_with_last_byte(9));
    assert_eq!(drain(&mut heap).len(), 2);
}

#[test]
fn heap_removal_keeps_the_order() {
    let mut heap = NodeHeap::new(node_with_last_byte(0), 5);
    heap.push(vec![
        node_with_last_byte(3),
        node_with_last_byte(1),
        node_with_last_byte(2),
    ]);
    heap.remove(&[node_with_last_byte(2).id, [5; ID_LEN]]);
    assert_eq!(
        heap.to_vec(),
        vec![node_with_last_byte(1), node_with_last_byte(3)]
    );
    assert_eq!(heap.popleft(), Some(node_with_last_byte(1)));
    assert!(!heap.is_empty());
    assert_eq!(heap.popleft(), Some(node_with_last_byte(3)));
    assert_eq!(heap.popleft(), None);
    assert!(heap.is_empty());
}

#[test]
fn uncontacted_nodes_come_in_order() {
    let mut heap = NodeHeap::new(node_with_last_byte(0), 5);
    heap.push(vec![
        node_with_last_byte(3),
        node_with_last_byte(1),
        node_with_last_byte(2),
    ]);
    heap.mark_contacted(&node_with_last_byte(1));
    heap.mark_contacted(&node_with_last_byte(1));
    assert_eq!(
        heap.get_uncontacted(),
        vec![node_with_last_byte(2), node_with_last_byte(3)]
    );
    assert_eq!(heap.contacted.len(), 1);
}

#[test]
fn heaps_are_written_as_lists() {
    let mut heap = NodeHeap::new(Node::from_id([0; ID_LEN]), 5);
    assert_eq!(heap.to_string(), "[]");
    heap.push_one(Node::new([2; ID_LEN], Some("10.0.0.2".to_string()), Some(2)));
    heap.push_one(Node::new([1; ID_LEN], Some("10.0.0.1".to_string()), Some(1)));
    assert_eq!(heap.to_string(), "[10.0.0.1:1, 10.0.0.2:2]");
}

#[test]
fn a_detour_is_never_shorter() {
    let (a, via, b) = (
        node_with_last_byte(0b1001),
        node_with_last_byte(0b0101),
        node_with_last_byte(0b0011),
    );
    let direct = a.distance_to(&b).w0;
    assert_eq!(direct, 0b1010);
    assert!(direct <= a.distance_to(&via).w0 + via.distance_to(&b).w0);
}

#[test]
fn dropping_nodes_early_loses_nothing() {
    let nodes: Vec<Node> = (0..40).map(|i| make_node(&i.to_string())).collect();
    let mut at_once = NodeHeap::new(make_node("pivot"), 7);
    at_once.push(nodes.clone());
    let mut one_by_one = NodeHeap::new(make_node("pivot"), 7);
    for node in nodes {
        one_by_one.push_one(node);
    }
    assert_eq!(at_once.to_vec(), one_by_one.to_vec());
    assert_eq!(at_once.len(), 7);
}

#[test]
fn clones_of_a_heap_go_their_own_way() {
    let mut heap = NodeHeap::new(node_with_last_byte(0), 3);
    heap.push_one(node_with_last_byte(1));
    heap.mark_contacted(&node_with_last_byte(1));
    let copy = heap.clone();
    heap.popleft();
    assert!(heap.is_empty());
    assert_eq!(copy.to_vec(), vec![node_with_last_byte(1)]);
    assert!(copy.have_contacted_all());
    assert_eq!(copy.node, node_with_last_byte(0));
}
