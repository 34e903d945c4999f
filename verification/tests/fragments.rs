use auth_kademlia_rs::endpoint::Endpoint;
use auth_kademlia_rs::fragmentation::{
    encode_fragments, parse_fragment, ReassemblyEntry, FRAG_CHUNK_SIZE, FRAG_HEADER_LEN,
    FRAG_MAGIC, MAX_MESSAGE_SIZE,
};
use auth_kademlia_rs::reassembly::{
    DatagramOutcome, ReassemblyBuffer, MAX_REASSEMBLY_ENTRIES, MAX_REASSEMBLY_ENTRIES_PER_PEER,
    REASSEMBLY_GC_INTERVAL, REASSEMBLY_TTL,
};

fn reassemble(datagrams: &[Vec<u8>]) -> Option<Vec<u8>> {
    let mut entry: Option<ReassemblyEntry> = None;
    let mut complete = false;
    for dg in datagrams {
        let (header, chunk) = parse_fragment(dg)?;
        let e = entry.get_or_insert_with(|| ReassemblyEntry::new(header.total));
        if e.total() != header.total {
            return None;
        }
        complete = e.insert(header.index, chunk.to_vec());
    }
    if !complete {
        return None;
    }
    entry?.assemble()
}

fn dilithium2_sized_payload() -> Vec<u8> {
    (0..6000u32).map(|i| (i % 251) as u8).collect()
}

fn peer(port: u16) -> Endpoint {
    Endpoint::V4 { ipv4: 0x7f00_0001, port }
}

#[test]
fn single_fragment_round_trip() {
    let payload = b"small payload".to_vec();
    let dgs = encode_fragments(7, &payload);
    assert_eq!(dgs.len(), 1);
    assert_eq!(reassemble(&dgs), Some(payload));
}

#[test]
fn dilithium2_record_round_trip_byte_identical() {
    let payload = dilithium2_sized_payload();
    let dgs = encode_fragments(42, &payload);
    assert!(dgs.len() > 1, "a 6 KB record must span multiple fragments");
    assert_eq!(dgs.len(), payload.len().div_ceil(FRAG_CHUNK_SIZE));
    assert_eq!(reassemble(&dgs), Some(payload));
}

#[test]
fn reassembles_out_of_order() {
    let payload = dilithium2_sized_payload();
    let mut dgs = encode_fragments(1, &payload);
    dgs.reverse(); // deliver last fragment first
    assert_eq!(reassemble(&dgs), Some(payload));
}

#[test]
fn duplicate_fragments_are_tolerated() {
    let payload = dilithium2_sized_payload();
    let dgs = encode_fragments(9, &payload);
    // Inject a duplicate of the first fragment mid-stream.
    let mut with_dup = vec![dgs[0].clone()];
    with_dup.extend(dgs.iter().cloned());
    assert_eq!(reassemble(&with_dup), Some(payload));
}

#[test]
fn inconsistent_total_fails_clean() {
    // Two fragments sharing a frag_id but disagreeing on `total`.
    let a = dilithium2_sized_payload();
    let b = dilithium2_sized_payload();
    let dg_a = encode_fragments(5, &a); // total = N
    let dg_b = encode_fragments(5, &b[..1000]); // total = 1
    let mixed = vec![dg_a[0].clone(), dg_b[0].clone()];
    // Must reject (None), never emit a corrupted record.
    assert_eq!(reassemble(&mixed), None);
}

#[test]
fn entry_rejects_out_of_bounds_index() {
    let mut e = ReassemblyEntry::new(3);
    assert!(!e.insert(5, vec![0u8; 10]), "index >= total must not complete");
    assert_eq!(e.received(), 0);
}

#[test]
fn parse_rejects_bad_magic() {
    let mut bad = vec![0xDE, 0xAD, 0xBE, 0xEF];
    bad.extend_from_slice(&[0u8; 8]);
    assert!(parse_fragment(&bad).is_none());
}

#[test]
fn parse_rejects_truncated_header() {
    assert!(parse_fragment(&[0x4B, 0x41, 0x44]).is_none());
}

#[test]
fn parse_rejects_index_ge_total() {
    // magic + frag_id=0 + index=2 + total=2  (index must be < total)
    let mut dg = FRAG_MAGIC.to_be_bytes().to_vec();
    dg.extend_from_slice(&0u32.to_be_bytes());
    dg.extend_from_slice(&2u16.to_be_bytes());
    dg.extend_from_slice(&2u16.to_be_bytes());
    assert!(parse_fragment(&dg).is_none());
}

#[test]
fn parse_rejects_a_total_of_zero() {
    let mut dg = FRAG_MAGIC.to_be_bytes().to_vec();
    dg.extend_from_slice(&[0u8; 8]);
    assert!(parse_fragment(&dg).is_none());
}

#[test]
fn header_layout_is_big_endian() {
    let dgs = encode_fragments(0x0102_0304, b"ab");
    assert_eq!(
        dgs,
        vec![vec![
            0x4B, 0x41, 0x44, 0x46, 1, 2, 3, 4, 0, 0, 0, 1, b'a', b'b'
        ]]
    );
}

#[test]
fn an_empty_message_is_one_empty_fragment() {
    let dgs = encode_fragments(3, &[]);
    assert_eq!(dgs.len(), 1);
    assert_eq!(dgs[0].len(), FRAG_HEADER_LEN);
    assert_eq!(reassemble(&dgs), Some(vec![]));
}

#[test]
fn fragments_stay_below_the_chunk_size() {
    let dgs = encode_fragments(8, &vec![1; FRAG_CHUNK_SIZE * 3 + 1]);
    assert_eq!(dgs.len(), 4);
    assert!(dgs.iter().all(|d| d.len() <= FRAG_HEADER_LEN + FRAG_CHUNK_SIZE));
    assert_eq!(dgs[3].len(), FRAG_HEADER_LEN + 1);
}

#[test]
fn a_missing_fragment_is_noticed() {
    let mut dgs = encode_fragments(2, &dilithium2_sized_payload());
    dgs.remove(2);
    assert_eq!(reassemble(&dgs), None);
}

#[test]
fn an_incomplete_entry_does_not_assemble() {
    let mut e = ReassemblyEntry::new(2);
    assert!(!e.insert(1, vec![7]));
    assert_eq!(e.total(), 2);
    assert_eq!(e.received(), 1);
    assert_eq!(e.assemble(), None);
}

#[test]
fn the_first_copy_of_a_chunk_counts() {
    let mut e = ReassemblyEntry::new(2);
    assert!(!e.insert(0, vec![1]));
    assert!(!e.insert(0, vec![2]));
    assert!(e.insert(1, vec![3]));
    assert_eq!(e.assemble(), Some(vec![1, 3]));
}

fn is_complete_with(outcome: &DatagramOutcome, expected: &[u8]) -> bool {
    matches!(outcome, DatagramOutcome::Complete(message) if message.as_slice() == expected)
}

#[test]
fn buffer_gives_back_a_message_in_any_order() {
    let payload = dilithium2_sized_payload();
    let dgs = encode_fragments(11, &payload);
    let mut buffer = ReassemblyBuffer::new(0);
    for dg in dgs.iter().skip(1).rev() {
        assert!(matches!(
            buffer.accept(peer(1), dg, 1),
            DatagramOutcome::Incomplete
        ));
    }
    assert_eq!(buffer.len(), 1);
    assert!(is_complete_with(&buffer.accept(peer(1), &dgs[0], 2), &payload));
    assert!(buffer.is_empty());
}

#[test]
fn messages_of_two_peers_do_not_mix() {
    let a = vec![1u8; FRAG_CHUNK_SIZE + 1];
    let b = vec![2u8; FRAG_CHUNK_SIZE + 1];
    let dgs_a = encode_fragments(5, &a);
    let dgs_b = encode_fragments(5, &b);
    let mut buffer = ReassemblyBuffer::new(0);
    buffer.accept(peer(1), &dgs_a[0], 1);
    buffer.accept(peer(2), &dgs_b[0], 1);
    assert_eq!(buffer.len(), 2);
    assert!(is_complete_with(&buffer.accept(peer(2), &dgs_b[1], 1), &b));
    assert!(is_complete_with(&buffer.accept(peer(1), &dgs_a[1], 1), &a));
}

#[test]
fn garbage_and_oversized_messages_are_refused() {
    let mut buffer = ReassemblyBuffer::new(0);
    assert!(matches!(
        buffer.accept(peer(1), b"no fragment", 0),
        DatagramOutcome::Malformed
    ));
    // A header that announces more than the largest message.
    let total = (MAX_MESSAGE_SIZE / FRAG_CHUNK_SIZE + 1) as u16;
    let mut dg = FRAG_MAGIC.to_be_bytes().to_vec();
    dg.extend_from_slice(&1u32.to_be_bytes());
    dg.extend_from_slice(&0u16.to_be_bytes());
    dg.extend_from_slice(&total.to_be_bytes());
    assert!(matches!(
        buffer.accept(peer(1), &dg, 0),
        DatagramOutcome::Oversized
    ));
    assert!(buffer.is_empty());
}

#[test]
fn one_peer_cannot_fill_the_buffer() {
    let mut buffer = ReassemblyBuffer::new(0);
    for id in 0..MAX_REASSEMBLY_ENTRIES_PER_PEER as u32 {
        let dgs = encode_fragments(id, &vec![0; FRAG_CHUNK_SIZE + 1]);
        assert!(matches!(
            buffer.accept(peer(1), &dgs[0], 0),
            DatagramOutcome::Incomplete
        ));
    }
    let one_more = encode_fragments(9999, &vec![0; FRAG_CHUNK_SIZE + 1]);
    assert!(matches!(
        buffer.accept(peer(1), &one_more[0], 0),
        DatagramOutcome::PeerLimit
    ));
    assert!(matches!(
        buffer.accept(peer(2), &one_more[0], 0),
        DatagramOutcome::Incomplete
    ));
}

#[test]
fn a_full_buffer_refuses_new_messages() {
    let mut buffer = ReassemblyBuffer::new(0);
    let dgs = encode_fragments(1, &vec![0; FRAG_CHUNK_SIZE + 1]);
    for port in 0..MAX_REASSEMBLY_ENTRIES as u16 {
        buffer.accept(peer(port), &dgs[0], 0);
    }
    assert_eq!(buffer.len(), MAX_REASSEMBLY_ENTRIES);
    assert!(matches!(
        buffer.accept(peer(60_000), &dgs[0], 0),
        DatagramOutcome::TableFull
    ));
    // A message that is already known goes on.
    assert!(matches!(
        buffer.accept(peer(0), &dgs[1], 0),
        DatagramOutcome::Complete(_)
    ));
}

#[test]
fn stale_messages_are_swept_at_a_bounded_cadence() {
    let mut buffer = ReassemblyBuffer::new(0);
    let dgs = encode_fragments(1, &vec![0; FRAG_CHUNK_SIZE + 1]);
    buffer.accept(peer(1), &dgs[0], 0);
    buffer.gc(REASSEMBLY_GC_INTERVAL - 1);
    assert_eq!(buffer.len(), 1);
    buffer.gc(REASSEMBLY_TTL - 1);
    assert_eq!(buffer.len(), 1);
    // Too soon after the last sweep.
    buffer.gc(REASSEMBLY_TTL);
    assert_eq!(buffer.len(), 1);
    buffer.gc(REASSEMBLY_TTL + REASSEMBLY_GC_INTERVAL);
    assert!(buffer.is_empty());
}

#[test]
fn a_single_fragment_passes_through_the_buffer() {
    let mut buffer = ReassemblyBuffer::new(0);
    let dgs = encode_fragments(4, b"short");
    assert!(is_complete_with(&buffer.accept(peer(1), &dgs[0], 0), b"short"));
    assert!(buffer.is_empty());
}
