//! Application-level fragmentation of messages that exceed one UDP datagram.
//!
//! Post-quantum signed records routinely produce messages of several kilobytes.
//! Instead of relying on IP fragmentation, every message is cut into datagrams
//! that stay well below the Ethernet MTU. Each datagram reads
//!
//! ```text
//! [magic: 4][frag_id: u32][index: u16][total: u16][payload...]
//! ```
//!
//! with all integers big-endian. `index` counts from zero and `total` is the
//! number of fragments of the message.

use vstd::prelude::*;

verus! {

/// Marks a datagram as a fragment ("KADF").
pub const FRAG_MAGIC: u32 = 0x4B41_4446;

/// Length of the header in front of every chunk.
pub const FRAG_HEADER_LEN: usize = 12;

/// Maximum payload bytes per datagram, after the header.
pub const FRAG_CHUNK_SIZE: usize = 1400;

/// Hard cap on the size of one logical message.
pub const MAX_MESSAGE_SIZE: usize = 256 * 1024;

/// The two bytes of `x`, most significant first.
pub open spec fn be16(x: u16) -> Seq<u8> {
    seq![(x / 0x100) as u8, (x % 0x100) as u8]
}

/// The four bytes of `x`, most significant first.
pub open spec fn be32(x: u32) -> Seq<u8> {
    seq![
        (x / 0x100_0000) as u8,
        (x / 0x1_0000 % 0x100) as u8,
        (x / 0x100 % 0x100) as u8,
        (x % 0x100) as u8,
    ]
}

/// The twelve header bytes of a fragment.
pub open spec fn header_bytes(frag_id: u32, index: u16, total: u16) -> Seq<u8> {
    be32(FRAG_MAGIC) + be32(frag_id) + be16(index) + be16(total)
}

/// Number of fragments that carry a message of `len` bytes.
pub open spec fn fragment_count(len: nat) -> nat {
    if len == 0 {
        1
    } else {
        ((len + FRAG_CHUNK_SIZE - 1) / (FRAG_CHUNK_SIZE as int)) as nat
    }
}

/// The part of `payload` that travels in fragment `i`.
pub open spec fn chunk_of(payload: Seq<u8>, i: int) -> Seq<u8> {
    let start = i * FRAG_CHUNK_SIZE;
    let end = if start + FRAG_CHUNK_SIZE < payload.len() {
        start + FRAG_CHUNK_SIZE
    } else {
        payload.len() as int
    };
    payload.subrange(start, end)
}

/// The datagram that carries fragment `i` of `payload`.
///
/// The index and the count are written as 16-bit numbers, so both wrap for a
/// message of more than 65535 fragments.
pub open spec fn fragment_datagram(frag_id: u32, payload: Seq<u8>, i: int) -> Seq<u8> {
    header_bytes(frag_id, i as u16, fragment_count(payload.len()) as u16) + chunk_of(payload, i)
}

fn push_be16(buf: &mut Vec<u8>, x: u16)
    ensures
        final(buf)@ == old(buf)@ + be16(x),
{
    buf.push((x / 0x100) as u8);
    buf.push((x % 0x100) as u8);
    assert(buf@ =~= old(buf)@ + be16(x));
}

fn push_be32(buf: &mut Vec<u8>, x: u32)
    ensures
        final(buf)@ == old(buf)@ + be32(x),
{
    buf.push((x / 0x100_0000) as u8);
    buf.push((x / 0x1_0000 % 0x100) as u8);
    buf.push((x / 0x100 % 0x100) as u8);
    buf.push((x % 0x100) as u8);
    assert(buf@ =~= old(buf)@ + be32(x));
}

/// A buffer that holds the header of one fragment.
fn start_datagram(frag_id: u32, index: u16, total: u16) -> (buf: Vec<u8>)
    ensures
        buf@ == header_bytes(frag_id, index, total),
{
    let mut buf: Vec<u8> = Vec::with_capacity(FRAG_HEADER_LEN);
    push_be32(&mut buf, FRAG_MAGIC);
    push_be32(&mut buf, frag_id);
    push_be16(&mut buf, index);
    push_be16(&mut buf, total);
    assert(buf@ =~= header_bytes(frag_id, index, total));
    buf
}

/// Encode a complete serialized message into one or more fragment datagrams.
///
/// An empty message travels as a single fragment without payload.
pub fn encode_fragments(frag_id: u32, payload: &[u8]) -> (datagrams: Vec<Vec<u8>>)
    ensures
        datagrams@.len() == fragment_count(payload@.len()),
        forall|i: int|
            0 <= i < datagrams@.len() ==> (#[trigger] datagrams@[i])@ == fragment_datagram(
                frag_id,
                payload@,
                i,
            ),
{
    let len: usize = payload.len();
    if len == 0 {
        let buf = start_datagram(frag_id, 0, 1);
        let mut datagrams: Vec<Vec<u8>> = Vec::new();
        assert(buf@ =~= fragment_datagram(frag_id, payload@, 0));
        datagrams.push(buf);
        return datagrams;
    }
    let count: usize = (len - 1) / FRAG_CHUNK_SIZE + 1;
    assert(count == fragment_count(payload@.len()));
    let total: u16 = #[verifier::truncate] (count as u16);
    let mut datagrams: Vec<Vec<u8>> = Vec::with_capacity(count);
    let mut i: usize = 0;
    while i < count
        invariant
            len == payload@.len(),
            len > 0,
            count == (len - 1) / (FRAG_CHUNK_SIZE as int) + 1,
            count == fragment_count(payload@.len()),
            total == count as u16,
            i <= count,
            datagrams@.len() == i,
            forall|j: int|
                0 <= j < i ==> (#[trigger] datagrams@[j])@ == fragment_datagram(
                    frag_id,
                    payload@,
                    j,
                ),
        decreases count - i,
    {
        let start: usize = i * FRAG_CHUNK_SIZE;
        let end: usize = if FRAG_CHUNK_SIZE < len - start {
            start + FRAG_CHUNK_SIZE
        } else {
            len
        };
        let mut buf = start_datagram(frag_id, #[verifier::truncate] (i as u16), total);
        buf.extend_from_slice(vstd::slice::slice_subrange(payload, start, end));
        assert(buf@ =~= fragment_datagram(frag_id, payload@, i as int));
        datagrams.push(buf);
        i = i + 1;
    }
    datagrams
}

/// Parsed fragment header.
#[derive(Clone, Copy, Debug, PartialEq, Eq, Structural)]
pub struct FragHeader {
    pub frag_id: u32,
    pub index: u16,
    pub total: u16,
}

/// The 16-bit number that `data` holds at `i`, most significant byte first.
pub open spec fn u16_at(data: Seq<u8>, i: int) -> u16 {
    (data[i] * 0x100 + data[i + 1]) as u16
}

/// The 32-bit number that `data` holds at `i`, most significant byte first.
pub open spec fn u32_at(data: Seq<u8>, i: int) -> u32 {
    (data[i] * 0x100_0000 + data[i + 1] * 0x1_0000 + data[i + 2] * 0x100 + data[i + 3]) as u32
}

/// The header and the chunk that a datagram carries, if it is a fragment.
pub open spec fn parsed_fragment(data: Seq<u8>) -> Option<(FragHeader, Seq<u8>)> {
    let header = FragHeader {
        frag_id: u32_at(data, 4),
        index: u16_at(data, 8),
        total: u16_at(data, 10),
    };
    if data.len() >= FRAG_HEADER_LEN && u32_at(data, 0) == FRAG_MAGIC && header.index
        < header.total {
        Some((header, data.skip(FRAG_HEADER_LEN as int)))
    } else {
        None
    }
}

fn read_be16(data: &[u8], i: usize) -> (x: u16)
    requires
        i + 2 <= data@.len(),
    ensures
        x == u16_at(data@, i as int),
{
    data[i] as u16 * 0x100 + data[i + 1] as u16
}

fn read_be32(data: &[u8], i: usize) -> (x: u32)
    requires
        i + 4 <= data@.len(),
    ensures
        x == u32_at(data@, i as int),
{
    data[i] as u32 * 0x100_0000 + data[i + 1] as u32 * 0x1_0000 + data[i + 2] as u32 * 0x100
        + data[i + 3] as u32
}

/// Parse a fragment header. Returns `None` if the datagram is malformed or
/// does not carry the magic.
pub fn parse_fragment(data: &[u8]) -> (parts: Option<(FragHeader, &[u8])>)
    ensures
        match parts {
            Some((header, chunk)) => parsed_fragment(data@) == Some((header, chunk@)),
            None => parsed_fragment(data@) is None,
        },
{
    if data.len() < FRAG_HEADER_LEN {
        return None;
    }
    if read_be32(data, 0) != FRAG_MAGIC {
        return None;
    }
    let header = FragHeader {
        frag_id: read_be32(data, 4),
        index: read_be16(data, 8),
        total: read_be16(data, 10),
    };
    if header.index >= header.total {
        return None;
    }
    let chunk = vstd::slice::slice_subrange(data, FRAG_HEADER_LEN, data.len());
    assert(chunk@ =~= data@.skip(FRAG_HEADER_LEN as int));
    Some((header, chunk))
}

/// `chunks` after `payload` arrives for position `index`: the first arrival
/// fills a slot, later ones and those out of range change nothing.
pub open spec fn accept_chunk(
    chunks: Seq<Option<Seq<u8>>>,
    index: int,
    payload: Seq<u8>,
) -> Seq<Option<Seq<u8>>> {
    if 0 <= index < chunks.len() && chunks[index] is None {
        chunks.update(index, Some(payload))
    } else {
        chunks
    }
}

/// Every slot holds its chunk.
pub open spec fn all_filled(chunks: Seq<Option<Seq<u8>>>) -> bool {
    forall|i: int| 0 <= i < chunks.len() ==> (#[trigger] chunks[i]) is Some
}

/// Number of slots that hold a chunk.
pub open spec fn filled_count(chunks: Seq<Option<Seq<u8>>>) -> nat
    decreases chunks.len(),
{
    if chunks.len() == 0 {
        0
    } else {
        filled_count(chunks.drop_last()) + if chunks.last() is Some {
            1nat
        } else {
            0
        }
    }
}

/// The chunks one after the other; a slot without a chunk adds nothing.
pub open spec fn assembled(chunks: Seq<Option<Seq<u8>>>) -> Seq<u8>
    decreases chunks.len(),
{
    if chunks.len() == 0 {
        Seq::empty()
    } else {
        match chunks.last() {
            Some(chunk) => assembled(chunks.drop_last()) + chunk,
            None => assembled(chunks.drop_last()),
        }
    }
}

/// `total` slots without a chunk.
pub open spec fn no_chunks(total: nat) -> Seq<Option<Seq<u8>>> {
    Seq::new(total, |i: int| None)
}

proof fn lemma_filled_count(chunks: Seq<Option<Seq<u8>>>)
    ensures
        filled_count(chunks) <= chunks.len(),
        filled_count(chunks) == chunks.len() <==> all_filled(chunks),
    decreases chunks.len(),
{
    if chunks.len() > 0 {
        let init = chunks.drop_last();
        lemma_filled_count(init);
        if all_filled(chunks) {
            assert forall|i: int| 0 <= i < init.len() implies (#[trigger] init[i]) is Some by {
                assert(chunks[i] is Some);
            }
            assert(chunks[chunks.len() - 1] is Some);
        } else if all_filled(init) && chunks.last() is Some {
            assert forall|i: int| 0 <= i < chunks.len() implies (#[trigger] chunks[i]) is Some by {
                if i < init.len() {
                    assert(init[i] is Some);
                }
            }
        }
    }
}

proof fn lemma_filled_count_update(chunks: Seq<Option<Seq<u8>>>, index: int, payload: Seq<u8>)
    requires
        0 <= index < chunks.len(),
        chunks[index] is None,
    ensures
        filled_count(chunks.update(index, Some(payload))) == filled_count(chunks) + 1,
    decreases chunks.len(),
{
    let updated = chunks.update(index, Some(payload));
    if index < chunks.len() - 1 {
        lemma_filled_count_update(chunks.drop_last(), index, payload);
        assert(updated.drop_last() =~= chunks.drop_last().update(index, Some(payload)));
    } else {
        assert(updated.drop_last() =~= chunks.drop_last());
    }
}

proof fn lemma_no_chunks_filled(total: nat)
    ensures
        filled_count(no_chunks(total)) == 0,
    decreases total,
{
    if total > 0 {
        lemma_no_chunks_filled((total - 1) as nat);
        assert(no_chunks(total).drop_last() =~= no_chunks((total - 1) as nat));
    }
}

/// Reassembly state for a single in-flight logical message.
///
/// Its view is the sequence of slots, each with the chunk that arrived for it.
#[derive(Debug)]
pub struct ReassemblyEntry {
    total: u16,
    received: u16,
    chunks: Vec<Option<Vec<u8>>>,
}

/// The contents of one slot.
pub open spec fn slot_contents(slot: Option<Vec<u8>>) -> Option<Seq<u8>> {
    match slot {
        Some(chunk) => Some(chunk@),
        None => None,
    }
}

impl View for ReassemblyEntry {
    type V = Seq<Option<Seq<u8>>>;

    closed spec fn view(&self) -> Seq<Option<Seq<u8>>> {
        self.chunks@.map_values(|slot: Option<Vec<u8>>| slot_contents(slot))
    }
}

impl ReassemblyEntry {
    /// There is one slot per fragment, and `received` counts the filled ones.
    pub closed spec fn wf(&self) -> bool {
        &&& self.chunks@.len() == self.total
        &&& self.received == filled_count(self@)
    }

    /// An entry for a message of `total` fragments, none of which has arrived.
    pub fn new(total: u16) -> (entry: Self)
        ensures
            entry.wf(),
            entry@ == no_chunks(total as nat),
    {
        let mut chunks: Vec<Option<Vec<u8>>> = Vec::with_capacity(total as usize);
        let mut i: u16 = 0;
        while i < total
            invariant
                i <= total,
                chunks@.len() == i,
                forall|j: int| 0 <= j < i ==> (#[trigger] chunks@[j]) is None,
            decreases total - i,
        {
            chunks.push(None);
            i = i + 1;
        }
        let entry = ReassemblyEntry { total, received: 0, chunks };
        proof {
            lemma_no_chunks_filled(total as nat);
            assert(entry@ =~= no_chunks(total as nat));
        }
        entry
    }

    /// Number of fragments that make up the message.
    pub fn total(&self) -> (total: u16)
        requires
            self.wf(),
        ensures
            total == self@.len(),
    {
        self.total
    }

    /// Number of distinct fragments that have arrived.
    pub fn received(&self) -> (received: u16)
        requires
            self.wf(),
        ensures
            received == filled_count(self@),
    {
        self.received
    }

    /// Record the chunk that arrived for position `index`. Returns `true` when
    /// the position exists and the message is now complete.
    pub fn insert(&mut self, index: u16, payload: Vec<u8>) -> (complete: bool)
        requires
            old(self).wf(),
        ensures
            final(self).wf(),
            final(self)@ == accept_chunk(old(self)@, index as int, payload@),
            complete <==> index < old(self)@.len() && all_filled(final(self)@),
    {
        let idx: usize = index as usize;
        if idx >= self.chunks.len() {
            return false;
        }
        if self.chunks[idx].is_none() {
            proof {
                assert(self@[idx as int] is None);
                lemma_filled_count_update(self@, idx as int, payload@);
                lemma_filled_count(self@.update(idx as int, Some(payload@)));
            }
            self.chunks.set(idx, Some(payload));
            self.received = self.received + 1;
            assert(self@ =~= accept_chunk(old(self)@, index as int, payload@));
        }
        proof {
            lemma_filled_count(self@);
        }
        self.received == self.total
    }

    /// The whole message, or `None` while a fragment is missing.
    pub fn assemble(self) -> (message: Option<Vec<u8>>)
        ensures
            match message {
                Some(bytes) => all_filled(self@) && bytes@ == assembled(self@),
                None => !all_filled(self@),
            },
    {
        let mut out: Vec<u8> = Vec::new();
        let mut i: usize = 0;
        assert(self@.take(0) =~= Seq::<Option<Seq<u8>>>::empty());
        while i < self.chunks.len()
            invariant
                i <= self.chunks@.len(),
                self@.len() == self.chunks@.len(),
                out@ == assembled(self@.take(i as int)),
                forall|j: int| 0 <= j < i ==> (#[trigger] self@[j]) is Some,
            decreases self.chunks@.len() - i,
        {
            assert(self@.take(i + 1).drop_last() =~= self@.take(i as int));
            assert(self@[i as int] == slot_contents(self.chunks@[i as int]));
            match &self.chunks[i] {
                Some(chunk) => {
                    out.extend_from_slice(chunk.as_slice());
                },
                None => {
                    return None;
                },
            }
            i = i + 1;
        }
        assert(self@.take(i as int) =~= self@);
        Some(out)
    }
}

/// The slots after the fragments of `payload` named by `order` have arrived,
/// in that order, on top of `chunks`.
pub open spec fn deliver(
    chunks: Seq<Option<Seq<u8>>>,
    payload: Seq<u8>,
    order: Seq<int>,
) -> Seq<Option<Seq<u8>>>
    decreases order.len(),
{
    if order.len() == 0 {
        chunks
    } else {
        accept_chunk(
            deliver(chunks, payload, order.drop_last()),
            order.last(),
            chunk_of(payload, order.last()),
        )
    }
}

/// What the slots hold after fragments have arrived: each that was empty holds its
/// chunk if that was among them.
pub proof fn lemma_deliver(chunks: Seq<Option<Seq<u8>>>, payload: Seq<u8>, order: Seq<int>)
    ensures
        deliver(chunks, payload, order).len() == chunks.len(),
        forall|i: int|
            0 <= i < chunks.len() ==> #[trigger] deliver(chunks, payload, order)[i] == (
            if chunks[i] is None && order.contains(i) {
                Some(chunk_of(payload, i))
            } else {
                chunks[i]
            }),
    decreases order.len(),
{
    if order.len() > 0 {
        let init = order.drop_last();
        lemma_deliver(chunks, payload, init);
        assert forall|i: int| order.contains(i) <==> init.contains(i) || i == order.last() by {
            if init.contains(i) {
                let j = choose|j: int| 0 <= j < init.len() && init[j] == i;
                assert(order[j] == i);
            }
            if order.contains(i) && i != order.last() {
                let j = choose|j: int| 0 <= j < order.len() && order[j] == i;
                assert(init[j] == i);
            }
            assert(order[order.len() - 1] == order.last());
        }
    }
}

proof fn lemma_assembled_prefix(payload: Seq<u8>, chunks: Seq<Option<Seq<u8>>>, k: int)
    requires
        0 <= k <= chunks.len(),
        chunks.len() == fragment_count(payload.len()),
        forall|i: int|
            0 <= i < chunks.len() ==> #[trigger] chunks[i] == Some(chunk_of(payload, i)),
    ensures
        assembled(chunks.take(k)) == payload.take(
            if k * FRAG_CHUNK_SIZE < payload.len() {
                k * FRAG_CHUNK_SIZE
            } else {
                payload.len() as int
            },
        ),
    decreases k,
{
    if k > 0 {
        lemma_assembled_prefix(payload, chunks, k - 1);
        assert(chunks.take(k).drop_last() =~= chunks.take(k - 1));
        assert(chunks.take(k).last() == chunks[k - 1]);
    }
    assert(assembled(chunks.take(k)) =~= payload.take(
        if k * FRAG_CHUNK_SIZE < payload.len() {
            k * FRAG_CHUNK_SIZE
        } else {
            payload.len() as int
        },
    ));
}

/// Reassembly gives back the message: once every fragment of `payload` has
/// arrived at least once, in whatever order and however often, the slots are
/// full and hold `payload`, byte for byte.
pub proof fn law_reassembly_in_any_order(payload: Seq<u8>, order: Seq<int>)
    requires
        forall|i: int| 0 <= i < fragment_count(payload.len()) ==> #[trigger] order.contains(i),
    ensures
        all_filled(deliver(no_chunks(fragment_count(payload.len())), payload, order)),
        assembled(deliver(no_chunks(fragment_count(payload.len())), payload, order)) == payload,
{
    let count = fragment_count(payload.len());
    let chunks = deliver(no_chunks(count), payload, order);
    lemma_deliver(no_chunks(count), payload, order);
    lemma_assembled_prefix(payload, chunks, count as int);
    assert(chunks.take(count as int) =~= chunks);
    assert(payload.take(payload.len() as int) =~= payload);
}

/// A message is complete only when every fragment has arrived: with one
/// missing, the slots are not full.
pub proof fn law_missing_fragment_is_noticed(payload: Seq<u8>, order: Seq<int>, missing: int)
    requires
        0 <= missing < fragment_count(payload.len()),
        !order.contains(missing),
    ensures
        !all_filled(deliver(no_chunks(fragment_count(payload.len())), payload, order)),
{
    let count = fragment_count(payload.len());
    lemma_deliver(no_chunks(count), payload, order);
    assert(deliver(no_chunks(count), payload, order)[missing] is None);
}

proof fn lemma_u16_at(data: Seq<u8>, i: int, x: u16)
    requires
        0 <= i,
        i + 2 <= data.len(),
    ensures
        u16_at(data, i) == x <==> data.subrange(i, i + 2) == be16(x),
{
    let part = data.subrange(i, i + 2);
    if u16_at(data, i) == x {
        assert(part =~= be16(x));
    }
    if part == be16(x) {
        assert(part[0] == data[i] && part[1] == data[i + 1]);
    }
}

proof fn lemma_u32_at(data: Seq<u8>, i: int, x: u32)
    requires
        0 <= i,
        i + 4 <= data.len(),
    ensures
        u32_at(data, i) == x <==> data.subrange(i, i + 4) == be32(x),
{
    let part = data.subrange(i, i + 4);
    let (b0, b1, b2, b3) = (data[i], data[i + 1], data[i + 2], data[i + 3]);
    if u32_at(data, i) == x {
        assert(x / 0x100_0000 == b0 && x / 0x1_0000 % 0x100 == b1 && x / 0x100 % 0x100 == b2 && x
            % 0x100 == b3) by (bit_vector)
            requires
                x == b0 * 0x100_0000 + b1 * 0x1_0000 + b2 * 0x100 + b3,
        ;
        assert(part =~= be32(x));
    }
    if part == be32(x) {
        assert(x == (x / 0x100_0000) * 0x100_0000 + (x / 0x1_0000 % 0x100) * 0x1_0000 + (x / 0x100
            % 0x100) * 0x100 + x % 0x100) by (bit_vector);
        assert(part[0] == data[i] && part[1] == data[i + 1] && part[2] == data[i + 2] && part[3]
            == data[i + 3]);
    }
}

proof fn lemma_header_bytes(data: Seq<u8>, frag_id: u32, index: u16, total: u16)
    requires
        data.len() >= FRAG_HEADER_LEN,
    ensures
        data.take(FRAG_HEADER_LEN as int) == header_bytes(frag_id, index, total) <==> {
            &&& data.subrange(0, 4) == be32(FRAG_MAGIC)
            &&& data.subrange(4, 8) == be32(frag_id)
            &&& data.subrange(8, 10) == be16(index)
            &&& data.subrange(10, 12) == be16(total)
        },
{
    let head = data.take(FRAG_HEADER_LEN as int);
    let parts = data.subrange(0, 4) + data.subrange(4, 8) + data.subrange(8, 10)
        + data.subrange(10, 12);
    assert(head =~= parts);
    if head == header_bytes(frag_id, index, total) {
        let h = header_bytes(frag_id, index, total);
        assert(data.subrange(0, 4) =~= head.subrange(0, 4));
        assert(data.subrange(4, 8) =~= head.subrange(4, 8));
        assert(data.subrange(8, 10) =~= head.subrange(8, 10));
        assert(data.subrange(10, 12) =~= head.subrange(10, 12));
        assert(h.subrange(0, 4) =~= be32(FRAG_MAGIC));
        assert(h.subrange(4, 8) =~= be32(frag_id));
        assert(h.subrange(8, 10) =~= be16(index));
        assert(h.subrange(10, 12) =~= be16(total));
    }
}

/// A datagram is accepted exactly when it is a header whose index is below its
/// total, followed by the chunk; no two readings of one datagram exist.
pub proof fn law_parse_is_canonical(data: Seq<u8>, header: FragHeader, chunk: Seq<u8>)
    ensures
        parsed_fragment(data) == Some((header, chunk)) <==> (header.index < header.total && data
            == header_bytes(header.frag_id, header.index, header.total) + chunk),
{
    let head = header_bytes(header.frag_id, header.index, header.total);
    assert(head.len() == FRAG_HEADER_LEN);
    if data.len() >= FRAG_HEADER_LEN {
        lemma_header_bytes(data, header.frag_id, header.index, header.total);
        lemma_u32_at(data, 0, FRAG_MAGIC);
        lemma_u32_at(data, 4, header.frag_id);
        lemma_u16_at(data, 8, header.index);
        lemma_u16_at(data, 10, header.total);
        assert(data =~= data.take(FRAG_HEADER_LEN as int) + data.skip(FRAG_HEADER_LEN as int));
        assert((head + chunk).take(FRAG_HEADER_LEN as int) =~= head);
        assert((head + chunk).skip(FRAG_HEADER_LEN as int) =~= chunk);
    }
}

/// Parsing undoes encoding: the datagram of fragment `i` carries the message
/// id, the index, the number of fragments and the chunk.
pub proof fn law_parse_undoes_encode(frag_id: u32, payload: Seq<u8>, i: int)
    requires
        0 <= i < fragment_count(payload.len()) <= u16::MAX,
    ensures
        parsed_fragment(fragment_datagram(frag_id, payload, i)) == Some(
            (
                FragHeader {
                    frag_id,
                    index: i as u16,
                    total: fragment_count(payload.len()) as u16,
                },
                chunk_of(payload, i),
            ),
        ),
{
    law_parse_is_canonical(
        fragment_datagram(frag_id, payload, i),
        FragHeader { frag_id, index: i as u16, total: fragment_count(payload.len()) as u16 },
        chunk_of(payload, i),
    );
}

/// A message is cut into as few fragments as hold it, and into one if it is empty.
pub proof fn law_as_few_fragments_as_needed(len: nat)
    ensures
        fragment_count(len) >= 1,
        fragment_count(len) * 1400 >= len,
        fragment_count(len) > 1 ==> (fragment_count(len) - 1) * 1400 < len,
{
}

/// The layout of a datagram, byte by byte: the letters KADF, the message id, the index and
/// the number of fragments, most significant byte first, and then the bytes of the message
/// from where the fragments before it end.
pub proof fn law_layout_of_a_datagram(frag_id: u32, payload: Seq<u8>, i: int)
    requires
        0 <= i < fragment_count(payload.len()) <= u16::MAX,
    ensures
        ({
            let d = fragment_datagram(frag_id, payload, i);
            &&& d[0] == 0x4B && d[1] == 0x41 && d[2] == 0x44 && d[3] == 0x46
            &&& d[4] * 0x100_0000 + d[5] * 0x1_0000 + d[6] * 0x100 + d[7] == frag_id
            &&& d[8] * 0x100 + d[9] == i
            &&& d[10] * 0x100 + d[11] == fragment_count(payload.len())
            &&& d.len() >= 12
            &&& forall|j: int|
                12 <= j < d.len() ==> #[trigger] d[j] == payload[i * 1400 + j - 12]
            &&& i + 1 < fragment_count(payload.len()) ==> d.len() == 12 + 1400
            &&& i + 1 == fragment_count(payload.len()) ==> i * 1400 + d.len() - 12
                == payload.len()
        }),
{
    let d = fragment_datagram(frag_id, payload, i);
    assert(FRAG_MAGIC / 0x100_0000 == 0x4B && FRAG_MAGIC / 0x1_0000 % 0x100 == 0x41 && FRAG_MAGIC
        / 0x100 % 0x100 == 0x44 && FRAG_MAGIC % 0x100 == 0x46);
    assert(frag_id == (frag_id / 0x100_0000) * 0x100_0000 + (frag_id / 0x1_0000 % 0x100) * 0x1_0000
        + (frag_id / 0x100 % 0x100) * 0x100 + frag_id % 0x100) by (bit_vector);
}

/// What is read from a datagram is what the layout says, and only datagrams with the right
/// letters and an index below the number of fragments are read.
pub proof fn law_fragments_are_read_by_the_layout(data: Seq<u8>)
    ensures
        parsed_fragment(data) is Some <==> {
            &&& data.len() >= 12
            &&& data[0] == 0x4B && data[1] == 0x41 && data[2] == 0x44 && data[3] == 0x46
            &&& data[8] * 0x100 + data[9] < data[10] * 0x100 + data[11]
        },
        parsed_fragment(data) matches Some((header, chunk)) ==> {
            &&& header.frag_id == data[4] * 0x100_0000 + data[5] * 0x1_0000 + data[6] * 0x100
                + data[7]
            &&& header.index == data[8] * 0x100 + data[9]
            &&& header.total == data[10] * 0x100 + data[11]
            &&& chunk == data.subrange(12, data.len() as int)
        },
{
    if data.len() >= 12 {
        assert(data.skip(12) =~= data.subrange(12, data.len() as int));
    }
}

/// The first chunk for a position stays, a position that does not exist takes none, and the
/// other positions are left alone.
pub proof fn law_first_arrival_stays(
    chunks: Seq<Option<Seq<u8>>>,
    index: int,
    first: Seq<u8>,
    second: Seq<u8>,
    other: int,
)
    ensures
        ({
            let after = accept_chunk(chunks, index, first);
            &&& after.len() == chunks.len()
            &&& 0 <= index < chunks.len() ==> after[index] == if chunks[index] is None {
                Some(first)
            } else {
                chunks[index]
            }
            &&& 0 <= other < chunks.len() && other != index ==> after[other] == chunks[other]
            &&& !(0 <= index < chunks.len()) ==> after == chunks
            &&& accept_chunk(after, index, second) == after
        }),
{
}

/// The chunks that have arrived are counted one by one.
pub proof fn law_received_counts_the_chunks(chunks: Seq<Option<Seq<u8>>>)
    ensures
        filled_count(chunks) == chunks.filter(|chunk: Option<Seq<u8>>| chunk is Some).len(),
    decreases chunks.len(),
{
    reveal(Seq::filter);
    if chunks.len() > 0 {
        law_received_counts_the_chunks(chunks.drop_last());
    }
}

/// A message is put together from its chunks as they are, one after the other.
pub proof fn law_assembly_joins_the_chunks(
    a: Seq<Option<Seq<u8>>>,
    b: Seq<Option<Seq<u8>>>,
    chunk: Seq<u8>,
)
    ensures
        assembled(Seq::empty()) == Seq::<u8>::empty(),
        assembled(seq![Some(chunk)]) == chunk,
        assembled(a + b) == assembled(a) + assembled(b),
    decreases b.len(),
{
    reveal_with_fuel(assembled, 2);
    assert(seq![Some(chunk)].drop_last() =~= Seq::empty());
    assert(assembled(seq![Some(chunk)]) =~= chunk);
    if b.len() > 0 {
        law_assembly_joins_the_chunks(a, b.drop_last(), chunk);
        assert((a + b).drop_last() =~= a + b.drop_last());
        assert((a + b).last() == b.last());
        assert(assembled(a + b) =~= assembled(a) + assembled(b));
    } else {
        assert(a + b =~= a);
        assert(assembled(a) + assembled(b) =~= assembled(a));
    }
}

/// No datagram is longer than header and chunk size together, and every chunk
/// but the last fills its datagram.
pub proof fn law_datagrams_stay_below_mtu(frag_id: u32, payload: Seq<u8>, i: int)
    requires
        0 <= i < fragment_count(payload.len()),
    ensures
        fragment_datagram(frag_id, payload, i).len() <= FRAG_HEADER_LEN + FRAG_CHUNK_SIZE,
        i + 1 < fragment_count(payload.len()) ==> fragment_datagram(frag_id, payload, i).len()
            == FRAG_HEADER_LEN + FRAG_CHUNK_SIZE,
{
}

} // verus!
