//! Bounded buffer for messages of which only some fragments have arrived.

use vstd::prelude::*;

use crate::clock::{self, elapsed};
use crate::endpoint::Endpoint;
use crate::fragmentation::{
    self,
    parse_fragment, FragHeader, ReassemblyEntry, FRAG_CHUNK_SIZE, MAX_MESSAGE_SIZE,
};

verus! {

/// Incomplete messages older than this are discarded, in nanoseconds.
pub const REASSEMBLY_TTL: u128 = 10_000_000_000;

/// Minimum time between two sweeps for incomplete messages, in nanoseconds.
pub const REASSEMBLY_GC_INTERVAL: u128 = 1_000_000_000;

/// Most incomplete messages held at a time.
pub const MAX_REASSEMBLY_ENTRIES: usize = 256;

/// Most incomplete messages held at a time for one peer.
pub const MAX_REASSEMBLY_ENTRIES_PER_PEER: usize = 16;

/// A message is identified by its sender and the sender's fragment id.
pub type MessageKey = (Endpoint, u32);

/// What the buffer holds of one incomplete message.
#[verifier::ext_equal]
pub struct SlotView {
    /// When the first fragment arrived.
    pub created_at: u128,
    /// The chunk that arrived for each position.
    pub chunks: Seq<Option<Seq<u8>>>,
}

/// The buffer as a mathematical value.
#[verifier::ext_equal]
pub struct BufferState {
    pub slots: Map<MessageKey, SlotView>,
    /// When the last sweep took place.
    pub last_gc: u128,
}

/// What became of a datagram.
#[derive(Debug)]
pub enum DatagramOutcome {
    /// Not a fragment.
    Malformed,
    /// The chunk or the whole message is larger than allowed.
    Oversized,
    /// The buffer is full.
    TableFull,
    /// The buffer holds the sender's full share.
    PeerLimit,
    /// The fragment contradicts an earlier one, and the message is dropped.
    TotalMismatch,
    /// More fragments are needed.
    Incomplete,
    /// The message is complete.
    Complete(Vec<u8>),
}

/// [`DatagramOutcome`] as a mathematical value.
pub enum OutcomeView {
    Malformed,
    Oversized,
    TableFull,
    PeerLimit,
    TotalMismatch,
    Incomplete,
    Complete(Seq<u8>),
}

impl View for DatagramOutcome {
    type V = OutcomeView;

    open spec fn view(&self) -> OutcomeView {
        match self {
            DatagramOutcome::Malformed => OutcomeView::Malformed,
            DatagramOutcome::Oversized => OutcomeView::Oversized,
            DatagramOutcome::TableFull => OutcomeView::TableFull,
            DatagramOutcome::PeerLimit => OutcomeView::PeerLimit,
            DatagramOutcome::TotalMismatch => OutcomeView::TotalMismatch,
            DatagramOutcome::Incomplete => OutcomeView::Incomplete,
            DatagramOutcome::Complete(message) => OutcomeView::Complete(message@),
        }
    }
}

/// A slot survives a sweep at `now`.
pub open spec fn is_fresh(slot: SlotView, now: u128) -> bool {
    clock::age(now, slot.created_at) < REASSEMBLY_TTL
}

/// The slots that survive a sweep at `now`.
pub open spec fn swept(slots: Map<MessageKey, SlotView>, now: u128) -> Map<MessageKey, SlotView> {
    Map::new(
        |key: MessageKey| slots.contains_key(key) && is_fresh(slots[key], now),
        |key: MessageKey| slots[key],
    )
}

/// The keys of `peer` among `slots`.
pub open spec fn keys_of(slots: Map<MessageKey, SlotView>, peer: Endpoint) -> Set<MessageKey> {
    slots.dom().filter(|key: MessageKey| key.0 == peer)
}

/// Neither the buffer as a whole nor any peer exceeds its limit.
pub open spec fn within_limits(slots: Map<MessageKey, SlotView>) -> bool {
    &&& slots.dom().finite()
    &&& slots.dom().len() <= MAX_REASSEMBLY_ENTRIES
    &&& forall|peer: Endpoint|
        (#[trigger] keys_of(slots, peer)).len() <= MAX_REASSEMBLY_ENTRIES_PER_PEER
}

impl BufferState {
    /// The buffer after the periodic sweep had its chance at `now`.
    pub open spec fn after_gc(self, now: u128) -> BufferState {
        if clock::age(now, self.last_gc) < REASSEMBLY_GC_INTERVAL {
            self
        } else {
            BufferState { slots: swept(self.slots, now), last_gc: now }
        }
    }

    pub open spec fn with_slots(self, slots: Map<MessageKey, SlotView>) -> BufferState {
        BufferState { slots, last_gc: self.last_gc }
    }

    /// The buffer after a fragment of a message of several fragments, and what
    /// became of the fragment.
    pub open spec fn after_fragment(
        self,
        peer: Endpoint,
        header: FragHeader,
        chunk: Seq<u8>,
        now: u128,
    ) -> (BufferState, OutcomeView) {
        let key = (peer, header.frag_id);
        let known = self.slots.contains_key(key);
        let slot = if known {
            self.slots[key]
        } else {
            SlotView { created_at: now, chunks: fragmentation::no_chunks(header.total as nat) }
        };
        let chunks = fragmentation::accept_chunk(slot.chunks, header.index as int, chunk);
        if !known && self.slots.dom().len() >= MAX_REASSEMBLY_ENTRIES {
            (self, OutcomeView::TableFull)
        } else if !known && keys_of(self.slots, peer).len() >= MAX_REASSEMBLY_ENTRIES_PER_PEER {
            (self, OutcomeView::PeerLimit)
        } else if slot.chunks.len() != header.total {
            (self.with_slots(self.slots.remove(key)), OutcomeView::TotalMismatch)
        } else if fragmentation::all_filled(chunks) {
            (
                self.with_slots(self.slots.remove(key)),
                OutcomeView::Complete(fragmentation::assembled(chunks)),
            )
        } else {
            (
                self.with_slots(
                    self.slots.insert(key, SlotView { created_at: slot.created_at, chunks }),
                ),
                OutcomeView::Incomplete,
            )
        }
    }

    /// The buffer after a datagram, and what became of the datagram.
    pub open spec fn after_datagram(
        self,
        peer: Endpoint,
        data: Seq<u8>,
        now: u128,
    ) -> (BufferState, OutcomeView) {
        match fragmentation::parsed_fragment(data) {
            None => (self, OutcomeView::Malformed),
            Some((header, chunk)) => {
                if header.total == 1 {
                    (self, OutcomeView::Complete(chunk))
                } else if header.total * FRAG_CHUNK_SIZE > MAX_MESSAGE_SIZE || chunk.len()
                    > FRAG_CHUNK_SIZE {
                    (self, OutcomeView::Oversized)
                } else {
                    self.after_gc(now).after_fragment(peer, header, chunk, now)
                }
            },
        }
    }
}

/// The limits hold after every datagram if they held before it.
pub proof fn law_limits_hold(state: BufferState, peer: Endpoint, data: Seq<u8>, now: u128)
    requires
        within_limits(state.slots),
    ensures
        within_limits(state.after_datagram(peer, data, now).0.slots),
{
    let ready = state.after_gc(now);
    lemma_limits_subset(state.slots, ready.slots);
    match fragmentation::parsed_fragment(data) {
        None => {},
        Some((header, chunk)) => {
            let key = (peer, header.frag_id);
            let after = ready.after_fragment(peer, header, chunk, now);
            if after.1 is Incomplete {
                lemma_limits_insert(ready.slots, key, after.0.slots[key]);
                assert(after.0.slots =~= ready.slots.insert(key, after.0.slots[key]));
            } else {
                lemma_limits_subset(ready.slots, after.0.slots);
            }
        },
    }
}

/// A fragment whose chunk is too large, or whose message would be, leaves the
/// buffer as it was.
pub proof fn law_oversized_never_enters(
    state: BufferState,
    peer: Endpoint,
    data: Seq<u8>,
    now: u128,
    header: FragHeader,
    chunk: Seq<u8>,
)
    requires
        fragmentation::parsed_fragment(data) == Some((header, chunk)),
        header.total > 1,
        chunk.len() > FRAG_CHUNK_SIZE || header.total * FRAG_CHUNK_SIZE > MAX_MESSAGE_SIZE,
    ensures
        state.after_datagram(peer, data, now) == (state, OutcomeView::Oversized),
{
}

/// A fragment that disagrees with an earlier one on the number of fragments
/// yields no message and frees the slot.
pub proof fn law_inconsistent_total_frees_the_slot(
    state: BufferState,
    peer: Endpoint,
    header: FragHeader,
    chunk: Seq<u8>,
    now: u128,
)
    requires
        state.slots.contains_key((peer, header.frag_id)),
        state.slots[(peer, header.frag_id)].chunks.len() != header.total,
    ensures
        state.after_fragment(peer, header, chunk, now).1 is TotalMismatch,
        !state.after_fragment(peer, header, chunk, now).0.slots.contains_key(
            (peer, header.frag_id),
        ),
{
}

/// A sweep takes place once a second has passed since the last one. It drops exactly the
/// messages whose first fragment arrived ten seconds ago or earlier.
pub proof fn law_sweep_drops_exactly_the_old(state: BufferState, now: u128, key: MessageKey)
    ensures
        ({
            let after = state.after_gc(now);
            if now < state.last_gc + 1_000_000_000 {
                after == state
            } else {
                &&& after.last_gc == now
                &&& after.slots.contains_key(key) <==> state.slots.contains_key(key) && now
                    < state.slots[key].created_at + 10_000_000_000
                &&& after.slots.contains_key(key) ==> after.slots[key] == state.slots[key]
            }
        }),
{
}

/// The first fragment of a message is turned away exactly if the buffer holds 256 messages or
/// 16 of the sender, and then nothing changes. Otherwise it opens a slot of its own, with
/// room for all fragments, that holds its chunk and counts its age from now.
pub proof fn law_first_fragment_opens_a_slot(
    state: BufferState,
    peer: Endpoint,
    header: FragHeader,
    chunk: Seq<u8>,
    now: u128,
)
    requires
        !state.slots.contains_key((peer, header.frag_id)),
        header.index < header.total,
        header.total > 1,
    ensures
        ({
            let (after, outcome) = state.after_fragment(peer, header, chunk, now);
            let full = state.slots.dom().len() >= 256;
            let share = state.slots.dom().filter(|key: MessageKey| key.0 == peer).len();
            let key = (peer, header.frag_id);
            &&& outcome is TableFull <==> full
            &&& outcome is PeerLimit <==> !full && share >= 16
            &&& outcome is TableFull || outcome is PeerLimit ==> after == state
            &&& !full && share < 16 ==> {
                &&& outcome is Incomplete
                &&& after.slots == state.slots.insert(key, after.slots[key])
                &&& after.slots[key].created_at == now
                &&& after.slots[key].chunks.len() == header.total
                &&& forall|i: int|
                    0 <= i < header.total ==> #[trigger] after.slots[key].chunks[i] == if i
                        == header.index {
                        Some(chunk)
                    } else {
                        None
                    }
            }
            &&& after.last_gc == state.last_gc
        }),
{
    let blank = fragmentation::no_chunks(header.total as nat);
    let chunks = fragmentation::accept_chunk(blank, header.index as int, chunk);
    let gap = if header.index == 0 {
        1int
    } else {
        0
    };
    assert(chunks[gap] is None);
    assert(keys_of(state.slots, peer) =~= state.slots.dom().filter(
        |key: MessageKey| key.0 == peer,
    ));
}

/// A further fragment never needs room. It is dropped with its message if it contradicts the
/// number of fragments. Otherwise the first chunk for a position stays, the age of the
/// message goes on from its first fragment, and the message is complete exactly when no
/// position is left without a chunk; then its slot is free again.
pub proof fn law_further_fragment_joins_its_message(
    state: BufferState,
    peer: Endpoint,
    header: FragHeader,
    chunk: Seq<u8>,
    now: u128,
)
    requires
        state.slots.contains_key((peer, header.frag_id)),
        header.index < header.total,
    ensures
        ({
            let (after, outcome) = state.after_fragment(peer, header, chunk, now);
            let key = (peer, header.frag_id);
            let slot = state.slots[key];
            let lacking = exists|i: int|
                0 <= i < slot.chunks.len() && i != header.index && #[trigger] slot.chunks[i] is None;
            &&& outcome is TotalMismatch <==> slot.chunks.len() != header.total
            &&& outcome is Complete <==> slot.chunks.len() == header.total && !lacking
            &&& outcome is Incomplete <==> slot.chunks.len() == header.total && lacking
            &&& outcome !is Incomplete ==> after.slots == state.slots.remove(key)
            &&& outcome is Incomplete ==> {
                &&& after.slots == state.slots.insert(key, after.slots[key])
                &&& after.slots[key].created_at == slot.created_at
                &&& after.slots[key].chunks.len() == slot.chunks.len()
                &&& forall|i: int|
                    0 <= i < slot.chunks.len() ==> #[trigger] after.slots[key].chunks[i] == if i
                        == header.index && slot.chunks[i] is None {
                        Some(chunk)
                    } else {
                        slot.chunks[i]
                    }
            }
            &&& after.last_gc == state.last_gc
        }),
{
    let slot = state.slots[(peer, header.frag_id)];
    let chunks = fragmentation::accept_chunk(slot.chunks, header.index as int, chunk);
    if exists|i: int|
        0 <= i < slot.chunks.len() && i != header.index && #[trigger] slot.chunks[i] is None {
        let i = choose|i: int|
            0 <= i < slot.chunks.len() && i != header.index && #[trigger] slot.chunks[i] is None;
        assert(chunks[i] is None);
    }
    if slot.chunks.len() == header.total && !fragmentation::all_filled(chunks) {
        let i = choose|i: int| 0 <= i < chunks.len() && (#[trigger] chunks[i]) is None;
        assert(slot.chunks[i] is None);
    }
}

/// What is not a fragment changes nothing, a message in one fragment arrives as it is and
/// changes nothing, a fragment is oversized exactly if its chunk or its message would be,
/// and any other fragment is taken in after the sweep had its chance.
pub proof fn law_datagrams_go_their_ways(
    state: BufferState,
    peer: Endpoint,
    data: Seq<u8>,
    now: u128,
)
    ensures
        ({
            let (after, outcome) = state.after_datagram(peer, data, now);
            match fragmentation::parsed_fragment(data) {
                None => outcome is Malformed && after == state,
                Some((header, chunk)) => {
                    let large = header.total * 1400 > 262_144 || chunk.len()
                        > 1400;
                    &&& outcome !is Malformed
                    &&& header.total == 1 ==> after == state && outcome == OutcomeView::Complete(
                        chunk,
                    )
                    &&& outcome is Oversized <==> header.total != 1 && large
                    &&& outcome is Oversized ==> after == state
                    &&& header.total != 1 && !large ==> (after, outcome) == state.after_gc(
                        now,
                    ).after_fragment(peer, header, chunk, now)
                },
            }
        }),
{
}

/// A datagram touches no message but its own, except that a sweep may drop
/// messages past their time.
pub proof fn law_messages_do_not_interfere(
    state: BufferState,
    peer: Endpoint,
    data: Seq<u8>,
    now: u128,
    other: MessageKey,
)
    requires
        state.slots.contains_key(other),
        is_fresh(state.slots[other], now),
        fragmentation::parsed_fragment(data) matches Some((header, chunk)) ==> other != (
            peer,
            header.frag_id,
        ),
    ensures
        state.after_datagram(peer, data, now).0.slots.contains_key(other),
        state.after_datagram(peer, data, now).0.slots[other] == state.slots[other],
{
}

/// The buffer gives back what was fragmented. While the fragments of `payload`
/// named by `order` have arrived, and some are missing, the next one, `i`,
/// either completes the message, which is then `payload`, or joins the others.
/// The first fragment (`order` empty) needs room in the buffer.
pub proof fn law_buffer_gives_back_the_message(
    state: BufferState,
    peer: Endpoint,
    frag_id: u32,
    payload: Seq<u8>,
    order: Seq<int>,
    i: int,
    now: u128,
)
    requires
        1 < fragmentation::fragment_count(payload.len()),
        fragmentation::fragment_count(payload.len()) * FRAG_CHUNK_SIZE <= MAX_MESSAGE_SIZE,
        0 <= i < fragmentation::fragment_count(payload.len()),
        order.len() == 0 ==> {
            let ready = state.after_gc(now);
            &&& !ready.slots.contains_key((peer, frag_id))
            &&& ready.slots.dom().len() < MAX_REASSEMBLY_ENTRIES
            &&& keys_of(ready.slots, peer).len() < MAX_REASSEMBLY_ENTRIES_PER_PEER
        },
        order.len() > 0 ==> {
            &&& state.slots.contains_key((peer, frag_id))
            &&& is_fresh(state.slots[(peer, frag_id)], now)
            &&& state.slots[(peer, frag_id)].chunks == fragmentation::deliver(
                fragmentation::no_chunks(
                    fragmentation::fragment_count(payload.len()),
                ),
                payload,
                order,
            )
        },
    ensures
        ({
            let count = fragmentation::fragment_count(payload.len());
            let data = fragmentation::fragment_datagram(frag_id, payload, i);
            let (after, outcome) = state.after_datagram(peer, data, now);
            if forall|j: int| 0 <= j < count ==> order.push(i).contains(j) {
                &&& outcome == OutcomeView::Complete(payload)
                &&& !after.slots.contains_key((peer, frag_id))
            } else {
                &&& outcome is Incomplete
                &&& after.slots.contains_key((peer, frag_id))
                &&& after.slots[(peer, frag_id)].chunks == fragmentation::deliver(
                    fragmentation::no_chunks(count),
                    payload,
                    order.push(i),
                )
            }
        }),
{
    let count = fragmentation::fragment_count(payload.len());
    let chunk = fragmentation::chunk_of(payload, i);
    let none = fragmentation::no_chunks(count);
    let ready = state.after_gc(now);
    fragmentation::law_parse_undoes_encode(frag_id, payload, i);
    let slot = if order.len() == 0 {
        SlotView { created_at: now, chunks: none }
    } else {
        state.slots[(peer, frag_id)]
    };
    assert(order.push(i).drop_last() =~= order);
    assert(order.len() == 0 ==> order =~= Seq::<int>::empty());
    let after = fragmentation::accept_chunk(slot.chunks, i, chunk);
    assert(after == fragmentation::deliver(none, payload, order.push(i)));
    fragmentation::lemma_deliver(none, payload, order);
    if forall|j: int| 0 <= j < count ==> order.push(i).contains(j) {
        fragmentation::law_reassembly_in_any_order(payload, order.push(i));
    } else {
        let j = choose|j: int| 0 <= j < count && !order.push(i).contains(j);
        fragmentation::law_missing_fragment_is_noticed(payload, order.push(i), j);
    }
    assert(ready.slots.contains_key((peer, frag_id)) ==> ready.slots[(peer, frag_id)] == slot);
}

/// A message that fits one datagram arrives at once and leaves the buffer alone.
pub proof fn law_single_fragment_passes_through(
    state: BufferState,
    peer: Endpoint,
    frag_id: u32,
    payload: Seq<u8>,
    now: u128,
)
    requires
        fragmentation::fragment_count(payload.len()) == 1,
    ensures
        state.after_datagram(peer, fragmentation::fragment_datagram(frag_id, payload, 0), now) == (
            state,
            OutcomeView::Complete(payload),
        ),
{
    fragmentation::law_parse_undoes_encode(frag_id, payload, 0);
    assert(fragmentation::chunk_of(payload, 0) =~= payload);
}

/// One incomplete message.
#[derive(Debug)]
struct Slot {
    peer: Endpoint,
    frag_id: u32,
    created_at: u128,
    entry: ReassemblyEntry,
}

impl Slot {
    spec fn key(&self) -> MessageKey {
        (self.peer, self.frag_id)
    }

    spec fn contents(&self) -> SlotView {
        SlotView { created_at: self.created_at, chunks: self.entry@ }
    }
}

/// `slots` holds `key` at `i`.
spec fn is_at(slots: Seq<Slot>, key: MessageKey, i: int) -> bool {
    0 <= i < slots.len() && slots[i].key() == key
}

spec fn slot_map(slots: Seq<Slot>) -> Map<MessageKey, SlotView> {
    Map::new(
        |key: MessageKey| exists|i: int| is_at(slots, key, i),
        |key: MessageKey| slots[choose|i: int| is_at(slots, key, i)].contents(),
    )
}

spec fn distinct_keys(slots: Seq<Slot>) -> bool {
    forall|i: int, j: int|
        0 <= i < slots.len() && 0 <= j < slots.len() && i != j ==> (#[trigger] slots[i]).key() != (
        #[trigger] slots[j]).key()
}

proof fn lemma_slot_map(slots: Seq<Slot>)
    requires
        distinct_keys(slots),
    ensures
        forall|i: int|
            0 <= i < slots.len() ==> slot_map(slots).contains_key((#[trigger] slots[i]).key())
                && slot_map(slots)[slots[i].key()] == slots[i].contents(),
        forall|key: MessageKey| #[trigger]
            slot_map(slots).contains_key(key) ==> exists|i: int| is_at(slots, key, i),
{
    assert forall|i: int| 0 <= i < slots.len() implies slot_map(slots).contains_key(
        (#[trigger] slots[i]).key(),
    ) && slot_map(slots)[slots[i].key()] == slots[i].contents() by {
        assert(is_at(slots, slots[i].key(), i));
        let j = choose|j: int| is_at(slots, slots[i].key(), j);
        assert(j == i);
    }
}

/// The buffer's keys, and those of one peer, counted in the vector.
proof fn lemma_slot_count(slots: Seq<Slot>, peer: Endpoint)
    requires
        distinct_keys(slots),
    ensures
        slot_map(slots).dom().finite(),
        slot_map(slots).dom().len() == slots.len(),
        keys_of(slot_map(slots), peer).len() == peer_count(slots, peer),
    decreases slots.len(),
{
    lemma_slot_map(slots);
    if slots.len() == 0 {
        assert(slot_map(slots).dom() =~= Set::empty());
        assert(keys_of(slot_map(slots), peer) =~= Set::empty());
    } else {
        let init = slots.drop_last();
        let last = slots.last().key();
        assert(distinct_keys(init)) by {
            assert forall|i: int, j: int|
                0 <= i < init.len() && 0 <= j < init.len() && i != j implies (
            #[trigger] init[i]).key() != (#[trigger] init[j]).key() by {
                assert(slots[i].key() != slots[j].key());
            }
        }
        lemma_slot_count(init, peer);
        lemma_slot_map(init);
        assert(!slot_map(init).contains_key(last)) by {
            if slot_map(init).contains_key(last) {
                let i = choose|i: int| is_at(init, last, i);
                assert(slots[i].key() != slots[slots.len() - 1].key());
            }
        }
        assert(slot_map(slots).dom() =~= slot_map(init).dom().insert(last)) by {
            assert forall|key: MessageKey|
                slot_map(slots).contains_key(key) <==> slot_map(init).contains_key(key) || key
                    == last by {
                if slot_map(slots).contains_key(key) && key != last {
                    let i = choose|i: int| is_at(slots, key, i);
                    assert(is_at(init, key, i));
                }
                if slot_map(init).contains_key(key) {
                    let i = choose|i: int| is_at(init, key, i);
                    assert(is_at(slots, key, i));
                }
                assert(slots[slots.len() - 1].key() == last);
            }
        }
        if last.0 == peer {
            assert(keys_of(slot_map(slots), peer) =~= keys_of(slot_map(init), peer).insert(last));
        } else {
            assert(keys_of(slot_map(slots), peer) =~= keys_of(slot_map(init), peer));
        }
    }
}

spec fn peer_count(slots: Seq<Slot>, peer: Endpoint) -> nat
    decreases slots.len(),
{
    if slots.len() == 0 {
        0
    } else {
        peer_count(slots.drop_last(), peer) + if slots.last().peer == peer {
            1nat
        } else {
            0
        }
    }
}

proof fn lemma_remove_slot(slots: Seq<Slot>, i: int)
    requires
        distinct_keys(slots),
        0 <= i < slots.len(),
    ensures
        distinct_keys(slots.remove(i)),
        slot_map(slots.remove(i)) == slot_map(slots).remove(slots[i].key()),
{
    let rest = slots.remove(i);
    assert forall|a: int, b: int| 0 <= a < rest.len() && 0 <= b < rest.len() && a != b implies (
    #[trigger] rest[a]).key() != (#[trigger] rest[b]).key() by {
        let a0 = if a < i { a } else { a + 1 };
        let b0 = if b < i { b } else { b + 1 };
        assert(slots[a0].key() != slots[b0].key());
    }
    lemma_slot_map(slots);
    lemma_slot_map(rest);
    let removed = slot_map(slots).remove(slots[i].key());
    assert forall|key: MessageKey| slot_map(rest).contains_key(key) <==> removed.contains_key(key) by {
        if slot_map(rest).contains_key(key) {
            let a = choose|a: int| is_at(rest, key, a);
            let a0 = if a < i { a } else { a + 1 };
            assert(is_at(slots, key, a0));
            assert(slots[a0].key() != slots[i].key());
        }
        if removed.contains_key(key) {
            let a0 = choose|a0: int| is_at(slots, key, a0);
            let a = if a0 < i { a0 } else { a0 - 1 };
            assert(is_at(rest, key, a));
        }
    }
    assert forall|key: MessageKey| slot_map(rest).contains_key(key) implies slot_map(rest)[key]
        == removed[key] by {
        let a = choose|a: int| is_at(rest, key, a);
        let a0 = if a < i { a } else { a + 1 };
        assert(rest[a] == slots[a0]);
    }
    assert(slot_map(rest) =~= removed);
}

proof fn lemma_push_slot(slots: Seq<Slot>, slot: Slot)
    requires
        distinct_keys(slots),
        !slot_map(slots).contains_key(slot.key()),
    ensures
        distinct_keys(slots.push(slot)),
        slot_map(slots.push(slot)) == slot_map(slots).insert(slot.key(), slot.contents()),
{
    let grown = slots.push(slot);
    lemma_slot_map(slots);
    assert forall|a: int, b: int| 0 <= a < grown.len() && 0 <= b < grown.len() && a != b implies (
    #[trigger] grown[a]).key() != (#[trigger] grown[b]).key() by {
        if a < slots.len() && b < slots.len() {
            assert(slots[a].key() != slots[b].key());
        } else if a < slots.len() {
            assert(slot_map(slots).contains_key(slots[a].key()));
        } else {
            assert(slot_map(slots).contains_key(slots[b].key()));
        }
    }
    lemma_slot_map(grown);
    let inserted = slot_map(slots).insert(slot.key(), slot.contents());
    assert forall|key: MessageKey| slot_map(grown).contains_key(key) <==> inserted.contains_key(
        key,
    ) by {
        if slot_map(grown).contains_key(key) {
            let a = choose|a: int| is_at(grown, key, a);
            if a < slots.len() {
                assert(is_at(slots, key, a));
            }
        }
        if slot_map(slots).contains_key(key) {
            let a = choose|a: int| is_at(slots, key, a);
            assert(is_at(grown, key, a));
        }
        assert(is_at(grown, slot.key(), slots.len() as int));
    }
    assert forall|key: MessageKey| slot_map(grown).contains_key(key) implies slot_map(grown)[key]
        == inserted[key] by {
        let a = choose|a: int| is_at(grown, key, a);
        if a < slots.len() {
            assert(grown[a] == slots[a]);
            assert(slot_map(slots).contains_key(slots[a].key()));
        }
    }
    assert(slot_map(grown) =~= inserted);
}

/// Limits survive dropping slots.
proof fn lemma_limits_subset(slots: Map<MessageKey, SlotView>, kept: Map<MessageKey, SlotView>)
    requires
        within_limits(slots),
        kept.dom().subset_of(slots.dom()),
    ensures
        within_limits(kept),
{
    vstd::set_lib::lemma_set_subset_finite(slots.dom(), kept.dom());
    vstd::set_lib::lemma_len_subset(kept.dom(), slots.dom());
    assert forall|peer: Endpoint| (#[trigger] keys_of(kept, peer)).len()
        <= MAX_REASSEMBLY_ENTRIES_PER_PEER by {
        assert(keys_of(slots, peer).finite());
        vstd::set_lib::lemma_len_subset(keys_of(kept, peer), keys_of(slots, peer));
    }
}

/// Limits survive a new slot where both still have room.
proof fn lemma_limits_insert(slots: Map<MessageKey, SlotView>, key: MessageKey, slot: SlotView)
    requires
        within_limits(slots),
        !slots.contains_key(key) ==> slots.dom().len() < MAX_REASSEMBLY_ENTRIES && keys_of(
            slots,
            key.0,
        ).len() < MAX_REASSEMBLY_ENTRIES_PER_PEER,
    ensures
        within_limits(slots.insert(key, slot)),
{
    let grown = slots.insert(key, slot);
    assert forall|peer: Endpoint| (#[trigger] keys_of(grown, peer)).len()
        <= MAX_REASSEMBLY_ENTRIES_PER_PEER by {
        assert(keys_of(slots, peer).finite());
        if peer == key.0 {
            assert(keys_of(grown, peer) =~= keys_of(slots, peer).insert(key));
        } else {
            assert(keys_of(grown, peer) =~= keys_of(slots, peer));
        }
    }
    assert(grown.dom() =~= slots.dom().insert(key));
}

/// Messages of which only some fragments have arrived, by sender and fragment
/// id. The number of messages is bounded, in total and per peer.
#[derive(Debug)]
pub struct ReassemblyBuffer {
    slots: Vec<Slot>,
    last_gc: u128,
}

impl View for ReassemblyBuffer {
    type V = BufferState;

    closed spec fn view(&self) -> BufferState {
        BufferState { slots: slot_map(self.slots@), last_gc: self.last_gc }
    }
}

impl ReassemblyBuffer {
    /// No message is held twice, each is a valid entry, and the limits hold.
    pub closed spec fn wf(&self) -> bool {
        &&& distinct_keys(self.slots@)
        &&& forall|i: int| 0 <= i < self.slots@.len() ==> (#[trigger] self.slots@[i]).entry.wf()
        &&& within_limits(self@.slots)
    }

    /// An empty buffer; the first sweep is due one interval after `now`.
    pub fn new(now: u128) -> (buffer: Self)
        ensures
            buffer.wf(),
            buffer@ == (BufferState { slots: Map::empty(), last_gc: now }),
    {
        let buffer = ReassemblyBuffer { slots: Vec::new(), last_gc: now };
        proof {
            assert(slot_map(buffer.slots@) =~= Map::empty());
            assert forall|peer: Endpoint| (#[trigger] keys_of(buffer@.slots, peer)).len()
                <= MAX_REASSEMBLY_ENTRIES_PER_PEER by {
                assert(keys_of(buffer@.slots, peer) =~= Set::empty());
            }
        }
        buffer
    }

    /// Number of incomplete messages held.
    pub fn len(&self) -> (len: usize)
        requires
            self.wf(),
        ensures
            len == self@.slots.dom().len(),
    {
        proof {
            lemma_slot_count(self.slots@, Endpoint::V4 { ipv4: 0, port: 0 });
        }
        self.slots.len()
    }

    /// Whether no incomplete message is held.
    pub fn is_empty(&self) -> (empty: bool)
        requires
            self.wf(),
        ensures
            empty <==> self@.slots.dom().len() == 0,
    {
        self.len() == 0
    }

    fn find(&self, peer: Endpoint, frag_id: u32) -> (found: Option<usize>)
        requires
            self.wf(),
        ensures
            match found {
                Some(i) => is_at(self.slots@, (peer, frag_id), i as int)
                    && self@.slots.contains_key((peer, frag_id)),
                None => !self@.slots.contains_key((peer, frag_id)),
            },
    {
        let mut i: usize = 0;
        while i < self.slots.len()
            invariant
                i <= self.slots@.len(),
                forall|j: int| 0 <= j < i ==> !#[trigger] is_at(self.slots@, (peer, frag_id), j),
            decreases self.slots@.len() - i,
        {
            if self.slots[i].peer == peer && self.slots[i].frag_id == frag_id {
                assert(is_at(self.slots@, (peer, frag_id), i as int));
                return Some(i);
            }
            i = i + 1;
        }
        None
    }

    fn count_peer(&self, peer: Endpoint) -> (count: usize)
        requires
            self.wf(),
        ensures
            count == keys_of(self@.slots, peer).len(),
    {
        let mut count: usize = 0;
        let mut i: usize = 0;
        while i < self.slots.len()
            invariant
                i <= self.slots@.len(),
                count <= i,
                count == peer_count(self.slots@.take(i as int), peer),
            decreases self.slots@.len() - i,
        {
            assert(self.slots@.take(i + 1).drop_last() =~= self.slots@.take(i as int));
            if self.slots[i].peer == peer {
                count = count + 1;
            }
            i = i + 1;
        }
        assert(self.slots@.take(i as int) =~= self.slots@);
        proof {
            lemma_slot_count(self.slots@, peer);
        }
        count
    }

    /// Drop messages older than [`REASSEMBLY_TTL`], at most once per
    /// [`REASSEMBLY_GC_INTERVAL`].
    pub fn gc(&mut self, now: u128)
        requires
            old(self).wf(),
        ensures
            final(self).wf(),
            final(self)@ == old(self)@.after_gc(now),
    {
        if elapsed(now, self.last_gc) < REASSEMBLY_GC_INTERVAL {
            return;
        }
        self.last_gc = now;
        let ghost before = self@.slots;
        let mut i: usize = 0;
        while i < self.slots.len()
            invariant
                i <= self.slots@.len(),
                self.last_gc == now,
                distinct_keys(self.slots@),
                forall|j: int|
                    0 <= j < self.slots@.len() ==> (#[trigger] self.slots@[j]).entry.wf(),
                within_limits(before),
                self@.slots.submap_of(before),
                forall|key: MessageKey| #[trigger]
                    before.contains_key(key) && is_fresh(before[key], now)
                        ==> self@.slots.contains_key(key),
                forall|j: int|
                    0 <= j < i ==> is_fresh((#[trigger] self.slots@[j]).contents(), now),
            decreases self.slots@.len() - i,
        {
            let ghost slots = self.slots@;
            proof {
                lemma_slot_map(slots);
            }
            if elapsed(now, self.slots[i].created_at) < REASSEMBLY_TTL {
                i = i + 1;
            } else {
                proof {
                    lemma_remove_slot(slots, i as int);
                    assert(before.contains_key(slots[i as int].key()));
                }
                let _ = self.slots.remove(i);
                assert(self.slots@ =~= slots.remove(i as int));
            }
        }
        proof {
            lemma_slot_map(self.slots@);
            assert forall|key: MessageKey| self@.slots.contains_key(key) implies is_fresh(
                before[key],
                now,
            ) by {
                let j = choose|j: int| is_at(self.slots@, key, j);
                assert(is_fresh(self.slots@[j].contents(), now));
                assert(self@.slots.contains_key(self.slots@[j].key()));
                assert(before.contains_key(key) && before[key] == self@.slots[key]);
            }
            assert(self@.slots =~= swept(before, now));
            lemma_limits_subset(before, self@.slots);
        }
    }

    /// Take in a fragment of a message of several fragments.
    fn accept_fragment(&mut self, peer: Endpoint, header: FragHeader, chunk: &[u8], now: u128) -> (
    outcome: DatagramOutcome)
        requires
            old(self).wf(),
            header.index < header.total,
        ensures
            final(self).wf(),
            (final(self)@, outcome@) == old(self)@.after_fragment(peer, header, chunk@, now),
    {
        let ghost key = (peer, header.frag_id);
        let ghost before = self@.slots;
        let found = self.find(peer, header.frag_id);
        let mut slot = match found {
            Some(i) => {
                proof {
                    lemma_slot_map(self.slots@);
                    lemma_remove_slot(self.slots@, i as int);
                }
                self.slots.remove(i)
            },
            None => {
                if self.len() >= MAX_REASSEMBLY_ENTRIES {
                    return DatagramOutcome::TableFull;
                }
                if self.count_peer(peer) >= MAX_REASSEMBLY_ENTRIES_PER_PEER {
                    return DatagramOutcome::PeerLimit;
                }
                Slot {
                    peer,
                    frag_id: header.frag_id,
                    created_at: now,
                    entry: ReassemblyEntry::new(header.total),
                }
            },
        };
        assert(self@.slots =~= before.remove(key));
        proof {
            lemma_limits_subset(before, self@.slots);
        }
        if slot.entry.total() != header.total {
            return DatagramOutcome::TotalMismatch;
        }
        let complete = slot.entry.insert(header.index, vstd::slice::slice_to_vec(chunk));
        if complete {
            match slot.entry.assemble() {
                Some(message) => {
                    return DatagramOutcome::Complete(message);
                },
                None => {},
            }
        } else {
            proof {
                lemma_push_slot(self.slots@, slot);
                lemma_limits_insert(before, key, slot.contents());
                assert(before.remove(key).insert(key, slot.contents()) =~= before.insert(
                    key,
                    slot.contents(),
                ));
            }
            self.slots.push(slot);
        }
        DatagramOutcome::Incomplete
    }

    /// Take in a datagram from `peer`.
    ///
    /// A message of one fragment is handed on at once. Fragments that would make
    /// a message too large, or are too large themselves, never enter the buffer.
    pub fn accept(&mut self, peer: Endpoint, data: &[u8], now: u128) -> (outcome: DatagramOutcome)
        requires
            old(self).wf(),
        ensures
            final(self).wf(),
            (final(self)@, outcome@) == old(self)@.after_datagram(peer, data@, now),
    {
        let (header, chunk) = match parse_fragment(data) {
            Some(parts) => parts,
            None => {
                return DatagramOutcome::Malformed;
            },
        };
        if header.total == 1 {
            return DatagramOutcome::Complete(vstd::slice::slice_to_vec(chunk));
        }
        if header.total as usize * FRAG_CHUNK_SIZE > MAX_MESSAGE_SIZE || chunk.len()
            > FRAG_CHUNK_SIZE {
            return DatagramOutcome::Oversized;
        }
        self.gc(now);
        self.accept_fragment(peer, header, chunk, now)
    }
}

} // verus!
