//! Bookkeeping on peers: strikes for invalid records and discoveries in progress.

use dashmap::DashMap;
use std::hash::RandomState;
use vstd::prelude::*;

use crate::utils::ID_LEN;

verus! {

/// Most discoveries of new peers that are worked on at a time.
pub const WELCOME_CONCURRENCY: usize = 1;

/// The counts that a map holds, by id.
pub uninterp spec fn counts_of(map: DashMap<[u8; ID_LEN], u32, RandomState>) -> Map<Seq<u8>, u32>;

/// `DashMap::new`. Claimed: the map is empty.
#[verifier::external_body]
fn count_map() -> (created: DashMap<[u8; ID_LEN], u32, RandomState>)
    ensures
        counts_of(created).dom() == Set::<Seq<u8>>::empty(),
{
    DashMap::new()
}

/// `DashMap::get`, with the count copied out. Claimed: the count under `id`, or
/// `None` if there is none.
#[verifier::external_body]
fn count_get(map: &DashMap<[u8; ID_LEN], u32, RandomState>, id: &[u8; ID_LEN]) -> (count: Option<
    u32,
>)
    ensures
        match count {
            Some(count) => counts_of(*map).contains_key(id@) && counts_of(*map)[id@] == count,
            None => !counts_of(*map).contains_key(id@),
        },
{
    map.get(id).map(|entry| *entry.value())
}

/// `DashMap::insert`. Claimed: `count` now stands under `id`; the other ids keep
/// their counts.
#[verifier::external_body]
fn count_insert(map: &mut DashMap<[u8; ID_LEN], u32, RandomState>, id: [u8; ID_LEN], count: u32)
    ensures
        counts_of(*final(map)) == counts_of(*old(map)).insert(id@, count),
{
    map.insert(id, count);
}

/// How often each peer sent a record that failed verification.
pub struct StrikeCounter {
    counts: DashMap<[u8; ID_LEN], u32, RandomState>,
}

impl View for StrikeCounter {
    type V = Map<Seq<u8>, u32>;

    closed spec fn view(&self) -> Map<Seq<u8>, u32> {
        counts_of(self.counts)
    }
}

/// The strikes against `id`.
pub open spec fn strikes_against(counts: Map<Seq<u8>, u32>, id: Seq<u8>) -> u32 {
    if counts.contains_key(id) {
        counts[id]
    } else {
        0
    }
}

impl StrikeCounter {
    pub fn new() -> (counter: Self)
        ensures
            counter@ == Map::<Seq<u8>, u32>::empty(),
    {
        let counter = StrikeCounter { counts: count_map() };
        assert(counter@ =~= Map::empty());
        counter
    }

    /// The strikes against a peer.
    pub fn count(&self, id: &[u8; ID_LEN]) -> (count: u32)
        ensures
            count == strikes_against(self@, id@),
    {
        match count_get(&self.counts, id) {
            Some(count) => count,
            None => 0,
        }
    }

    /// Adds a strike against a peer and returns how many there are now.
    pub fn record(&mut self, id: [u8; ID_LEN]) -> (count: u32)
        requires
            strikes_against(old(self)@, id@) < u32::MAX,
        ensures
            count == strikes_against(old(self)@, id@) + 1,
            final(self)@ == old(self)@.insert(id@, count),
    {
        let count: u32 = self.count(&id) + 1;
        count_insert(&mut self.counts, id, count);
        count
    }
}

/// The ids that a map holds.
pub uninterp spec fn ids_of(map: DashMap<[u8; ID_LEN], (), RandomState>) -> Set<Seq<u8>>;

/// `DashMap::new`. Claimed: the map is empty.
#[verifier::external_body]
fn id_map() -> (created: DashMap<[u8; ID_LEN], (), RandomState>)
    ensures
        ids_of(created) == Set::<Seq<u8>>::empty(),
{
    DashMap::new()
}

/// `DashMap::insert`. Claimed: `id` is in the map now, and the result tells whether
/// it was before.
#[verifier::external_body]
fn id_insert(map: &mut DashMap<[u8; ID_LEN], (), RandomState>, id: [u8; ID_LEN]) -> (present:
    Option<()>)
    ensures
        ids_of(*final(map)) == ids_of(*old(map)).insert(id@),
        present is Some <==> ids_of(*old(map)).contains(id@),
{
    map.insert(id, ())
}

/// `DashMap::remove`. Claimed: `id` is not in the map any more, the others stay, and
/// the result tells whether it was there before.
#[verifier::external_body]
fn id_remove(map: &mut DashMap<[u8; ID_LEN], (), RandomState>, id: &[u8; ID_LEN]) -> (present:
    Option<()>)
    ensures
        ids_of(*final(map)) == ids_of(*old(map)).remove(id@),
        present is Some <==> ids_of(*old(map)).contains(id@),
{
    map.remove(id).map(|entry| entry.1)
}

/// Discoveries of new peers, each at most once at a time.
///
/// Working on a discovery may take a scan of the whole storage, so only
/// [`WELCOME_CONCURRENCY`] of them run at a time.
pub struct WelcomeQueue {
    in_flight: DashMap<[u8; ID_LEN], (), RandomState>,
    permits: usize,
}

impl View for WelcomeQueue {
    type V = Set<Seq<u8>>;

    /// The ids of the peers whose discovery is being worked on.
    closed spec fn view(&self) -> Set<Seq<u8>> {
        ids_of(self.in_flight)
    }
}

impl WelcomeQueue {
    /// Every discovery in progress holds one permit.
    pub closed spec fn wf(&self) -> bool {
        &&& self@.finite()
        &&& self@.len() + self.permits == WELCOME_CONCURRENCY
    }

    /// No more than [`WELCOME_CONCURRENCY`] discoveries are in progress.
    pub proof fn lemma_wf(&self)
        requires
            self.wf(),
        ensures
            self@.finite(),
            self@.len() <= WELCOME_CONCURRENCY,
    {
    }

    pub fn new() -> (queue: Self)
        ensures
            queue.wf(),
            queue@ == Set::<Seq<u8>>::empty(),
    {
        WelcomeQueue { in_flight: id_map(), permits: WELCOME_CONCURRENCY }
    }

    /// Starts on the peer `id`, unless it is already being worked on or all permits
    /// are taken.
    pub fn start(&mut self, id: [u8; ID_LEN]) -> (started: bool)
        requires
            old(self).wf(),
        ensures
            final(self).wf(),
            started <==> !old(self)@.contains(id@) && old(self)@.len() < WELCOME_CONCURRENCY,
            final(self)@ == if started {
                old(self)@.insert(id@)
            } else {
                old(self)@
            },
    {
        if id_insert(&mut self.in_flight, id).is_some() {
            assert(old(self)@.insert(id@) =~= old(self)@);
            return false;
        }
        if self.permits == 0 {
            let _ = id_remove(&mut self.in_flight, &id);
            assert(old(self)@.insert(id@).remove(id@) =~= old(self)@);
            return false;
        }
        self.permits = self.permits - 1;
        true
    }

    /// The work on the peer `id` is over, if there was any.
    pub fn finish(&mut self, id: &[u8; ID_LEN])
        requires
            old(self).wf(),
        ensures
            final(self).wf(),
            final(self)@ == old(self)@.remove(id@),
    {
        if id_remove(&mut self.in_flight, id).is_some() {
            self.permits = self.permits + 1;
        } else {
            assert(old(self)@.remove(id@) =~= old(self)@);
        }
    }
}

} // verus!
