//! Key-value storage with a byte budget and optional expiry.
//!
//! [`IStorage`] is the interface that the protocol layer works with.
//! [`ForgetfulStorage`] implements it on a `DashMap`. Expiry is lazy: records are
//! checked when they are read, and an explicit pass reclaims those that expired.

use dashmap::DashMap;
use std::hash::RandomState;
use vstd::prelude::*;

use crate::clock::{self, elapsed, nanos_since, start_of_clock};
use crate::utils::{bytes_eq, copy_bytes, id_from_slice, ID_LEN};

verus! {

/// Two weeks in seconds: the default lifetime of a record.
pub const DEFAULT_TTL: i64 = 14 * 24 * 60 * 60;

/// Default per-node storage budget: 512 MiB of keys and values.
pub const DEFAULT_MAX_STORAGE_BYTES: usize = 512 * 1024 * 1024;

/// Result of a storage write.
#[derive(Debug, Clone, Copy, PartialEq, Eq, Structural)]
pub enum StorageWriteStatus {
    Stored,
    AlreadyStored,
    Conflict,
    CapacityExceeded,
}

/// `dashmap::DashMap`, opaque here.
#[verifier::external_type_specification]
#[verifier::external_body]
#[verifier::reject_recursive_types(K)]
#[verifier::reject_recursive_types(V)]
#[verifier::reject_recursive_types(S)]
pub struct ExDashMap<K, V, S>(DashMap<K, V, S>);

/// A stored value and the time it was last written.
pub type Record = (Vec<u8>, u128);

/// Records by key, as a mathematical value.
pub type Records = Map<Seq<u8>, (Seq<u8>, u128)>;

/// The records that a map holds, by key.
pub uninterp spec fn records_of(map: DashMap<Vec<u8>, Record, RandomState>) -> Map<
    Seq<u8>,
    (Seq<u8>, u128),
>;

/// `DashMap::new`. Claimed: the map is empty.
#[verifier::external_body]
fn record_map() -> (created: DashMap<Vec<u8>, Record, RandomState>)
    ensures
        records_of(created) == Records::empty(),
{
    DashMap::new()
}

/// `DashMap::get`, with the record copied out. Claimed: the record under `key`, or
/// `None` if there is none.
#[verifier::external_body]
fn record_get(map: &DashMap<Vec<u8>, Record, RandomState>, key: &[u8]) -> (record: Option<Record>)
    ensures
        match record {
            Some(record) => records_of(*map).contains_key(key@) && records_of(*map)[key@] == (
                record.0@,
                record.1,
            ),
            None => !records_of(*map).contains_key(key@),
        },
{
    map.get(key).map(|entry| entry.value().clone())
}

/// `DashMap::insert`. Claimed: `record` now stands under `key`, in place of what
/// stood there; the other keys keep their records.
#[verifier::external_body]
fn record_insert(map: &mut DashMap<Vec<u8>, Record, RandomState>, key: Vec<u8>, record: Record)
    ensures
        records_of(*final(map)) == records_of(*old(map)).insert(key@, (record.0@, record.1)),
{
    map.insert(key, record);
}

/// `DashMap::remove`. Claimed: nothing stands under `key` any more; the other keys
/// keep their records.
#[verifier::external_body]
fn record_remove(map: &mut DashMap<Vec<u8>, Record, RandomState>, key: &[u8])
    ensures
        records_of(*final(map)) == records_of(*old(map)).remove(key@),
{
    map.remove(key);
}

/// `DashMap::iter`, with each key and record copied out. Claimed: every record
/// comes out once, with its key, and nothing else does. The order is open.
#[verifier::external_body]
fn record_list(map: &DashMap<Vec<u8>, Record, RandomState>) -> (list: Vec<(Vec<u8>, Record)>)
    ensures
        lists(list@.map_values(|r: (Vec<u8>, Record)| (r.0@, (r.1.0@, r.1.1))), records_of(*map)),
{
    map.iter().map(|entry| (entry.key().clone(), entry.value().clone())).collect()
}

/// `list` holds each entry of `map` once, and nothing else.
pub open spec fn lists<V>(list: Seq<(Seq<u8>, V)>, map: Map<Seq<u8>, V>) -> bool {
    &&& forall|i: int|
        0 <= i < list.len() ==> map.contains_key((#[trigger] list[i]).0) && map[list[i].0]
            == list[i].1
    &&& forall|i: int, j: int|
        0 <= i < j < list.len() ==> (#[trigger] list[i]).0 != (#[trigger] list[j]).0
    &&& forall|key: Seq<u8>| #[trigger]
        map.contains_key(key) ==> exists|i: int| 0 <= i < list.len() && (#[trigger] list[i]).0 == key
}

/// `key` comes with one of the entries of `list`.
spec fn key_among<V>(list: Seq<(Seq<u8>, V)>, key: Seq<u8>) -> bool {
    exists|i: int| 0 <= i < list.len() && (#[trigger] list[i]).0 == key
}

proof fn lemma_key_among<V>(list: Seq<(Seq<u8>, V)>, i: int)
    requires
        0 <= i < list.len(),
        forall|j: int, k: int|
            0 <= j < k < list.len() ==> (#[trigger] list[j]).0 != (#[trigger] list[k]).0,
    ensures
        !key_among(list.take(i), list[i].0),
        forall|key: Seq<u8>| #[trigger]
            key_among(list.take(i + 1), key) <==> key_among(list.take(i), key) || key == list[i].0,
{
    assert forall|key: Seq<u8>| #[trigger] key_among(list.take(i + 1), key) <==> key_among(
        list.take(i),
        key,
    ) || key == list[i].0 by {
        if key_among(list.take(i), key) {
            let j = choose|j: int| 0 <= j < i && (#[trigger] list.take(i)[j]).0 == key;
            assert(list.take(i + 1)[j].0 == key);
        }
        assert(list.take(i + 1)[i].0 == list[i].0);
        if key_among(list.take(i + 1), key) && key != list[i].0 {
            let j = choose|j: int| 0 <= j < i + 1 && (#[trigger] list.take(i + 1)[j]).0 == key;
            assert(list.take(i)[j].0 == key);
        }
    }
}

proof fn lemma_lists_push<V>(
    list: Seq<(Seq<u8>, V)>,
    map: Map<Seq<u8>, V>,
    key: Seq<u8>,
    value: V,
)
    requires
        lists(list, map),
        !map.contains_key(key),
    ensures
        lists(list.push((key, value)), map.insert(key, value)),
{
    let longer = list.push((key, value));
    let larger = map.insert(key, value);
    assert forall|k: Seq<u8>| #[trigger] larger.contains_key(k) implies exists|i: int|
        0 <= i < longer.len() && (#[trigger] longer[i]).0 == k by {
        if k == key {
            assert(longer[list.len() as int].0 == k);
        } else {
            assert(map.contains_key(k));
            let i = choose|i: int| 0 <= i < list.len() && (#[trigger] list[i]).0 == k;
            assert(longer[i].0 == k);
        }
    }
    assert forall|i: int| 0 <= i < longer.len() implies larger.contains_key(
        (#[trigger] longer[i]).0,
    ) && larger[longer[i].0] == longer[i].1 by {
        if i < list.len() {
            assert(longer[i] == list[i]);
        }
    }
    assert forall|i: int, j: int| 0 <= i < j < longer.len() implies (#[trigger] longer[i]).0 != (
    #[trigger] longer[j]).0 by {
        assert(longer[i] == list[i]);
        if j < list.len() {
            assert(longer[j] == list[j]);
        }
    }
}

/// A listing is as long as the map has keys.
pub proof fn lemma_lists_len<V>(list: Seq<(Seq<u8>, V)>, map: Map<Seq<u8>, V>)
    requires
        lists(list, map),
    ensures
        map.dom().finite(),
        map.dom().len() == list.len(),
{
    let keys = list.map_values(|e: (Seq<u8>, V)| e.0);
    assert forall|i: int, j: int| 0 <= i < keys.len() && 0 <= j < keys.len() && i != j implies keys[i]
        != keys[j] by {
        if i < j {
            assert(list[i].0 != list[j].0);
        } else {
            assert(list[j].0 != list[i].0);
        }
    }
    keys.unique_seq_to_set();
    assert(keys.to_set() =~= map.dom()) by {
        assert forall|key: Seq<u8>| #[trigger] keys.to_set().contains(key) <==> map.dom().contains(
            key,
        ) by {
            if map.contains_key(key) {
                let i = choose|i: int| 0 <= i < list.len() && (#[trigger] list[i]).0 == key;
                assert(keys[i] == key);
            }
            if keys.to_set().contains(key) {
                let i = choose|i: int| 0 <= i < keys.len() && keys[i] == key;
                assert(list[i].0 == key);
            }
        }
    }
}

/// Key and value pairs as mathematical values.
pub open spec fn pairs(list: Seq<(Vec<u8>, Vec<u8>)>) -> Seq<(Seq<u8>, Seq<u8>)> {
    list.map_values(|pair: (Vec<u8>, Vec<u8>)| (pair.0@, pair.1@))
}

/// Records under ids as mathematical values.
pub open spec fn id_pairs(list: Seq<([u8; ID_LEN], Vec<u8>)>) -> Seq<(Seq<u8>, Seq<u8>)> {
    list.map_values(|pair: ([u8; ID_LEN], Vec<u8>)| (pair.0@, pair.1@))
}

/// Those of the pairs whose key is as long as an id, in the same order.
pub fn id_records(list: &Vec<(Vec<u8>, Vec<u8>)>) -> (records: Vec<([u8; ID_LEN], Vec<u8>)>)
    ensures
        id_pairs(records@) == pairs(list@).filter(|pair: (Seq<u8>, Seq<u8>)| pair.0.len() == ID_LEN),
{
    let ghost has_id = |pair: (Seq<u8>, Seq<u8>)| pair.0.len() == ID_LEN;
    let mut records: Vec<([u8; ID_LEN], Vec<u8>)> = Vec::new();
    let mut i: usize = 0;
    assert(id_pairs(records@) =~= pairs(list@).take(0).filter(has_id)) by {
        reveal(Seq::filter);
    }
    while i < list.len()
        invariant
            i <= list@.len(),
            has_id == (|pair: (Seq<u8>, Seq<u8>)| pair.0.len() == ID_LEN),
            id_pairs(records@) == pairs(list@).take(i as int).filter(has_id),
        decreases list@.len() - i,
    {
        let ghost before = records@;
        proof {
            let upto = pairs(list@).take(i + 1);
            assert(upto.drop_last() =~= pairs(list@).take(i as int));
            assert(upto.last() == (list@[i as int].0@, list@[i as int].1@));
            reveal(Seq::filter);
        }
        if let Some(id) = id_from_slice(list[i].0.as_slice()) {
            records.push((id, copy_bytes(&list[i].1)));
            assert(id_pairs(records@) =~= id_pairs(before).push(
                (list@[i as int].0@, list@[i as int].1@),
            ));
        }
        i = i + 1;
    }
    assert(pairs(list@).take(i as int) =~= pairs(list@));
    records
}

/// The bytes that a record is charged with.
pub open spec fn record_bytes(key: Seq<u8>, value: Seq<u8>) -> nat {
    key.len() + value.len()
}

/// The bytes that all records together are charged with.
pub open spec fn total_bytes(records: Records) -> nat
    decreases records.dom().len(),
    when records.dom().finite()
{
    if records.dom().is_empty() {
        0
    } else {
        let key = records.dom().choose();
        record_bytes(key, records[key].0) + total_bytes(records.remove(key))
    }
}

/// A lifetime in seconds. Negative values wrap around to very long lifetimes.
pub open spec fn ttl_seconds(ttl: i64) -> nat {
    if ttl >= 0 {
        ttl as nat
    } else {
        (ttl + 0x1_0000_0000_0000_0000) as nat
    }
}

/// A record written at `inserted_at` is expired at `now`. A lifetime of `-1`
/// disables expiry.
pub open spec fn expired(ttl: i64, inserted_at: u128, now: u128) -> bool {
    ttl != -1 && clock::age(now, inserted_at) > ttl_seconds(ttl) * 1_000_000_000
}

/// A store as a mathematical value.
#[verifier::ext_equal]
pub struct StoreState {
    pub records: Records,
    pub ttl: i64,
    pub budget: nat,
}

impl StoreState {
    /// The store is finite and within its budget.
    pub open spec fn ok(self) -> bool {
        self.records.dom().finite() && total_bytes(self.records) <= self.budget
    }

    pub open spec fn is_live(self, key: Seq<u8>, now: u128) -> bool {
        self.records.contains_key(key) && !expired(self.ttl, self.records[key].1, now)
    }

    /// What a read of `key` at `now` gives.
    pub open spec fn value_at(self, key: Seq<u8>, now: u128) -> Option<Seq<u8>> {
        if self.is_live(key, now) {
            Some(self.records[key].0)
        } else {
            None
        }
    }

    pub open spec fn with_record(self, key: Seq<u8>, value: Seq<u8>, now: u128) -> StoreState {
        StoreState { records: self.records.insert(key, (value, now)), ..self }
    }

    /// The key is free: the record is added if the budget allows.
    pub open spec fn after_add(self, key: Seq<u8>, value: Seq<u8>, now: u128) -> (
        StoreState,
        StorageWriteStatus,
    ) {
        if total_bytes(self.records) + record_bytes(key, value) <= self.budget {
            (self.with_record(key, value, now), StorageWriteStatus::Stored)
        } else {
            (self, StorageWriteStatus::CapacityExceeded)
        }
    }

    /// The key is taken: the value is replaced if the budget allows. Writing the
    /// same value again renews the record.
    pub open spec fn after_replace(self, key: Seq<u8>, value: Seq<u8>, now: u128) -> (
        StoreState,
        StorageWriteStatus,
    ) {
        let before = self.records[key].0;
        if before == value {
            (self.with_record(key, value, now), StorageWriteStatus::AlreadyStored)
        } else if total_bytes(self.records) - before.len() + value.len() <= self.budget {
            (self.with_record(key, value, now), StorageWriteStatus::Stored)
        } else {
            (self, StorageWriteStatus::CapacityExceeded)
        }
    }

    /// The store after [`IStorage::set`] at `now`, and what it reports.
    pub open spec fn after_set(self, key: Seq<u8>, value: Seq<u8>, now: u128) -> (
        StoreState,
        StorageWriteStatus,
    ) {
        if self.records.contains_key(key) {
            self.after_replace(key, value, now)
        } else {
            self.after_add(key, value, now)
        }
    }

    /// The store after [`IStorage::insert_if_absent`] at `now`, and what it reports.
    pub open spec fn after_insert_if_absent(self, key: Seq<u8>, value: Seq<u8>, now: u128) -> (
        StoreState,
        StorageWriteStatus,
    ) {
        if !self.records.contains_key(key) {
            self.after_add(key, value, now)
        } else if !self.is_live(key, now) {
            self.after_replace(key, value, now)
        } else if self.records[key].0 == value {
            (self.with_record(key, value, now), StorageWriteStatus::AlreadyStored)
        } else {
            (self, StorageWriteStatus::Conflict)
        }
    }

    /// The store without `key`.
    pub open spec fn after_delete(self, key: Seq<u8>) -> StoreState {
        StoreState { records: self.records.remove(key), ..self }
    }

    /// The store without the records that are expired at `now`.
    pub open spec fn after_prune(self, now: u128) -> StoreState {
        StoreState {
            records: self.records.restrict(
                self.records.dom().filter(|key: Seq<u8>| self.is_live(key, now)),
            ),
            ..self
        }
    }

    /// The live records whose value was written `seconds_old` seconds ago or
    /// earlier.
    pub open spec fn older_than(self, seconds_old: u64, now: u128) -> Map<Seq<u8>, Seq<u8>> {
        Map::new(
            |key: Seq<u8>|
                self.is_live(key, now) && clock::age(now, self.records[key].1) >= seconds_old
                    * 1_000_000_000,
            |key: Seq<u8>| self.records[key].0,
        )
    }

    /// The live records.
    pub open spec fn all_live(self, now: u128) -> Map<Seq<u8>, Seq<u8>> {
        Map::new(|key: Seq<u8>| self.is_live(key, now), |key: Seq<u8>| self.records[key].0)
    }
}

proof fn lemma_total_remove(records: Records, key: Seq<u8>)
    requires
        records.dom().finite(),
        records.contains_key(key),
    ensures
        total_bytes(records) == record_bytes(key, records[key].0) + total_bytes(
            records.remove(key),
        ),
    decreases records.dom().len(),
{
    let first = records.dom().choose();
    assert(!records.dom().is_empty());
    if first != key {
        lemma_total_remove(records.remove(first), key);
        lemma_total_remove(records.remove(key), first);
        assert(records.remove(first).remove(key) =~= records.remove(key).remove(first));
    }
}

proof fn lemma_total_insert(
    records: Records,
    key: Seq<u8>,
    value: Seq<u8>,
    now: u128,
)
    requires
        records.dom().finite(),
    ensures
        records.insert(key, (value, now)).dom().finite(),
        total_bytes(records.insert(key, (value, now))) == record_bytes(key, value) + total_bytes(
            records.remove(key),
        ),
{
    let after = records.insert(key, (value, now));
    lemma_total_remove(after, key);
    assert(after.remove(key) =~= records.remove(key));
}

proof fn lemma_total_remove_all(records: Records, key: Seq<u8>)
    requires
        records.dom().finite(),
    ensures
        records.remove(key).dom().finite(),
        total_bytes(records.remove(key)) <= total_bytes(records),
        !records.contains_key(key) ==> records.remove(key) == records,
{
    if records.contains_key(key) {
        lemma_total_remove(records, key);
    } else {
        assert(records.remove(key) =~= records);
    }
}

/// A value that was written reads back until it expires.
pub proof fn law_read_gives_what_was_written(
    store: StoreState,
    key: Seq<u8>,
    value: Seq<u8>,
    written: u128,
    read: u128,
)
    requires
        !expired(store.ttl, written, read),
    ensures
        ({
            let (after, status) = store.after_set(key, value, written);
            status is Stored || status is AlreadyStored ==> after.value_at(key, read) == Some(value)
        }),
        ({
            let (after, status) = store.after_insert_if_absent(key, value, written);
            status is Stored || status is AlreadyStored ==> after.value_at(key, read) == Some(value)
        }),
{
}

/// No operation takes the store over its budget.
pub proof fn law_budget_is_never_exceeded(
    store: StoreState,
    key: Seq<u8>,
    value: Seq<u8>,
    now: u128,
)
    requires
        store.ok(),
    ensures
        store.after_set(key, value, now).0.ok(),
        store.after_insert_if_absent(key, value, now).0.ok(),
        store.after_delete(key).ok(),
        store.after_prune(now).ok(),
{
    lemma_total_insert(store.records, key, value, now);
    lemma_total_remove_all(store.records, key);
    if store.records.contains_key(key) {
        lemma_total_remove(store.records, key);
    }
    lemma_total_restrict(
        store.records,
        store.records.dom().filter(|key: Seq<u8>| store.is_live(key, now)),
    );
}

/// A write that is refused, for want of room or for a conflict, leaves the store,
/// and with it the accounting, as it was.
pub proof fn law_refused_write_changes_nothing(
    store: StoreState,
    key: Seq<u8>,
    value: Seq<u8>,
    now: u128,
)
    ensures
        ({
            let (after, status) = store.after_set(key, value, now);
            status is CapacityExceeded || status is Conflict ==> after == store
        }),
        ({
            let (after, status) = store.after_insert_if_absent(key, value, now);
            status is CapacityExceeded || status is Conflict ==> after == store
        }),
{
}

/// A write fails for want of room exactly if the store would be over its budget with the
/// record in it, and otherwise leaves the record in it, written at `now`. A record that
/// is already there as it is needs no room. An insert does the same wherever no other
/// live record is in the way.
pub proof fn law_write_is_refused_only_for_want_of_room(
    store: StoreState,
    key: Seq<u8>,
    value: Seq<u8>,
    now: u128,
)
    requires
        store.ok(),
    ensures
        ({
            let with = store.records.insert(key, (value, now));
            let (after, status) = store.after_set(key, value, now);
            &&& status is CapacityExceeded <==> total_bytes(with) > store.budget
            &&& status !is CapacityExceeded ==> after.records == with
            &&& status is AlreadyStored <==> store.records.contains_key(key)
                && store.records[key].0 == value
            &&& status !is Conflict
            &&& after.ttl == store.ttl && after.budget == store.budget
        }),
        ({
            let with = store.records.insert(key, (value, now));
            let (after, status) = store.after_insert_if_absent(key, value, now);
            &&& status is Conflict <==> store.records.contains_key(key) && !expired(
                store.ttl,
                store.records[key].1,
                now,
            ) && store.records[key].0 != value
            &&& status !is Conflict ==> (after, status) == store.after_set(key, value, now)
            &&& status is Conflict ==> after == store
        }),
{
    law_total_counts_keys_and_values(store.records, key, value, now);
    if store.records.contains_key(key) {
        lemma_total_remove(store.records, key);
    } else {
        assert(store.records.remove(key) =~= store.records);
    }
}

/// A store is charged with the bytes of its keys and values: nothing when it is empty,
/// and for each record the length of the key and of the value.
pub proof fn law_total_counts_keys_and_values(
    records: Records,
    key: Seq<u8>,
    value: Seq<u8>,
    now: u128,
)
    requires
        records.dom().finite(),
    ensures
        total_bytes(Records::empty()) == 0,
        total_bytes(records.insert(key, (value, now))) == key.len() + value.len() + total_bytes(
            records.remove(key),
        ),
{
    assert(Records::empty().dom() =~= Set::empty());
    lemma_total_insert(records, key, value, now);
}

/// A record lives for `ttl` seconds to the nanosecond, forever if `ttl` is `-1`, and once
/// expired stays so.
pub proof fn law_records_live_as_long_as_they_should(
    ttl: i64,
    written: u128,
    now: u128,
    later: u128,
)
    requires
        written <= now <= later,
    ensures
        ttl >= 0 ==> (expired(ttl, written, now) <==> now > written + ttl * 1_000_000_000),
        ttl == -1 ==> !expired(ttl, written, now),
        ttl < -1 ==> (expired(ttl, written, now) <==> now > written + (ttl
            + 0x1_0000_0000_0000_0000) * 1_000_000_000),
        expired(ttl, written, now) ==> expired(ttl, written, later),
{
}

/// A read gives a value exactly if the record is there with that value and has not
/// expired.
pub proof fn law_read_sees_the_live_record(
    store: StoreState,
    key: Seq<u8>,
    value: Seq<u8>,
    now: u128,
)
    ensures
        store.value_at(key, now) == Some(value) <==> store.records.contains_key(key)
            && store.records[key].0 == value && !expired(store.ttl, store.records[key].1, now),
{
}

/// The listings hold what reads give: the one of all records everything that can be read
/// at the time, the one by age what was written `seconds_old` seconds ago or earlier.
pub proof fn law_listings_hold_what_reads_give(
    store: StoreState,
    seconds_old: u64,
    now: u128,
    key: Seq<u8>,
)
    ensures
        store.all_live(now).contains_key(key) <==> store.value_at(key, now) is Some,
        store.all_live(now).contains_key(key) ==> store.value_at(key, now) == Some(
            store.all_live(now)[key],
        ),
        store.older_than(seconds_old, now).contains_key(key) ==> store.value_at(key, now) == Some(
            store.older_than(seconds_old, now)[key],
        ),
        store.records[key].1 <= now ==> (store.older_than(seconds_old, now).contains_key(key)
            <==> store.value_at(key, now) is Some && store.records[key].1 + seconds_old
            * 1_000_000_000 <= now),
        store.older_than(0, now) == store.all_live(now),
{
    assert(store.older_than(0, now) =~= store.all_live(now));
}

/// A listing holds each entry exactly once.
pub proof fn law_listing_holds_each_entry_once<V>(list: Seq<(Seq<u8>, V)>, map: Map<Seq<u8>, V>)
    requires
        lists(list, map),
    ensures
        forall|key: Seq<u8>, value: V| #[trigger]
            list.contains((key, value)) <==> map.contains_key(key) && map[key] == value,
        list.no_duplicates(),
{
    assert forall|key: Seq<u8>, value: V| #[trigger] list.contains((key, value))
        <==> map.contains_key(key) && map[key] == value by {
        if list.contains((key, value)) {
            let i = choose|i: int| 0 <= i < list.len() && list[i] == (key, value);
            assert(map.contains_key(list[i].0));
        }
        if map.contains_key(key) && map[key] == value {
            let i = choose|i: int| 0 <= i < list.len() && (#[trigger] list[i]).0 == key;
            assert(list[i] == (key, value));
        }
    }
}

/// Pairs keep their keys, values and order when they are taken as mathematical values.
pub proof fn law_pairs_keep_their_contents(
    list: Seq<(Vec<u8>, Vec<u8>)>,
    records: Seq<([u8; ID_LEN], Vec<u8>)>,
)
    ensures
        pairs(list).len() == list.len(),
        forall|i: int|
            0 <= i < list.len() ==> #[trigger] pairs(list)[i] == (list[i].0@, list[i].1@),
        id_pairs(records).len() == records.len(),
        forall|i: int|
            0 <= i < records.len() ==> #[trigger] id_pairs(records)[i] == (
                records[i].0@,
                records[i].1@,
            ),
{
}

/// Deleting takes out the record and nothing else; without one it changes nothing.
/// Pruning takes out exactly the expired records.
pub proof fn law_removals_take_out_no_more_than_asked(
    store: StoreState,
    key: Seq<u8>,
    other: Seq<u8>,
    now: u128,
)
    ensures
        !store.after_delete(key).records.contains_key(key),
        other != key ==> store.after_delete(key).records.contains_key(other)
            == store.records.contains_key(other),
        other != key ==> store.after_delete(key).records[other] == store.records[other],
        !store.records.contains_key(key) ==> store.after_delete(key) == store,
        store.after_delete(key).ttl == store.ttl && store.after_delete(key).budget == store.budget,
        store.after_prune(now).records.contains_key(other) <==> store.records.contains_key(other)
            && !expired(store.ttl, store.records[other].1, now),
        store.after_prune(now).records.contains_key(other) ==> store.after_prune(now).records[other]
            == store.records[other],
        store.after_prune(now).ttl == store.ttl && store.after_prune(now).budget == store.budget,
{
    if !store.records.contains_key(key) {
        assert(store.after_delete(key).records =~= store.records);
    }
}

/// While a record is live, inserting the same value again is idempotent and a
/// different one conflicts: the value stays, and so does what it is charged with.
pub proof fn law_insert_is_idempotent_or_conflicts(
    store: StoreState,
    key: Seq<u8>,
    value: Seq<u8>,
    now: u128,
)
    requires
        store.ok(),
        store.is_live(key, now),
    ensures
        ({
            let stored = store.records[key].0;
            let (after, status) = store.after_insert_if_absent(key, value, now);
            &&& status == if value == stored {
                StorageWriteStatus::AlreadyStored
            } else {
                StorageWriteStatus::Conflict
            }
            &&& after.value_at(key, now) == Some(stored)
            &&& total_bytes(after.records) == total_bytes(store.records)
        }),
{
    lemma_total_insert(store.records, key, value, now);
    lemma_total_remove(store.records, key);
}

/// An expired record is as good as absent: reads do not see it and an insert never
/// conflicts with it.
pub proof fn law_expired_counts_as_absent(
    store: StoreState,
    key: Seq<u8>,
    value: Seq<u8>,
    now: u128,
)
    requires
        !store.is_live(key, now),
    ensures
        store.value_at(key, now) is None,
        store.after_insert_if_absent(key, value, now).1 !is Conflict,
{
}

/// An operation on one key leaves all other records alone: nothing is evicted to
/// make room.
pub proof fn law_other_records_stay(
    store: StoreState,
    key: Seq<u8>,
    value: Seq<u8>,
    now: u128,
    other: Seq<u8>,
)
    requires
        other != key,
        store.records.contains_key(other),
    ensures
        ({
            let after = store.after_set(key, value, now).0;
            after.records.contains_key(other) && after.records[other] == store.records[other]
        }),
        ({
            let after = store.after_insert_if_absent(key, value, now).0;
            after.records.contains_key(other) && after.records[other] == store.records[other]
        }),
        ({
            let after = store.after_delete(key);
            after.records.contains_key(other) && after.records[other] == store.records[other]
        }),
{
}

/// Pruning changes no read from then on, and keeps no expired record.
pub proof fn law_prune_changes_no_read(store: StoreState, key: Seq<u8>, pruned: u128, read: u128)
    requires
        pruned <= read,
    ensures
        store.after_prune(pruned).value_at(key, read) == store.value_at(key, read),
        store.after_prune(pruned).records.contains_key(key) ==> store.is_live(key, pruned),
{
}

/// A removed record is gone, and its bytes are free again.
pub proof fn law_delete_frees_the_record(store: StoreState, key: Seq<u8>, now: u128)
    requires
        store.ok(),
        store.records.contains_key(key),
    ensures
        store.after_delete(key).value_at(key, now) is None,
        total_bytes(store.after_delete(key).records) + record_bytes(key, store.records[key].0)
            == total_bytes(store.records),
{
    lemma_total_remove(store.records, key);
}

proof fn lemma_total_restrict(records: Records, keys: Set<Seq<u8>>)
    requires
        records.dom().finite(),
    ensures
        records.restrict(keys).dom().finite(),
        total_bytes(records.restrict(keys)) <= total_bytes(records),
    decreases records.dom().len(),
{
    let part = records.restrict(keys);
    assert(part.dom() =~= records.dom().intersect(keys));
    if records.dom().is_empty() {
        assert(part =~= records);
    } else {
        let key = records.dom().choose();
        lemma_total_restrict(records.remove(key), keys);
        lemma_total_remove(records, key);
        assert(part.remove(key) =~= records.remove(key).restrict(keys));
        if part.contains_key(key) {
            lemma_total_remove(part, key);
        } else {
            assert(part.remove(key) =~= part);
        }
    }
}

/// A record written at `inserted_at` is expired at `now`.
fn is_expired_at(ttl: i64, inserted_at: u128, now: u128) -> (yes: bool)
    ensures
        yes <==> expired(ttl, inserted_at, now),
{
    if ttl == -1 {
        return false;
    }
    let seconds: u128 = if ttl >= 0 {
        ttl as u128
    } else {
        (ttl as i128 + 0x1_0000_0000_0000_0000) as u128
    };
    elapsed(now, inserted_at) > seconds * 1_000_000_000
}

/// Abstract key-value store interface.
///
/// A method that depends on the time reads a clock: its contract speaks of some point
/// in time.
pub trait IStorage: Send + Sync {
    /// The store is in a valid state.
    spec fn wf(&self) -> bool;

    /// The store as a mathematical value.
    spec fn state(&self) -> StoreState;

    /// Insert or replace a key-value pair.
    fn set(&mut self, key: Vec<u8>, value: Vec<u8>) -> (status: StorageWriteStatus)
        requires
            old(self).wf(),
        ensures
            final(self).wf(),
            exists|now: u128|
                (final(self).state(), status) == #[trigger] old(self).state().after_set(
                    key@,
                    value@,
                    now,
                ),
    ;

    /// Insert `key` only if it is absent. An identical live value is idempotent; a
    /// different value is a conflict.
    fn insert_if_absent(&mut self, key: Vec<u8>, value: Vec<u8>) -> (status: StorageWriteStatus)
        requires
            old(self).wf(),
        ensures
            final(self).wf(),
            exists|now: u128|
                (final(self).state(), status) == #[trigger] old(
                    self,
                ).state().after_insert_if_absent(key@, value@, now),
    ;

    /// Retrieve a value, or `default` if the key is absent.
    fn get_default(&self, key: &[u8], default: Option<Vec<u8>>) -> (value: Option<Vec<u8>>)
        requires
            self.wf(),
        ensures
            exists|now: u128|
                match #[trigger] self.state().value_at(key@, now) {
                    Some(stored) => value matches Some(value) && value@ == stored,
                    None => value == default,
                },
    ;

    /// Retrieve a value, or `None` if the key is absent.
    fn get(&self, key: &[u8]) -> (value: Option<Vec<u8>>)
        requires
            self.wf(),
        ensures
            exists|now: u128|
                match #[trigger] self.state().value_at(key@, now) {
                    Some(stored) => value matches Some(value) && value@ == stored,
                    None => value is None,
                },
    {
        self.get_default(key, None)
    }

    /// Remove a key.
    fn delete(&mut self, key: &[u8])
        requires
            old(self).wf(),
        ensures
            final(self).wf(),
            final(self).state() == old(self).state().after_delete(key@),
    ;

    /// All pairs whose value was written at least `seconds_old` seconds ago.
    fn iter_older_than(&self, seconds_old: u64) -> (list: Vec<(Vec<u8>, Vec<u8>)>)
        requires
            self.wf(),
        ensures
            exists|now: u128|
                lists(pairs(list@), #[trigger] self.state().older_than(seconds_old, now)),
    ;

    /// All pairs that are not expired.
    fn iter_all(&self) -> (list: Vec<(Vec<u8>, Vec<u8>)>)
        requires
            self.wf(),
        ensures
            exists|now: u128| lists(pairs(list@), #[trigger] self.state().all_live(now)),
    ;
}

/// A store backed by `DashMap` with lazy expiry.
///
/// A `ttl` of `-1` disables expiry: records are kept forever.
pub struct ForgetfulStorage {
    data: DashMap<Vec<u8>, Record, RandomState>,
    ttl: i64,
    current_storage_bytes: usize,
    max_storage_bytes: usize,
    origin: std::time::Instant,
}

impl View for ForgetfulStorage {
    type V = StoreState;

    closed spec fn view(&self) -> StoreState {
        StoreState {
            records: records_of(self.data),
            ttl: self.ttl,
            budget: self.max_storage_bytes as nat,
        }
    }
}

impl ForgetfulStorage {
    /// Create a new store with the given lifetime in seconds and the default
    /// budget. Pass `-1` to disable expiry.
    pub fn new(ttl: i64) -> (store: Self)
        ensures
            store.wf(),
            store@.records == Records::empty(),
            store@.ttl == ttl,
            store@.budget == DEFAULT_MAX_STORAGE_BYTES,
    {
        Self::with_max_storage_bytes(ttl, DEFAULT_MAX_STORAGE_BYTES)
    }

    /// Create a store with a per-node byte budget.
    ///
    /// The budget accounts for key and value bytes. Live records are never evicted
    /// to make room: writes that would exceed the limit are rejected.
    pub fn with_max_storage_bytes(ttl: i64, max_storage_bytes: usize) -> (store: Self)
        ensures
            store.wf(),
            store@.records == Records::empty(),
            store@.ttl == ttl,
            store@.budget == max_storage_bytes,
    {
        ForgetfulStorage {
            data: record_map(),
            ttl,
            current_storage_bytes: 0,
            max_storage_bytes,
            origin: start_of_clock(),
        }
    }

    /// Bytes currently charged to the budget, those of expired records that have
    /// not been pruned among them.
    pub fn current_storage_bytes(&self) -> (bytes: usize)
        requires
            self.wf(),
        ensures
            bytes == total_bytes(self@.records),
    {
        self.current_storage_bytes
    }

    pub fn max_storage_bytes(&self) -> (bytes: usize)
        ensures
            bytes == self@.budget,
    {
        self.max_storage_bytes
    }

    fn reserve_bytes(&mut self, additional: usize) -> (reserved: bool)
        requires
            old(self).current_storage_bytes <= old(self).max_storage_bytes,
        ensures
            reserved <==> old(self).current_storage_bytes + additional
                <= old(self).max_storage_bytes,
            final(self).data == old(self).data,
            final(self).ttl == old(self).ttl,
            final(self).max_storage_bytes == old(self).max_storage_bytes,
            final(self).current_storage_bytes == old(self).current_storage_bytes + (if reserved {
                additional as int
            } else {
                0
            }),
    {
        match self.current_storage_bytes.checked_add(additional) {
            Some(next) => {
                if next <= self.max_storage_bytes {
                    self.current_storage_bytes = next;
                    true
                } else {
                    false
                }
            },
            None => false,
        }
    }

    fn release_bytes(&mut self, released: usize)
        requires
            released <= old(self).current_storage_bytes,
        ensures
            final(self).data == old(self).data,
            final(self).ttl == old(self).ttl,
            final(self).max_storage_bytes == old(self).max_storage_bytes,
            final(self).current_storage_bytes == old(self).current_storage_bytes - released,
    {
        self.current_storage_bytes = self.current_storage_bytes - released;
    }

    /// Adds a record under a free key.
    fn add_record(&mut self, key: Vec<u8>, value: Vec<u8>, now: u128) -> (status:
        StorageWriteStatus)
        requires
            old(self).wf(),
            !old(self)@.records.contains_key(key@),
        ensures
            final(self).wf(),
            (final(self)@, status) == old(self)@.after_add(key@, value@, now),
    {
        let reserved = match key.len().checked_add(value.len()) {
            Some(record_bytes) => self.reserve_bytes(record_bytes),
            None => false,
        };
        if !reserved {
            return StorageWriteStatus::CapacityExceeded;
        }
        proof {
            lemma_total_insert(self@.records, key@, value@, now);
            lemma_total_remove_all(self@.records, key@);
        }
        record_insert(&mut self.data, key, (value, now));
        StorageWriteStatus::Stored
    }

    /// Replaces the value under a taken key.
    fn replace_value(
        &mut self,
        key: Vec<u8>,
        old_value: &Vec<u8>,
        value: Vec<u8>,
        now: u128,
    ) -> (status: StorageWriteStatus)
        requires
            old(self).wf(),
            old(self)@.records.contains_key(key@),
            old(self)@.records[key@].0 == old_value@,
        ensures
            final(self).wf(),
            (final(self)@, status) == old(self)@.after_replace(key@, value@, now),
    {
        proof {
            lemma_total_insert(self@.records, key@, value@, now);
            lemma_total_remove(self@.records, key@);
        }
        if bytes_eq(old_value.as_slice(), value.as_slice()) {
            record_insert(&mut self.data, key, (value, now));
            return StorageWriteStatus::AlreadyStored;
        }
        let old_value_len: usize = old_value.len();
        let new_value_len: usize = value.len();
        if new_value_len > old_value_len && !self.reserve_bytes(new_value_len - old_value_len) {
            return StorageWriteStatus::CapacityExceeded;
        }
        record_insert(&mut self.data, key, (value, now));
        if old_value_len > new_value_len {
            self.release_bytes(old_value_len - new_value_len);
        }
        StorageWriteStatus::Stored
    }

    /// [`IStorage::set`] at a given time.
    pub fn set_at(&mut self, key: Vec<u8>, value: Vec<u8>, now: u128) -> (status:
        StorageWriteStatus)
        requires
            old(self).wf(),
        ensures
            final(self).wf(),
            (final(self)@, status) == old(self)@.after_set(key@, value@, now),
    {
        match record_get(&self.data, key.as_slice()) {
            None => self.add_record(key, value, now),
            Some((old_value, _)) => self.replace_value(key, &old_value, value, now),
        }
    }

    /// [`IStorage::insert_if_absent`] at a given time.
    pub fn insert_if_absent_at(&mut self, key: Vec<u8>, value: Vec<u8>, now: u128) -> (status:
        StorageWriteStatus)
        requires
            old(self).wf(),
        ensures
            final(self).wf(),
            (final(self)@, status) == old(self)@.after_insert_if_absent(key@, value@, now),
    {
        match record_get(&self.data, key.as_slice()) {
            None => self.add_record(key, value, now),
            Some((old_value, inserted_at)) => {
                if is_expired_at(self.ttl, inserted_at, now) {
                    self.replace_value(key, &old_value, value, now)
                } else if bytes_eq(old_value.as_slice(), value.as_slice()) {
                    self.replace_value(key, &old_value, value, now)
                } else {
                    StorageWriteStatus::Conflict
                }
            },
        }
    }

    /// [`IStorage::get_default`] at a given time.
    pub fn get_default_at(&self, key: &[u8], default: Option<Vec<u8>>, now: u128) -> (value: Option<
        Vec<u8>,
    >)
        ensures
            match self@.value_at(key@, now) {
                Some(stored) => value matches Some(value) && value@ == stored,
                None => value == default,
            },
    {
        match record_get(&self.data, key) {
            Some((value, inserted_at)) => {
                if is_expired_at(self.ttl, inserted_at, now) {
                    default
                } else {
                    Some(value)
                }
            },
            None => default,
        }
    }

    /// [`IStorage::get`] at a given time.
    pub fn get_at(&self, key: &[u8], now: u128) -> (value: Option<Vec<u8>>)
        ensures
            match self@.value_at(key@, now) {
                Some(stored) => value matches Some(value) && value@ == stored,
                None => value is None,
            },
    {
        self.get_default_at(key, None, now)
    }

    /// [`IStorage::delete`], which does not depend on the time.
    fn delete_record(&mut self, key: &[u8])
        requires
            old(self).wf(),
        ensures
            final(self).wf(),
            final(self)@ == old(self)@.after_delete(key@),
    {
        match record_get(&self.data, key) {
            Some((value, _)) => {
                proof {
                    lemma_total_remove(self@.records, key@);
                }
                record_remove(&mut self.data, key);
                self.release_bytes(key.len() + value.len());
            },
            None => {
                assert(self@.records.remove(key@) =~= self@.records);
            },
        }
    }

    /// The live pairs that are at least `min_age` nanoseconds old.
    fn list_live(&self, min_age: u128, now: u128) -> (list: Vec<(Vec<u8>, Vec<u8>)>)
        ensures
            lists(
                pairs(list@),
                Map::new(
                    |key: Seq<u8>|
                        self@.is_live(key, now) && clock::age(now, self@.records[key].1)
                            >= min_age,
                    |key: Seq<u8>| self@.records[key].0,
                ),
            ),
    {
        let all = record_list(&self.data);
        let ghost whole = all@.map_values(|r: (Vec<u8>, Record)| (r.0@, (r.1.0@, r.1.1)));
        let ghost chosen = Map::new(
            |key: Seq<u8>|
                self@.is_live(key, now) && clock::age(now, self@.records[key].1) >= min_age,
            |key: Seq<u8>| self@.records[key].0,
        );
        let ghost mut listed: Map<Seq<u8>, Seq<u8>> = Map::empty();
        let mut list: Vec<(Vec<u8>, Vec<u8>)> = Vec::new();
        let mut i: usize = 0;
        while i < all.len()
            invariant
                i <= all@.len(),
                whole == all@.map_values(|r: (Vec<u8>, Record)| (r.0@, (r.1.0@, r.1.1))),
                lists(whole, self@.records),
                chosen == Map::new(
                    |key: Seq<u8>|
                        self@.is_live(key, now) && clock::age(now, self@.records[key].1)
                            >= min_age,
                    |key: Seq<u8>| self@.records[key].0,
                ),
                lists(pairs(list@), listed),
                forall|key: Seq<u8>| #[trigger]
                    listed.contains_key(key) <==> chosen.contains_key(key) && key_among(
                        whole.take(i as int),
                        key,
                    ),
                forall|key: Seq<u8>| #[trigger]
                    listed.contains_key(key) ==> listed[key] == chosen[key],
            decreases all@.len() - i,
        {
            let ghost before = pairs(list@);
            let ghost entry = whole[i as int];
            let inserted_at: u128 = all[i].1.1;
            proof {
                assert(entry.0 == all@[i as int].0@);
                assert(self@.records.contains_key(entry.0));
                lemma_key_among(whole, i as int);
            }
            if elapsed(now, inserted_at) >= min_age && !is_expired_at(self.ttl, inserted_at, now) {
                list.push((copy_bytes(&all[i].0), copy_bytes(&all[i].1.0)));
                proof {
                    assert(pairs(list@) =~= before.push((entry.0, entry.1.0)));
                    lemma_lists_push(before, listed, entry.0, entry.1.0);
                    listed = listed.insert(entry.0, entry.1.0);
                }
            }
            i = i + 1;
        }
        proof {
            assert(whole.take(i as int) =~= whole);
            assert(listed =~= chosen);
        }
        list
    }

    /// [`IStorage::iter_older_than`] at a given time.
    pub fn iter_older_than_at(&self, seconds_old: u64, now: u128) -> (list: Vec<
        (Vec<u8>, Vec<u8>),
    >)
        ensures
            lists(pairs(list@), self@.older_than(seconds_old, now)),
    {
        let list = self.list_live(seconds_old as u128 * 1_000_000_000, now);
        assert(self@.older_than(seconds_old, now) =~= Map::new(
            |key: Seq<u8>|
                self@.is_live(key, now) && clock::age(now, self@.records[key].1) >= (seconds_old
                    * 1_000_000_000) as u128,
            |key: Seq<u8>| self@.records[key].0,
        ));
        list
    }

    /// [`IStorage::iter_all`] at a given time.
    pub fn iter_all_at(&self, now: u128) -> (list: Vec<(Vec<u8>, Vec<u8>)>)
        ensures
            lists(pairs(list@), self@.all_live(now)),
    {
        let list = self.list_live(0, now);
        assert(self@.all_live(now) =~= Map::new(
            |key: Seq<u8>|
                self@.is_live(key, now) && clock::age(now, self@.records[key].1) >= 0u128,
            |key: Seq<u8>| self@.records[key].0,
        ));
        list
    }

    /// [`ForgetfulStorage::prune_expired`] at a given time.
    pub fn prune_expired_at(&mut self, now: u128) -> (reclaimed: usize)
        requires
            old(self).wf(),
        ensures
            final(self).wf(),
            final(self)@ == old(self)@.after_prune(now),
            reclaimed == old(self)@.records.dom().len() - final(self)@.records.dom().len(),
    {
        let ghost before = self@;
        let ghost kept = before.after_prune(now);
        if self.ttl == -1 {
            assert(kept.records =~= before.records);
            return 0;
        }
        let all = record_list(&self.data);
        let ghost whole = all@.map_values(|r: (Vec<u8>, Record)| (r.0@, (r.1.0@, r.1.1)));
        let mut reclaimed: usize = 0;
        let mut i: usize = 0;
        while i < all.len()
            invariant
                i <= all@.len(),
                reclaimed <= i,
                whole == all@.map_values(|r: (Vec<u8>, Record)| (r.0@, (r.1.0@, r.1.1))),
                lists(whole, before.records),
                self.wf(),
                self@.ttl == before.ttl,
                self@.budget == before.budget,
                before.records.dom().finite(),
                reclaimed + self@.records.dom().len() == before.records.dom().len(),
                forall|key: Seq<u8>| #[trigger]
                    self@.records.contains_key(key) <==> before.records.contains_key(key) && !(
                    key_among(whole.take(i as int), key) && expired(
                        before.ttl,
                        before.records[key].1,
                        now,
                    )),
                forall|key: Seq<u8>| #[trigger]
                    self@.records.contains_key(key) ==> self@.records[key] == before.records[key],
            decreases all@.len() - i,
        {
            let ghost entry = whole[i as int];
            let inserted_at: u128 = all[i].1.1;
            proof {
                assert(entry.0 == all@[i as int].0@);
                assert(before.records.contains_key(entry.0));
                lemma_key_among(whole, i as int);
                assert(self@.records.contains_key(entry.0));
            }
            if is_expired_at(self.ttl, inserted_at, now) {
                self.delete_record(all[i].0.as_slice());
                reclaimed = reclaimed + 1;
            }
            i = i + 1;
        }
        proof {
            assert(whole.take(i as int) =~= whole);
            assert forall|key: Seq<u8>| #[trigger]
                before.records.contains_key(key) implies key_among(whole, key) by {}
            assert(self@.records =~= kept.records);
        }
        reclaimed
    }

    /// Remove expired records and return how many were reclaimed.
    ///
    /// Reads remain lazy, while this explicit maintenance pass prevents expired
    /// records from accumulating.
    pub fn prune_expired(&mut self) -> (reclaimed: usize)
        requires
            old(self).wf(),
        ensures
            final(self).wf(),
            exists|now: u128| final(self)@ == #[trigger] old(self)@.after_prune(now),
            reclaimed == old(self)@.records.dom().len() - final(self)@.records.dom().len(),
    {
        let now: u128 = nanos_since(&self.origin);
        self.prune_expired_at(now)
    }

    /// What a valid store says of its state.
    pub proof fn lemma_wf(&self)
        requires
            self.wf(),
        ensures
            self@.ok(),
    {
    }
}

impl IStorage for ForgetfulStorage {
    closed spec fn wf(&self) -> bool {
        &&& self@.ok()
        &&& self.current_storage_bytes == total_bytes(self@.records)
    }

    open spec fn state(&self) -> StoreState {
        self@
    }

    fn set(&mut self, key: Vec<u8>, value: Vec<u8>) -> (status: StorageWriteStatus) {
        let now: u128 = nanos_since(&self.origin);
        let status = self.set_at(key, value, now);
        assert((self.state(), status) == old(self).state().after_set(key@, value@, now));
        status
    }

    fn insert_if_absent(&mut self, key: Vec<u8>, value: Vec<u8>) -> (status: StorageWriteStatus) {
        let now: u128 = nanos_since(&self.origin);
        let status = self.insert_if_absent_at(key, value, now);
        assert((self.state(), status) == old(self).state().after_insert_if_absent(
            key@,
            value@,
            now,
        ));
        status
    }

    fn get_default(&self, key: &[u8], default: Option<Vec<u8>>) -> (value: Option<Vec<u8>>) {
        let now: u128 = nanos_since(&self.origin);
        let value = self.get_default_at(key, default, now);
        assert(match self.state().value_at(key@, now) {
            Some(stored) => value matches Some(value) && value@ == stored,
            None => value == default,
        });
        value
    }

    fn delete(&mut self, key: &[u8]) {
        self.delete_record(key)
    }

    fn iter_older_than(&self, seconds_old: u64) -> (list: Vec<(Vec<u8>, Vec<u8>)>) {
        let now: u128 = nanos_since(&self.origin);
        let list = self.iter_older_than_at(seconds_old, now);
        assert(lists(pairs(list@), self.state().older_than(seconds_old, now)));
        list
    }

    fn iter_all(&self) -> (list: Vec<(Vec<u8>, Vec<u8>)>) {
        let now: u128 = nanos_since(&self.origin);
        let list = self.iter_all_at(now);
        assert(lists(pairs(list@), self.state().all_live(now)));
        list
    }
}

} // verus!
