use auth_kademlia_rs::storage::{
    id_records, ForgetfulStorage, IStorage, StorageWriteStatus, DEFAULT_MAX_STORAGE_BYTES,
    DEFAULT_TTL,
};
use auth_kademlia_rs::utils::ID_LEN;

const SECOND: u128 = 1_000_000_000;
const MILLISECOND: u128 = 1_000_000;

#[test]
fn set_and_get() {
    let mut s = ForgetfulStorage::new(-1);
    s.set(b"key".to_vec(), b"value".to_vec());
    assert_eq!(s.get(b"key"), Some(b"value".to_vec()));
}

fn exercise<S: IStorage>(s: &mut S) {
    assert_eq!(s.get(b"k"), None);
    assert_eq!(s.get_default(b"k", Some(b"d".to_vec())), Some(b"d".to_vec()));
    assert_eq!(
        s.insert_if_absent(b"k".to_vec(), b"v".to_vec()),
        StorageWriteStatus::Stored
    );
    assert_eq!(
        s.insert_if_absent(b"k".to_vec(), b"v".to_vec()),
        StorageWriteStatus::AlreadyStored
    );
    assert_eq!(
        s.insert_if_absent(b"k".to_vec(), b"w".to_vec()),
        StorageWriteStatus::Conflict
    );
    assert_eq!(s.get(b"k"), Some(b"v".to_vec()));
    assert_eq!(s.get_default(b"k", None), Some(b"v".to_vec()));
    assert_eq!(s.set(b"k".to_vec(), b"w".to_vec()), StorageWriteStatus::Stored);
    assert_eq!(s.iter_all(), vec![(b"k".to_vec(), b"w".to_vec())]);
    assert_eq!(s.iter_older_than(0), vec![(b"k".to_vec(), b"w".to_vec())]);
    s.delete(b"k");
    assert_eq!(s.get(b"k"), None);
    assert!(s.iter_all().is_empty());
}

#[test]
fn a_store_works_through_its_trait() {
    exercise(&mut ForgetfulStorage::new(-1));
}

#[test]
fn ttl_expiry() {
    let mut s = ForgetfulStorage::new(1); // 1-second TTL
    s.set_at(b"k".to_vec(), b"v".to_vec(), 0);
    assert_eq!(s.get_at(b"k", 1000 * MILLISECOND), Some(b"v".to_vec()));
    assert_eq!(s.get_at(b"k", 1100 * MILLISECOND), None);
}

#[test]
fn no_ttl_never_expires() {
    let mut s = ForgetfulStorage::new(-1);
    s.set_at(b"k".to_vec(), b"v".to_vec(), 0);
    assert_eq!(s.get_at(b"k", 10 * MILLISECOND), Some(b"v".to_vec()));
    assert_eq!(s.get_at(b"k", u128::MAX), Some(b"v".to_vec()));
}

#[test]
fn iter_older_than() {
    let mut s = ForgetfulStorage::new(-1);
    s.set_at(b"a".to_vec(), b"1".to_vec(), 0);
    s.set_at(b"b".to_vec(), b"2".to_vec(), 1100 * MILLISECOND);
    let old = s.iter_older_than_at(1, 1100 * MILLISECOND);
    assert_eq!(old.len(), 1);
    assert_eq!(old[0].0, b"a".to_vec());
}

#[test]
fn insert_if_absent_new_key() {
    let mut s = ForgetfulStorage::new(-1);
    assert_eq!(
        s.insert_if_absent(b"k".to_vec(), b"v1".to_vec()),
        StorageWriteStatus::Stored
    );
    assert_eq!(s.get(b"k"), Some(b"v1".to_vec()));
}

#[test]
fn insert_if_absent_existing_key() {
    let mut s = ForgetfulStorage::new(-1);
    s.set(b"k".to_vec(), b"v1".to_vec());
    assert_eq!(
        s.insert_if_absent(b"k".to_vec(), b"v2".to_vec()),
        StorageWriteStatus::Conflict
    );
    assert_eq!(s.get(b"k"), Some(b"v1".to_vec()));
}

#[test]
fn insert_if_absent_replaces_expired() {
    let mut s = ForgetfulStorage::new(1);
    s.set_at(b"k".to_vec(), b"old".to_vec(), 0);
    assert_eq!(
        s.insert_if_absent_at(b"k".to_vec(), b"new".to_vec(), 1100 * MILLISECOND),
        StorageWriteStatus::Stored
    );
    assert_eq!(s.get_at(b"k", 1100 * MILLISECOND), Some(b"new".to_vec()));
}

#[test]
fn prune_expired_reclaims_memory() {
    let mut s = ForgetfulStorage::new(1);
    s.set_at(b"expired".to_vec(), b"value".to_vec(), 0);
    assert_eq!(s.prune_expired_at(1100 * MILLISECOND), 1);
    assert_eq!(s.current_storage_bytes(), 0);
    assert!(s.iter_all_at(0).is_empty());
}

#[test]
fn default_storage_budget_is_512_mib() {
    let storage = ForgetfulStorage::new(-1);
    assert_eq!(storage.max_storage_bytes(), 512 * 1024 * 1024);
    assert_eq!(storage.max_storage_bytes(), DEFAULT_MAX_STORAGE_BYTES);
}

#[test]
fn capacity_is_atomic_and_exact() {
    let mut storage = ForgetfulStorage::with_max_storage_bytes(-1, 8);
    assert_eq!(
        storage.insert_if_absent(b"key".to_vec(), b"value".to_vec()),
        StorageWriteStatus::Stored
    );
    assert_eq!(storage.current_storage_bytes(), 8);
    assert_eq!(
        storage.insert_if_absent(b"x".to_vec(), Vec::new()),
        StorageWriteStatus::CapacityExceeded
    );
    assert_eq!(storage.current_storage_bytes(), 8);
    assert_eq!(storage.get(b"x"), None);
}

#[test]
fn identical_insert_is_idempotent_but_different_value_conflicts() {
    let mut storage = ForgetfulStorage::with_max_storage_bytes(-1, 16);
    assert_eq!(
        storage.insert_if_absent(b"k".to_vec(), b"value".to_vec()),
        StorageWriteStatus::Stored
    );
    assert_eq!(
        storage.insert_if_absent(b"k".to_vec(), b"value".to_vec()),
        StorageWriteStatus::AlreadyStored
    );
    assert_eq!(storage.current_storage_bytes(), 6);
    assert_eq!(
        storage.insert_if_absent(b"k".to_vec(), b"other".to_vec()),
        StorageWriteStatus::Conflict
    );
    assert_eq!(storage.get(b"k"), Some(b"value".to_vec()));
    assert_eq!(storage.current_storage_bytes(), 6);
}

#[test]
fn rejected_growth_preserves_the_existing_value_and_accounting() {
    let mut storage = ForgetfulStorage::with_max_storage_bytes(-1, 6);
    assert_eq!(
        storage.set(b"k".to_vec(), b"value".to_vec()),
        StorageWriteStatus::Stored
    );
    assert_eq!(
        storage.set(b"k".to_vec(), b"larger".to_vec()),
        StorageWriteStatus::CapacityExceeded
    );
    assert_eq!(storage.get(b"k"), Some(b"value".to_vec()));
    assert_eq!(storage.current_storage_bytes(), 6);
}

#[test]
fn prune_expired_releases_capacity() {
    let mut storage = ForgetfulStorage::with_max_storage_bytes(0, 4);
    assert_eq!(
        storage.set_at(b"k".to_vec(), b"123".to_vec(), 0),
        StorageWriteStatus::Stored
    );
    assert_eq!(storage.prune_expired_at(MILLISECOND), 1);
    assert_eq!(storage.current_storage_bytes(), 0);
}

#[test]
fn writes_never_oversubscribe_the_budget() {
    let mut storage = ForgetfulStorage::with_max_storage_bytes(-1, 12 * 4);
    let stored = (0..32u32)
        .filter(|index| {
            storage.insert_if_absent(index.to_be_bytes().to_vec(), vec![0; 8])
                == StorageWriteStatus::Stored
        })
        .count();
    assert_eq!(stored, 4);
    assert_eq!(storage.current_storage_bytes(), 12 * 4);
}

#[test]
fn default_lifetime_is_two_weeks() {
    assert_eq!(DEFAULT_TTL, 1_209_600);
    let mut s = ForgetfulStorage::new(DEFAULT_TTL);
    s.set_at(b"k".to_vec(), b"v".to_vec(), 0);
    assert!(s.get_at(b"k", 1_209_600 * SECOND).is_some());
    assert!(s.get_at(b"k", 1_209_600 * SECOND + 1).is_none());
}

#[test]
fn other_negative_lifetimes_are_very_long() {
    let mut s = ForgetfulStorage::new(-2);
    s.set_at(b"k".to_vec(), b"v".to_vec(), 0);
    let lifetime = (u64::MAX as u128 - 1) * SECOND;
    assert!(s.get_at(b"k", lifetime).is_some());
    assert!(s.get_at(b"k", lifetime + 1).is_none());
}

#[test]
fn a_clock_that_runs_backwards_expires_nothing() {
    let mut s = ForgetfulStorage::new(0);
    s.set_at(b"k".to_vec(), b"v".to_vec(), 5 * SECOND);
    assert!(s.get_at(b"k", 0).is_some());
}

#[test]
fn writing_again_renews_a_record() {
    let mut s = ForgetfulStorage::new(1);
    s.set_at(b"k".to_vec(), b"v".to_vec(), 0);
    assert_eq!(
        s.set_at(b"k".to_vec(), b"v".to_vec(), SECOND),
        StorageWriteStatus::AlreadyStored
    );
    assert!(s.get_at(b"k", 2 * SECOND).is_some());
    assert_eq!(
        s.insert_if_absent_at(b"k".to_vec(), b"v".to_vec(), 2 * SECOND),
        StorageWriteStatus::AlreadyStored
    );
    assert!(s.get_at(b"k", 3 * SECOND).is_some());
}

#[test]
fn shrinking_a_value_frees_bytes() {
    let mut s = ForgetfulStorage::with_max_storage_bytes(-1, 10);
    s.set(b"k".to_vec(), b"123456789".to_vec());
    assert_eq!(s.current_storage_bytes(), 10);
    assert_eq!(
        s.set(b"k".to_vec(), b"1".to_vec()),
        StorageWriteStatus::Stored
    );
    assert_eq!(s.current_storage_bytes(), 2);
    assert_eq!(
        s.set(b"j".to_vec(), b"1234567".to_vec()),
        StorageWriteStatus::Stored
    );
    assert_eq!(s.current_storage_bytes(), 10);
}

#[test]
fn deleting_frees_bytes_and_leaves_the_rest() {
    let mut s = ForgetfulStorage::new(-1);
    s.set(b"a".to_vec(), b"12".to_vec());
    s.set(b"b".to_vec(), b"34".to_vec());
    s.delete(b"a");
    s.delete(b"missing");
    assert_eq!(s.get(b"a"), None);
    assert_eq!(s.get(b"b"), Some(b"34".to_vec()));
    assert_eq!(s.current_storage_bytes(), 3);
}

#[test]
fn defaults_stand_in_for_missing_values() {
    let mut s = ForgetfulStorage::new(-1);
    s.set(b"a".to_vec(), b"1".to_vec());
    assert_eq!(s.get_default(b"a", Some(b"d".to_vec())), Some(b"1".to_vec()));
    assert_eq!(s.get_default(b"b", Some(b"d".to_vec())), Some(b"d".to_vec()));
    assert_eq!(s.get_default(b"b", None), None);
}

#[test]
fn listings_skip_expired_records() {
    let mut s = ForgetfulStorage::new(1);
    s.set_at(b"a".to_vec(), b"1".to_vec(), 0);
    s.set_at(b"b".to_vec(), b"2".to_vec(), SECOND);
    s.set_at(b"c".to_vec(), b"3".to_vec(), SECOND);
    let mut all = s.iter_all_at(2 * SECOND);
    all.sort();
    assert_eq!(
        all,
        vec![
            (b"b".to_vec(), b"2".to_vec()),
            (b"c".to_vec(), b"3".to_vec())
        ]
    );
    assert!(s.iter_older_than_at(2, 2 * SECOND).is_empty());
    // The bytes stay charged until the record is pruned.
    assert_eq!(s.current_storage_bytes(), 6);
    assert_eq!(s.prune_expired_at(2 * SECOND), 1);
    assert_eq!(s.current_storage_bytes(), 4);
}

#[test]
fn the_clock_of_the_machine_is_read() {
    let mut s = ForgetfulStorage::new(3600);
    s.set(b"a".to_vec(), b"1".to_vec());
    assert_eq!(s.iter_all().len(), 1);
    assert!(s.iter_older_than(3600).is_empty());
    assert_eq!(s.iter_older_than(0).len(), 1);
    assert_eq!(s.prune_expired(), 0);
}

#[test]
fn records_under_ids_are_picked_out() {
    let list = vec![
        (vec![1; ID_LEN], b"a".to_vec()),
        (vec![2; 3], b"b".to_vec()),
        (vec![3; ID_LEN], b"c".to_vec()),
    ];
    assert_eq!(
        id_records(&list),
        vec![
            ([1; ID_LEN], b"a".to_vec()),
            ([3; ID_LEN], b"c".to_vec())
        ]
    );
}
