use storage_bench::entity::Entity;
use storage_bench::storage::{
    DenseStorage, HashedStorage, OrderedStorage, PackedStorage, Payload, PresenceStorage,
    StorageError, ValueStorage,
};

fn ent(index: usize, generation: u64) -> Entity {
    Entity { index, generation }
}

#[test]
fn packed_storage_contract() {
    let mut s = PackedStorage::new();
    assert_eq!(s.insert(ent(4, 0), Payload::with_ordinal(10)), Ok(()));
    assert_eq!(s.insert(ent(4, 1), Payload::with_ordinal(11)), Err(StorageError::AlreadyPresent));
    assert_eq!(s.insert(ent(1, 2), Payload::with_ordinal(5)), Ok(()));
    assert!(s.contains(ent(4, 0)));
    assert!(!s.contains(ent(4, 1)));
    assert_eq!(s.get(ent(1, 2)).map(|p| p.ordinal), Some(5));
    assert_eq!(s.ordinal_sum(), 15);
    assert_eq!(s.remove(ent(4, 1)), None);
    assert_eq!(s.remove(ent(4, 0)).map(|p| p.ordinal), Some(10));
    assert_eq!(s.remove(ent(4, 0)), None);
    assert_eq!(s.ordinal_sum(), 5);
}

#[test]
fn dense_storage_swaps_last_into_hole() {
    let mut s = DenseStorage::new();
    for i in 0..6usize {
        assert_eq!(s.insert(ent(i * 3, 0), Payload::with_ordinal(i as u64 + 1)), Ok(()));
    }
    assert_eq!(s.ordinal_sum(), 21);
    assert_eq!(s.remove(ent(3, 0)).map(|p| p.ordinal), Some(2));
    assert_eq!(s.get(ent(15, 0)).map(|p| p.ordinal), Some(6));
    assert_eq!(s.remove(ent(15, 0)).map(|p| p.ordinal), Some(6));
    assert_eq!(s.insert(ent(0, 0), Payload::with_ordinal(9)), Err(StorageError::AlreadyPresent));
    assert_eq!(s.ordinal_sum(), 13);
    assert!(s.contains(ent(12, 0)));
    assert!(!s.contains(ent(3, 0)));
}

#[test]
fn ordered_and_hashed_storages_agree() {
    let mut o = OrderedStorage::new();
    let mut h = HashedStorage::new();
    for i in [7usize, 2, 9, 4] {
        assert_eq!(o.insert(ent(i, 1), Payload::with_ordinal(i as u64 * 100)), Ok(()));
        assert_eq!(h.insert(ent(i, 1), Payload::with_ordinal(i as u64 * 100)), Ok(()));
    }
    assert_eq!(o.insert(ent(2, 1), Payload::with_ordinal(0)), Err(StorageError::AlreadyPresent));
    assert_eq!(h.insert(ent(2, 1), Payload::with_ordinal(0)), Err(StorageError::AlreadyPresent));
    assert_eq!(o.ordinal_sum(), 2200);
    assert_eq!(h.ordinal_sum(), 2200);
    assert_eq!(o.remove(ent(9, 0)), None);
    assert_eq!(h.remove(ent(9, 0)), None);
    assert_eq!(o.remove(ent(9, 1)).map(|p| p.ordinal), Some(900));
    assert_eq!(h.remove(ent(9, 1)).map(|p| p.ordinal), Some(900));
    assert_eq!(o.ordinal_sum(), 1300);
    assert_eq!(h.ordinal_sum(), 1300);
    assert_eq!(o.get(ent(4, 1)).map(|p| p.ordinal), Some(400));
    assert!(h.contains(ent(7, 1)));
    assert!(!h.contains(ent(9, 1)));
}

#[test]
fn presence_storage_counts() {
    let mut s = PresenceStorage::new();
    assert_eq!(s.count(), 0);
    assert_eq!(s.insert(ent(5, 0)), Ok(()));
    assert_eq!(s.insert(ent(0, 3)), Ok(()));
    assert_eq!(s.insert(ent(5, 1)), Err(StorageError::AlreadyPresent));
    assert_eq!(s.count(), 2);
    assert!(s.contains(ent(0, 3)));
    assert!(!s.remove(ent(0, 2)));
    assert!(s.remove(ent(0, 3)));
    assert_eq!(s.count(), 1);
}

#[test]
fn empty_storages_sum_to_zero() {
    assert_eq!(PackedStorage::new().ordinal_sum(), 0);
    assert_eq!(DenseStorage::new().ordinal_sum(), 0);
    assert_eq!(OrderedStorage::new().ordinal_sum(), 0);
    assert_eq!(HashedStorage::new().ordinal_sum(), 0);
    assert_eq!(PresenceStorage::new().count(), 0);
}

#[test]
fn large_ordinals_sum_without_overflow() {
    let mut s = PackedStorage::new();
    s.insert(ent(0, 0), Payload::with_ordinal(u64::MAX)).unwrap();
    s.insert(ent(1, 0), Payload::with_ordinal(u64::MAX)).unwrap();
    assert_eq!(s.ordinal_sum(), 2 * (u64::MAX as u128));
}

#[test]
fn entries_list_each_stored_pair_once() {
    let mut p = PackedStorage::new();
    let mut d = DenseStorage::new();
    let mut o = OrderedStorage::new();
    let mut h = HashedStorage::new();
    let mut s = PresenceStorage::new();
    for (i, g) in [(6usize, 0u64), (1, 4), (3, 2)] {
        let pl = Payload::with_ordinal(i as u64);
        p.insert(ent(i, g), pl).unwrap();
        d.insert(ent(i, g), pl).unwrap();
        o.insert(ent(i, g), pl).unwrap();
        h.insert(ent(i, g), pl).unwrap();
        s.insert(ent(i, g)).unwrap();
    }
    d.remove(ent(1, 4)).unwrap();
    p.remove(ent(1, 4)).unwrap();
    let expected = vec![(ent(3, 2), Payload::with_ordinal(3)), (ent(6, 0), Payload::with_ordinal(6))];
    assert_eq!(p.entries(), expected);
    let mut de = d.entries();
    de.sort_by_key(|(e, _)| e.index);
    assert_eq!(de, expected);
    assert_eq!(o.entries().len(), 3);
    assert_eq!(o.entries()[0].0, ent(1, 4));
    let mut he = h.entries();
    he.sort_by_key(|(e, _)| e.index);
    assert_eq!(he.iter().map(|(e, _)| e.index).collect::<Vec<_>>(), vec![1, 3, 6]);
    assert_eq!(s.entities(), vec![ent(1, 4), ent(3, 2), ent(6, 0)]);
}

fn exercise_value_storage<S: ValueStorage>(mut s: S) {
    assert_eq!(ValueStorage::insert(&mut s, ent(2, 0), Payload::with_ordinal(4)), Ok(()));
    assert_eq!(ValueStorage::insert(&mut s, ent(5, 1), Payload::with_ordinal(6)), Ok(()));
    assert_eq!(
        ValueStorage::insert(&mut s, ent(5, 2), Payload::with_ordinal(1)),
        Err(StorageError::AlreadyPresent)
    );
    assert!(ValueStorage::contains(&s, ent(5, 1)));
    assert_eq!(ValueStorage::get(&s, ent(2, 0)).map(|p| p.ordinal), Some(4));
    assert_eq!(ValueStorage::ordinal_sum(&s), 10);
    assert_eq!(ValueStorage::remove(&mut s, ent(2, 0)).map(|p| p.ordinal), Some(4));
    assert_eq!(ValueStorage::entries(&s), vec![(ent(5, 1), Payload::with_ordinal(6))]);
}

#[test]
fn every_value_storage_meets_the_shared_interface() {
    exercise_value_storage(PackedStorage::new());
    exercise_value_storage(DenseStorage::new());
    exercise_value_storage(OrderedStorage::new());
    exercise_value_storage(HashedStorage::new());
}
