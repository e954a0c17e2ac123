use storage_bench::entity::Entity;
use storage_bench::entropy::Entropy;
use storage_bench::storage::Payload;
use storage_bench::world::{check_totals, BenchError, IterationTotals, World};

fn assert_in_step(w: &World) -> IterationTotals {
    let t = w.totals();
    assert_eq!(t.packed, t.dense);
    assert_eq!(t.packed, t.ordered);
    assert_eq!(t.packed, t.hashed);
    assert_eq!(check_totals(0, t), Ok(()));
    t
}

#[test]
fn fill_to_thirty_percent_of_thousand() {
    let mut rng = Entropy::seeded(11);
    let w = World::fill(1000, 30, &mut rng);
    assert_eq!(w.presence_count(), 300);
    assert_eq!(w.slot_count(), 1000);
    assert_in_step(&w);
}

#[test]
fn zero_fill_is_empty() {
    let mut rng = Entropy::seeded(12);
    let w = World::prepare(1000, 0, 50, &mut rng);
    let t = assert_in_step(&w);
    assert_eq!(t.present, 0);
    assert_eq!(t.packed, 0);
    assert_eq!(w.slot_count(), 1000);
}

#[test]
fn full_fill_stores_every_slot() {
    let mut rng = Entropy::seeded(13);
    let w = World::fill(1000, 100, &mut rng);
    let t = assert_in_step(&w);
    assert_eq!(t.present, 1000);
    assert_eq!(t.packed, (0..1000u128).sum::<u128>());
}

#[test]
fn churn_keeps_storages_in_step() {
    let mut rng = Entropy::seeded(14);
    let mut w = World::fill(10_000, 50, &mut rng);
    let before = w.presence_count();
    assert_eq!(before, 5000);
    w.churn_pass(10_000, 2000, &mut rng);
    let t = assert_in_step(&w);
    assert_eq!(t.present, 5000);
    assert_eq!(w.slot_count(), 10_000);
}

#[test]
fn churn_window_replaces_stored_entities() {
    let mut w = World::new();
    let a = w.store_new();
    let skipped = w.skip_new();
    let b = w.store_new();
    let n = w.churn_window(0, 3);
    assert_eq!(n, 2);
    assert!(!w.is_alive(a));
    assert!(!w.is_alive(b));
    assert!(w.is_alive(skipped));
    assert!(w.is_alive(Entity { index: a.index, generation: a.generation + 1 }));
    assert_eq!(w.slot_count(), 3);
    let t = assert_in_step(&w);
    assert_eq!(t.present, 2);
    assert_eq!(t.packed, 2 + 3);
}

#[test]
fn desynchronized_storage_is_caught() {
    let mut rng = Entropy::seeded(15);
    let mut w = World::fill(100, 40, &mut rng);
    w.inject_hashed_entry(Entity { index: 500, generation: 0 }, Payload::with_ordinal(1));
    let t = w.totals();
    assert_eq!(t.hashed, t.packed + 1);
    assert_eq!(
        check_totals(40, t),
        Err(BenchError::CrossBackendMismatch { percent: 40, totals: t })
    );
}

#[test]
fn check_totals_on_given_sums() {
    let t = IterationTotals { packed: 6, dense: 6, ordered: 6, hashed: 6, present: 3 };
    assert_eq!(check_totals(5, t), Ok(()));
    let bad = IterationTotals { packed: 6, dense: 7, ordered: 6, hashed: 6, present: 3 };
    assert!(check_totals(5, bad).is_err());
}

#[test]
fn storages_list_the_same_entities_after_churn() {
    let mut rng = Entropy::seeded(16);
    let w = World::prepare(5000, 37, 500, &mut rng);
    let mut packed = w.packed_entries();
    let mut dense = w.dense_entries();
    let mut ordered = w.ordered_entries();
    let mut hashed = w.hashed_entries();
    let present = w.present_entities();
    for v in [&mut packed, &mut dense, &mut ordered, &mut hashed] {
        v.sort_by_key(|(e, _)| e.index);
    }
    assert_eq!(packed.len(), 5000 * 37 / 100);
    assert_eq!(packed, dense);
    assert_eq!(packed, ordered);
    assert_eq!(packed, hashed);
    let listed: Vec<Entity> = packed.iter().map(|(e, _)| *e).collect();
    assert_eq!(listed, present);
    assert!(present.iter().all(|e| w.is_alive(*e)));
}

#[test]
fn fill_stores_consecutive_ordinals() {
    let mut rng = Entropy::seeded(17);
    let w = World::fill(2000, 25, &mut rng);
    let mut ords: Vec<u64> = w.packed_entries().iter().map(|(_, p)| p.ordinal).collect();
    ords.sort();
    assert_eq!(ords, (0..500u64).collect::<Vec<_>>());
    assert_eq!(w.packed_sum(), 500 * 499 / 2);
}

#[test]
fn churn_window_bumps_generations_in_window_only() {
    let mut w = World::new();
    let es: Vec<Entity> = (0..6).map(|_| w.store_new()).collect();
    w.churn_window(2, 2);
    for (i, e) in es.iter().enumerate() {
        if i == 2 || i == 3 {
            assert!(!w.is_alive(*e));
            assert!(w.is_alive(Entity { index: e.index, generation: e.generation + 1 }));
        } else {
            assert!(w.is_alive(*e));
        }
    }
    let ords: Vec<u64> = w.packed_entries().iter().map(|(_, p)| p.ordinal).collect();
    assert_eq!(ords, vec![0, 1, 6, 7, 4, 5]);
}

#[test]
fn churn_pass_with_zero_capacity_changes_nothing() {
    let mut rng = Entropy::seeded(18);
    let mut w = World::fill(0, 50, &mut rng);
    w.churn_pass(0, 10, &mut rng);
    assert_eq!(w.slot_count(), 0);
    assert_eq!(w.presence_count(), 0);
}
