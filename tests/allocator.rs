use storage_bench::entity::{Allocator, Entity, EntityError};

#[test]
fn allocate_grows_from_zero() {
    let mut a = Allocator::new();
    let e0 = a.allocate();
    let e1 = a.allocate();
    assert_eq!(e0, Entity { index: 0, generation: 0 });
    assert_eq!(e1, Entity { index: 1, generation: 0 });
    assert_eq!(a.len(), 2);
    assert!(a.is_alive(e0));
    assert!(a.is_alive(e1));
}

#[test]
fn free_then_allocate_reuses_lowest_slot_with_next_generation() {
    let mut a = Allocator::new();
    let es: Vec<Entity> = (0..5).map(|_| a.allocate()).collect();
    assert_eq!(a.free(es[3]), Ok(()));
    assert_eq!(a.free(es[1]), Ok(()));
    let r1 = a.allocate();
    assert_eq!(r1, Entity { index: 1, generation: 1 });
    let r2 = a.allocate();
    assert_eq!(r2, Entity { index: 3, generation: 1 });
    let r3 = a.allocate();
    assert_eq!(r3, Entity { index: 5, generation: 0 });
    assert_eq!(a.len(), 6);
}

#[test]
fn free_of_stale_entity_fails() {
    let mut a = Allocator::new();
    let e = a.allocate();
    assert_eq!(a.free(e), Ok(()));
    assert_eq!(a.free(e), Err(EntityError::StaleEntity));
    let again = a.allocate();
    assert_eq!(again.index, e.index);
    assert_eq!(a.free(e), Err(EntityError::StaleEntity));
    assert_eq!(a.free(Entity { index: 9, generation: 0 }), Err(EntityError::StaleEntity));
}

#[test]
fn is_alive_is_stable_without_mutation() {
    let mut a = Allocator::new();
    let e = a.allocate();
    let dead = a.allocate();
    a.free(dead).unwrap();
    for _ in 0..4 {
        assert!(a.is_alive(e));
        assert!(!a.is_alive(dead));
    }
}

#[test]
fn generation_increases_on_each_reuse() {
    let mut a = Allocator::new();
    let mut e = a.allocate();
    for round in 1..=10u64 {
        a.free(e).unwrap();
        assert!(!a.is_alive(e));
        let next = a.allocate();
        assert_eq!(next.index, e.index);
        assert_eq!(next.generation, round);
        assert!(next.generation > e.generation);
        assert!(!a.is_alive(e));
        e = next;
    }
}

#[test]
fn entity_at_reports_current_generation() {
    let mut a = Allocator::new();
    let e = a.allocate();
    a.free(e).unwrap();
    assert_eq!(a.entity_at(0), Entity { index: 0, generation: 1 });
    assert!(!a.is_alive(a.entity_at(0)));
    assert_eq!(a.entity_at(7), Entity { index: 7, generation: 0 });
}
