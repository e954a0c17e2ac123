//! One benchmark step: an allocator and the five storages, filled and
//! churned in lockstep, then summed and cross-checked.
use vstd::prelude::*;
use crate::churn::{fill_runs, lemma_run_total_prefix, run_total};
use crate::entity::{next_generation, Allocator, Entity};
use crate::entropy::Entropy;
use crate::storage::{
    entry_count, ordinals, fresh_payload, holds, lemma_ordinal_sum_insert, lists, marks, ordinal_sum, Contents, DenseStorage, HashedStorage, OrderedStorage,
    PackedStorage, Payload, PresenceStorage,
};
use crate::total::{lemma_total_bound, slot_bound, lemma_ones_empty, lemma_ones_insert, lemma_ones_remove};

verus! {

/// The generation stored for each slot.
pub open spec fn generations(m: Contents) -> Map<usize, u64> {
    m.map_values(|v: (u64, Payload)| v.0)
}

/// The ordinal after `o`; it wraps at the top of `u64`.
pub open spec fn next_ordinal(o: u64) -> u64 {
    if o == u64::MAX {
        0
    } else {
        (o + 1) as u64
    }
}

/// The keys of `s` in `[lo, hi)`.
pub open spec fn in_window(s: Set<usize>, lo: nat, hi: nat) -> Set<usize> {
    s.filter(|k: usize| lo <= k && k < hi)
}

/// The stored slots that a churn window `[offset, offset + len)` covers,
/// clipped to the allocated slots.
pub open spec fn window_of(w: World, offset: usize, len: usize) -> Set<usize> {
    in_window(
        w.packed_contents().dom(),
        offset as nat,
        vstd::math::min(offset + len, w.allocator().slot_count() as int) as nat,
    )
}

/// What one churn window does: the covered entities are freed (their slots
/// move to the next generation) and as many fresh ones are stored; entities
/// outside the window keep their payloads. When no slot was dead before, the
/// fresh entities take exactly the freed slots.
pub open spec fn churned(pre: World, post: World, offset: usize, len: usize) -> bool {
    let ws = window_of(pre, offset, len);
    &&& post.wf()
    &&& post.stored() == pre.stored()
    &&& post.allocator().slot_count() == pre.allocator().slot_count()
    &&& forall|k: int|
        0 <= k < pre.allocator().slot_count() ==> #[trigger] post.allocator().gens()[k] == if ws.contains(
            k as usize,
        ) {
            next_generation(pre.allocator().gens()[k])
        } else {
            pre.allocator().gens()[k]
        }
    &&& forall|k: usize| #[trigger]
        pre.packed_contents().contains_key(k) && !ws.contains(k) ==> post.packed_contents().contains_key(k)
            && post.packed_contents()[k] == pre.packed_contents()[k]
    &&& !pre.allocator().has_free() ==> post.packed_contents().dom() == pre.packed_contents().dom()
        && !post.allocator().has_free()
}

/// `post` comes from `pre` by the churn windows `ws`, as (offset, len), in order.
pub open spec fn churned_seq(pre: World, post: World, ws: Seq<(usize, usize)>) -> bool
    decreases ws.len(),
{
    if ws.len() == 0 {
        pre == post
    } else {
        exists|mid: World|
            churned_seq(pre, mid, ws.drop_last()) && #[trigger] churned(
                mid,
                post,
                ws.last().0,
                ws.last().1,
            )
    }
}

/// The windows a churn pass over `[0, capacity)` may draw.
pub open spec fn churn_windows_fit(ws: Seq<(usize, usize)>, capacity: usize) -> bool {
    forall|k: int|
        0 <= k < ws.len() ==> 1 <= (#[trigger] ws[k]).1 <= vstd::math::max(1, (capacity / 5000) as int)
            && ws[k].0 + ws[k].1 <= capacity
}

/// The four ordinal sums and the presence count of one pass each.
#[derive(Clone, Copy, Debug, PartialEq, Eq, Structural)]
pub struct IterationTotals {
    pub packed: u128,
    pub dense: u128,
    pub ordered: u128,
    pub hashed: u128,
    pub present: usize,
}

#[derive(Clone, Copy, Debug, PartialEq, Eq, Structural)]
pub enum BenchError {
    /// The value-bearing storages disagree on the sum of their ordinals.
    CrossBackendMismatch { percent: usize, totals: IterationTotals },
}

/// The step's allocator and storages.
pub struct World {
    alloc: Allocator,
    packed: PackedStorage,
    dense: DenseStorage,
    ordered: OrderedStorage,
    hashed: HashedStorage,
    presence: PresenceStorage,
    next_ordinal: u64,
}

impl World {
    pub closed spec fn allocator(&self) -> Allocator {
        self.alloc
    }

    pub closed spec fn packed_contents(&self) -> Contents {
        self.packed.view()
    }

    pub closed spec fn dense_contents(&self) -> Contents {
        self.dense.view()
    }

    pub closed spec fn ordered_contents(&self) -> Contents {
        self.ordered.view()
    }

    pub closed spec fn hashed_contents(&self) -> Contents {
        self.hashed.view()
    }

    pub closed spec fn presence_contents(&self) -> Map<usize, u64> {
        self.presence.view()
    }

    /// The ordinal the next stored entity gets.
    pub closed spec fn ordinal_counter(&self) -> u64 {
        self.next_ordinal
    }

    /// Number of entities that hold a payload.
    pub open spec fn stored(&self) -> int {
        entry_count(self.packed_contents().dom())
    }

    /// A well-formed world has well-formed storages.
    pub proof fn lemma_wf_storages(&self)
        requires
            self.wf(),
        ensures
            self.storages_wf(),
    {
    }

    /// The storages are each well formed (they need not agree).
    pub closed spec fn storages_wf(&self) -> bool {
        self.alloc.wf() && self.dense.wf()
    }

    /// The storages agree, and every stored entity is alive.
    pub closed spec fn wf(&self) -> bool {
        &&& self.storages_wf()
        &&& self.dense.view() == self.packed.view()
        &&& self.ordered.view() == self.packed.view()
        &&& self.hashed.view() == self.packed.view()
        &&& self.presence.view() == generations(self.packed.view())
        &&& forall|k: usize| #[trigger]
            self.packed.view().contains_key(k) ==> (k as nat) < self.alloc.slot_count()
                && self.alloc.live()[k as int] && self.alloc.gens()[k as int]
                == self.packed.view()[k].0
    }

    pub fn new() -> (r: World)
        ensures
            r.wf(),
            r.storages_wf(),
            r.packed_contents() == Contents::empty(),
            r.allocator().slot_count() == 0,
            r.ordinal_counter() == 0,
    {
        let r = World {
            alloc: Allocator::new(),
            packed: PackedStorage::new(),
            dense: DenseStorage::new(),
            ordered: OrderedStorage::new(),
            hashed: HashedStorage::new(),
            presence: PresenceStorage::new(),
            next_ordinal: 0,
        };
        assert(generations(Contents::empty()) =~= Map::<usize, u64>::empty());
        r
    }

    /// Allocates an entity and stores a payload for it in every storage.
    pub fn store_new(&mut self) -> (e: Entity)
        requires
            old(self).wf(),
            old(self).allocator().slot_count() < usize::MAX,
        ensures
            final(self).wf(),
            final(self).storages_wf(),
            Allocator::allocated(old(self).allocator(), final(self).allocator(), e),
            !old(self).packed_contents().contains_key(e.index),
            final(self).packed_contents().dom() == old(self).packed_contents().dom().insert(
                e.index,
            ),
            final(self).stored() == old(self).stored() + 1,
            final(self).packed_contents() == old(self).packed_contents().insert(
                e.index,
                (e.generation, fresh_payload(old(self).ordinal_counter())),
            ),
            final(self).ordinal_counter() == next_ordinal(old(self).ordinal_counter()),
    {
        let ghost pre = self.packed.view();
        let e = self.alloc.allocate();
        assert(!pre.contains_key(e.index)) by {
            if pre.contains_key(e.index) {
                assert(old(self).alloc.live()[e.index as int]);
            }
        }
        let p = Payload::with_ordinal(self.next_ordinal);
        self.next_ordinal = if self.next_ordinal == u64::MAX {
            0
        } else {
            self.next_ordinal + 1
        };
        let _ = self.packed.insert(e, p);
        let _ = self.dense.insert(e, p);
        let _ = self.ordered.insert(e, p);
        let _ = self.hashed.insert(e, p);
        let _ = self.presence.insert(e);
        proof {
            assert(self.presence.view() =~= generations(self.packed.view()));
            assert(self.packed.view().dom() =~= pre.dom().insert(e.index));
            lemma_ones_insert(pre.dom(), e.index);
            self.alloc.lemma_wf_lengths();
            old(self).alloc.lemma_wf_lengths();
            assert forall|k: usize| #[trigger] self.packed.view().contains_key(k) implies (k as nat)
                < self.alloc.slot_count() && self.alloc.live()[k as int] && self.alloc.gens()[k as int]
                == self.packed.view()[k].0 by {
                if k != e.index {
                    assert(pre.contains_key(k));
                }
            }
        }
        e
    }

    /// Allocates an entity and stores nothing for it.
    pub fn skip_new(&mut self) -> (e: Entity)
        requires
            old(self).wf(),
            old(self).allocator().slot_count() < usize::MAX,
        ensures
            final(self).wf(),
            final(self).storages_wf(),
            Allocator::allocated(old(self).allocator(), final(self).allocator(), e),
            final(self).packed_contents() == old(self).packed_contents(),
            final(self).ordinal_counter() == old(self).ordinal_counter(),
    {
        let e = self.alloc.allocate();
        proof {
            self.alloc.lemma_wf_lengths();
            old(self).alloc.lemma_wf_lengths();
            assert forall|k: usize| #[trigger] self.packed.view().contains_key(k) implies (k as nat)
                < self.alloc.slot_count() && self.alloc.live()[k as int] && self.alloc.gens()[k as int]
                == self.packed.view()[k].0 by {
                assert(old(self).packed.view().contains_key(k));
            }
        }
        e
    }

    /// Frees a stored entity and removes it from every storage.
    pub fn retire(&mut self, e: Entity)
        requires
            old(self).wf(),
            holds(old(self).packed_contents(), e),
        ensures
            final(self).wf(),
            final(self).storages_wf(),
            Allocator::freed(old(self).allocator(), final(self).allocator(), e),
            final(self).packed_contents() == old(self).packed_contents().remove(e.index),
            final(self).stored() == old(self).stored() - 1,
            final(self).ordinal_counter() == old(self).ordinal_counter(),
    {
        let ghost pre = self.packed.view();
        let _ = self.alloc.free(e);
        let _ = self.packed.remove(e);
        let _ = self.dense.remove(e);
        let _ = self.ordered.remove(e);
        let _ = self.hashed.remove(e);
        let _ = self.presence.remove(e);
        proof {
            assert(self.presence.view() =~= generations(self.packed.view()));
            assert(self.packed.view().dom() =~= pre.dom().remove(e.index));
            lemma_ones_remove(pre.dom(), e.index);
            self.alloc.lemma_wf_lengths();
            old(self).alloc.lemma_wf_lengths();
            assert forall|k: usize| #[trigger] self.packed.view().contains_key(k) implies (k as nat)
                < self.alloc.slot_count() && self.alloc.live()[k as int] && self.alloc.gens()[k as int]
                == self.packed.view()[k].0 by {
                assert(pre.contains_key(k));
            }
        }
    }

    /// A fresh world whose `capacity` slots are all allocated, of which
    /// `capacity * percent / 100` hold a payload in every storage, laid out
    /// in shuffled populated and skipped runs.
    pub fn fill(capacity: usize, percent: usize, rng: &mut Entropy) -> (r: World)
        requires
            percent <= 100,
            capacity <= usize::MAX / 100,
        ensures
            r.wf(),
            r.storages_wf(),
            r.stored() == capacity * percent / 100,
            r.allocator().slot_count() == capacity,
            r.ordinal_counter() == capacity * percent / 100,
            ordinal_sum(r.packed_contents()) == r.stored() * (r.stored() - 1) / 2,
    {
        assert(capacity * percent <= usize::MAX) by (nonlinear_arith)
            requires
                percent <= 100,
                capacity <= usize::MAX / 100,
        ;
        let num_set = capacity * percent / 100;
        assert(num_set <= capacity) by (nonlinear_arith)
            requires
                percent <= 100,
                num_set == capacity * percent / 100,
        ;
        let num_unset = capacity - num_set;
        let runs = fill_runs(num_set, num_unset, rng);
        let mut w = World::new();
        proof {
            w.allocator().lemma_wf_lengths();
            lemma_total_bound(ordinals(w.packed_contents()), 0, slot_bound());
            lemma_ones_empty();
            assert(runs@.take(0) == Seq::<crate::churn::Run>::empty());
            assert(w.packed_contents().dom() =~= Set::<usize>::empty());
        }
        let mut i: usize = 0;
        while i < runs.len()
            invariant
                w.wf(),
                i <= runs@.len(),
                run_total(runs@, true) == num_set,
                run_total(runs@, false) == num_unset,
                num_set + num_unset == capacity,
                capacity <= usize::MAX / 100,
                !w.allocator().has_free(),
                w.stored() == run_total(runs@.take(i as int), true),
                w.ordinal_counter() == w.stored(),
                ordinal_sum(w.packed_contents()) == w.stored() * (w.stored() - 1) / 2,
                w.allocator().slot_count() == run_total(runs@.take(i as int), true) + run_total(
                    runs@.take(i as int),
                    false,
                ),
            decreases runs@.len() - i,
        {
            proof {
                lemma_run_total_prefix(runs@, i as int, true);
                lemma_run_total_prefix(runs@, i as int, false);
            }
            let run = runs[i];
            let ghost base_stored = w.stored();
            let ghost base_count = w.allocator().slot_count();
            let mut j: usize = 0;
            while j < run.len
                invariant
                    w.wf(),
                    j <= run.len,
                    base_count + run.len <= capacity,
                    capacity <= usize::MAX / 100,
                    run.populate ==> w.stored() == base_stored + j,
                    base_stored + run.len <= capacity || !run.populate,
                    w.ordinal_counter() == w.stored(),
                    ordinal_sum(w.packed_contents()) == w.stored() * (w.stored() - 1) / 2,
                    !run.populate ==> w.stored() == base_stored,
                    w.allocator().slot_count() == base_count + j,
                    !w.allocator().has_free(),
                decreases run.len - j,
            {
                let ghost pre = w.allocator();
                let ghost pre_w = w;
                if run.populate {
                    let e = w.store_new();
                    proof {
                        let s0 = pre_w.stored();
                        lemma_ordinal_sum_insert(
                            pre_w.packed_contents(),
                            e.index,
                            (e.generation, fresh_payload(pre_w.ordinal_counter())),
                        );
                        assert(s0 * (s0 - 1) / 2 + s0 == (s0 + 1) * s0 / 2) by (nonlinear_arith)
                            requires
                                s0 >= 0,
                        ;
                    }
                } else {
                    w.skip_new();
                }
                proof {
                    pre.lemma_wf_lengths();
                    w.allocator().lemma_wf_lengths();
                    assert(!w.allocator().has_free()) by {
                        assert forall|s: int| 0 <= s < w.allocator().slot_count() implies w.allocator().live()[s] by {
                            if s < pre.slot_count() {
                                assert(pre.live()[s]);
                            }
                        }
                    }
                }
                j = j + 1;
            }
            i = i + 1;
        }
        assert(runs@.take(runs@.len() as int) == runs@);
        w
    }

    /// Frees every stored entity whose slot lies in `[offset, offset + len)`
    /// (clipped to the allocated slots) and removes it from every storage,
    /// then stores as many fresh entities, which reuse freed slots. Returns
    /// how many were replaced.
    pub fn churn_window(&mut self, offset: usize, len: usize) -> (n: usize)
        requires
            old(self).wf(),
            old(self).allocator().slot_count() < usize::MAX,
        ensures
            churned(*old(self), *final(self), offset, len),
            final(self).storages_wf(),
            n == entry_count(window_of(*old(self), offset, len)),
    {
        let count = self.alloc.len();
        let end: usize = if offset >= count {
            offset
        } else if len > count - offset {
            count
        } else {
            offset + len
        };
        let ghost old_world = *self;
        let ghost count0 = self.allocator().slot_count();
        let ghost stored0 = self.stored();
        let ghost dom0 = self.packed_contents().dom();
        let ghost c0 = self.packed_contents();
        let ghost g0 = self.allocator().gens();
        let ghost had_free = self.allocator().has_free();
        let ghost wset = window_of(*self, offset, len);
        proof {
            self.alloc.lemma_wf_lengths();
        }
        let mut deletes: Vec<Entity> = Vec::new();
        let mut j: usize = offset;
        proof {
            assert(in_window(dom0, offset as nat, offset as nat) =~= Set::<usize>::empty());
            lemma_ones_empty();
        }
        while j < end
            invariant
                self.wf(),
                *self == old_world,
                offset <= j <= end,
                end <= count || end == offset,
                count == self.allocator().slot_count(),
                dom0 == self.packed_contents().dom(),
                deletes@.len() == entry_count(in_window(dom0, offset as nat, j as nat)),
                forall|a: int|
                    0 <= a < deletes@.len() ==> holds(self.packed_contents(), #[trigger] deletes@[a])
                        && deletes@[a].index < j,
                forall|a: int, c: int|
                    0 <= a < c < deletes@.len() ==> deletes@[a].index < deletes@[c].index,
                forall|k: usize|
                    #[trigger] in_window(dom0, offset as nat, j as nat).contains(k) <==> exists|a: int|
                        0 <= a < deletes@.len() && deletes@[a].index == k,
            decreases end - j,
        {
            let e = self.alloc.entity_at(j);
            let ghost prev = deletes@;
            proof {
                let win = in_window(dom0, offset as nat, j as nat);
                if dom0.contains(j) {
                    assert(in_window(dom0, offset as nat, (j + 1) as nat) =~= win.insert(j));
                    lemma_ones_insert(win, j);
                    assert(generations(self.packed.view()).contains_key(j));
                } else {
                    assert(in_window(dom0, offset as nat, (j + 1) as nat) =~= win);
                }
            }
            if self.presence.contains(e) {
                proof {
                    assert(generations(self.packed.view()).contains_key(j));
                }
                deletes.push(e);
                proof {
                    assert(deletes@ == prev.push(e));
                    assert(dom0.contains(j));
                    assert forall|k: usize|
                        #[trigger] in_window(dom0, offset as nat, (j + 1) as nat).contains(k) <==> exists|a: int|
                            0 <= a < deletes@.len() && deletes@[a].index == k by {
                        if in_window(dom0, offset as nat, (j + 1) as nat).contains(k) {
                            if k == j {
                                assert(deletes@[prev.len() as int].index == k);
                            } else {
                                assert(in_window(dom0, offset as nat, j as nat).contains(k));
                                let a = choose|a: int| 0 <= a < prev.len() && prev[a].index == k;
                                assert(deletes@[a] == prev[a]);
                            }
                        }
                        if exists|a: int| 0 <= a < deletes@.len() && deletes@[a].index == k {
                            let a = choose|a: int| 0 <= a < deletes@.len() && deletes@[a].index == k;
                            if a < prev.len() {
                                assert(deletes@[a] == prev[a]);
                                assert(in_window(dom0, offset as nat, j as nat).contains(k));
                            }
                        }
                    }
                }
            } else {
                proof {
                    assert(!dom0.contains(j)) by {
                        if dom0.contains(j) {
                            assert(generations(self.packed.view()).contains_key(j));
                        }
                    }
                }
            }
            j = j + 1;
        }
        proof {
            assert(in_window(dom0, offset as nat, end as nat) =~= wset);
        }
        let ghost mut pending: Set<usize> = Set::empty();
        proof {
            assert(self.packed_contents() =~= c0.remove_keys(pending));
        }
        let mut i: usize = 0;
        while i < deletes.len()
            invariant
                self.wf(),
                i <= deletes@.len(),
                count0 < usize::MAX,
                dom0 == c0.dom(),
                self.allocator().slot_count() == count0,
                self.stored() == stored0 - i,
                forall|a: int|
                    i <= a < deletes@.len() ==> holds(self.packed_contents(), #[trigger] deletes@[a]),
                forall|a: int, c: int|
                    0 <= a < c < deletes@.len() ==> deletes@[a].index < deletes@[c].index,
                forall|k: usize|
                    #[trigger] wset.contains(k) <==> exists|a: int|
                        0 <= a < deletes@.len() && deletes@[a].index == k,
                pending.finite(),
                pending.len() == i,
                forall|s: usize| #[trigger]
                    pending.contains(s) ==> (s as nat) < count0 && !self.allocator().live()[s as int]
                        && (i < deletes@.len() ==> s < deletes@[i as int].index) && dom0.contains(s),
                forall|s: usize| #[trigger]
                    pending.contains(s) <==> exists|a: int| 0 <= a < i && deletes@[a].index == s,
                self.packed_contents() == c0.remove_keys(pending),
                g0.len() == count0,
                forall|k: int|
                    0 <= k < count0 ==> #[trigger] self.allocator().gens()[k] == if pending.contains(
                        k as usize,
                    ) {
                        next_generation(g0[k])
                    } else {
                        g0[k]
                    },
                !had_free ==> forall|s: int|
                    0 <= s < count0 && !#[trigger] self.allocator().live()[s] ==> pending.contains(
                        s as usize,
                    ),
            decreases deletes@.len() - i,
        {
            let e = deletes[i];
            let ghost pre = self.allocator();
            let ghost pre_c = self.packed_contents();
            self.retire(e);
            proof {
                pre.lemma_wf_lengths();
                self.alloc.lemma_wf_lengths();
                assert(pre.slot_count() == count0);
                assert(!pending.contains(e.index));
                assert(pre_c.contains_key(e.index));
                assert(c0.contains_key(e.index));
                assert forall|a: int|
                    i + 1 <= a < deletes@.len() implies holds(self.packed_contents(), #[trigger] deletes@[a]) by {
                    assert(deletes@[i as int].index < deletes@[a].index);
                }
                assert forall|s: usize| #[trigger]
                    pending.insert(e.index).contains(s) implies (s as nat) < count0 && !self.allocator().live()[s as int]
                        && (i + 1 < deletes@.len() ==> s < deletes@[i + 1].index) && dom0.contains(s) by {
                    assert(Allocator::freed(pre, self.allocator(), e));
                    if s != e.index {
                        assert(pending.contains(s));
                        assert(!pre.live()[s as int]);
                        assert(self.allocator().live()[s as int] == pre.live()[s as int]);
                        assert(s < deletes@[i as int].index);
                    } else {
                        assert(pre_c.contains_key(e.index));
                        assert(self.packed.view().contains_key(e.index) == false);
                        assert((e.index as nat) < pre.slot_count());
                        assert(!self.allocator().live()[s as int]);
                        assert(c0.remove_keys(pending).contains_key(e.index));
                        assert(dom0.contains(s));
                    }
                    if i + 1 < deletes@.len() {
                        assert(deletes@[i as int].index < deletes@[i + 1].index);
                    }
                }
                assert forall|s: usize| #[trigger]
                    pending.insert(e.index).contains(s) <==> exists|a: int| 0 <= a < i + 1 && deletes@[a].index == s by {
                    if s == e.index {
                        assert(deletes@[i as int].index == s);
                    } else if exists|a: int| 0 <= a < i + 1 && deletes@[a].index == s {
                        let a = choose|a: int| 0 <= a < i + 1 && deletes@[a].index == s;
                        assert(a != i);
                    }
                }
                assert(self.packed_contents() =~= c0.remove_keys(pending.insert(e.index)));
                assert forall|k: int| 0 <= k < count0 implies #[trigger] self.allocator().gens()[k] == if pending.insert(e.index).contains(
                        k as usize,
                    ) {
                        next_generation(g0[k])
                    } else {
                        g0[k]
                    } by {
                    assert(Allocator::freed(pre, self.allocator(), e));
                    if k != e.index {
                        assert(self.allocator().gens()[k] == pre.gens()[k]);
                        assert(pending.insert(e.index).contains(k as usize) == pending.contains(k as usize));
                    } else {
                        assert(pre.gens()[k] == g0[k]);
                    }
                }
                if !had_free {
                    assert forall|s: int|
                        0 <= s < count0 && !#[trigger] self.allocator().live()[s] implies pending.insert(e.index).contains(
                            s as usize,
                        ) by {
                        if s != e.index {
                            assert(!pre.live()[s]);
                        }
                    }
                }
                pending = pending.insert(e.index);
            }
            i = i + 1;
        }
        proof {
            assert(pending =~= wset);
        }
        let n = deletes.len();
        let ghost mut left: Set<usize> = pending;
        let mut i: usize = 0;
        while i < n
            invariant
                self.wf(),
                i <= n,
                count0 < usize::MAX,
                dom0 == c0.dom(),
                self.allocator().slot_count() == count0,
                self.stored() == stored0 - n + i,
                left.finite(),
                left.len() >= n - i,
                !had_free ==> left.len() == n - i,
                forall|s: usize| #[trigger]
                    left.contains(s) ==> (s as nat) < count0 && !self.allocator().live()[s as int]
                        && dom0.contains(s),
                g0.len() == count0,
                forall|k: int|
                    0 <= k < count0 ==> #[trigger] self.allocator().gens()[k] == if wset.contains(
                        k as usize,
                    ) {
                        next_generation(g0[k])
                    } else {
                        g0[k]
                    },
                forall|k: usize| #[trigger]
                    c0.contains_key(k) && !wset.contains(k) ==> self.packed_contents().contains_key(k)
                        && self.packed_contents()[k] == c0[k],
                !had_free ==> self.packed_contents().dom() == dom0.difference(left),
                !had_free ==> forall|s: int|
                    0 <= s < count0 && !#[trigger] self.allocator().live()[s] ==> left.contains(
                        s as usize,
                    ),
            decreases n - i,
        {
            let ghost pre = self.allocator();
            let ghost pre_c = self.packed_contents();
            proof {
                assert(pre.has_free()) by {
                    if forall|s: usize| !left.contains(s) {
                        assert(left =~= Set::<usize>::empty());
                    }
                    let s = choose|s: usize| left.contains(s);
                    assert(!pre.live()[s as int]);
                }
            }
            let e = self.store_new();
            proof {
                pre.lemma_wf_lengths();
                self.alloc.lemma_wf_lengths();
                assert forall|s: usize| #[trigger]
                    left.remove(e.index).contains(s) implies (s as nat) < count0 && !self.allocator().live()[s as int]
                        && dom0.contains(s) by {
                    assert(left.contains(s));
                }
                assert forall|k: int| 0 <= k < count0 implies #[trigger] self.allocator().gens()[k] == if wset.contains(
                        k as usize,
                    ) {
                        next_generation(g0[k])
                    } else {
                        g0[k]
                    } by {
                    assert(self.allocator().gens()[k] == pre.gens()[k]);
                }
                assert forall|k: usize| #[trigger]
                    c0.contains_key(k) && !wset.contains(k) implies self.packed_contents().contains_key(k)
                        && self.packed_contents()[k] == c0[k] by {
                    assert(pre_c.contains_key(k));
                }
                if !had_free {
                    assert(!pre.live()[e.index as int]);
                    assert(left.contains(e.index));
                    assert(self.packed_contents().dom() =~= dom0.difference(left.remove(e.index)));
                    assert forall|s: int|
                        0 <= s < count0 && !#[trigger] self.allocator().live()[s] implies left.remove(e.index).contains(
                            s as usize,
                        ) by {
                        assert(!pre.live()[s]);
                    }
                }
                left = left.remove(e.index);
            }
            i = i + 1;
        }
        proof {
            if !had_free {
                assert(left =~= Set::<usize>::empty()) by {
                    if exists|s: usize| left.contains(s) {
                        let s = choose|s: usize| left.contains(s);
                        assert(left.remove(s).len() == left.len() - 1);
                    }
                }
                assert(self.packed_contents().dom() =~= dom0);
                self.alloc.lemma_wf_lengths();
                assert(!self.allocator().has_free());
            }
        }
        n
    }

    /// `iterations` churn windows at random places in `[0, capacity)`, each
    /// at most `max(1, capacity / 5000)` slots long.
    pub fn churn_pass(&mut self, capacity: usize, iterations: usize, rng: &mut Entropy)
        requires
            old(self).wf(),
            old(self).allocator().slot_count() < usize::MAX,
        ensures
            final(self).wf(),
            final(self).storages_wf(),
            final(self).stored() == old(self).stored(),
            final(self).allocator().slot_count() == old(self).allocator().slot_count(),
            exists|ws: Seq<(usize, usize)>|
                ws.len() == (if capacity > 0 {
                    iterations as int
                } else {
                    0
                }) && churn_windows_fit(ws, capacity) && #[trigger] churned_seq(
                    *old(self),
                    *final(self),
                    ws,
                ),
    {
        let ghost mut ws: Seq<(usize, usize)> = Seq::empty();
        let mut t: usize = 0;
        while t < iterations
            invariant
                self.wf(),
                self.stored() == old(self).stored(),
                self.allocator().slot_count() == old(self).allocator().slot_count(),
                old(self).allocator().slot_count() < usize::MAX,
                t <= iterations,
                ws.len() == (if capacity > 0 {
                    t as int
                } else {
                    0
                }),
                churn_windows_fit(ws, capacity),
                churned_seq(*old(self), *self, ws),
            decreases iterations - t,
        {
            if capacity > 0 {
                let q = capacity / 5000;
                let max_len = if q > 1 {
                    q
                } else {
                    1
                };
                let len = rng.in_range(1, max_len);
                let offset = rng.in_range(0, capacity - len);
                let ghost mid = *self;
                self.churn_window(offset, len);
                proof {
                    let ws2 = ws.push((offset, len));
                    assert(ws2.drop_last() == ws);
                    assert(churned(mid, *self, ws2.last().0, ws2.last().1));
                    assert(churned_seq(*old(self), *self, ws2));
                    assert(churn_windows_fit(ws2, capacity)) by {
                        assert forall|k: int| 0 <= k < ws2.len() implies 1 <= (#[trigger] ws2[k]).1
                            <= vstd::math::max(1, (capacity / 5000) as int) && ws2[k].0 + ws2[k].1 <= capacity by {
                            if k < ws.len() {
                                assert(ws2[k] == ws[k]);
                            }
                        }
                    }
                    ws = ws2;
                }
            }
            t = t + 1;
        }
        proof {
            assert(churned_seq(*old(self), *self, ws));
        }
    }

    /// One benchmark step before measuring: fill to `percent`, then churn.
    pub fn prepare(capacity: usize, percent: usize, iterations: usize, rng: &mut Entropy) -> (r:
        World)
        requires
            percent <= 100,
            capacity <= usize::MAX / 100,
        ensures
            r.wf(),
            r.storages_wf(),
            r.stored() == capacity * percent / 100,
            r.allocator().slot_count() == capacity,
    {
        let mut w = World::fill(capacity, percent, rng);
        w.churn_pass(capacity, iterations, rng);
        w
    }

    pub fn is_alive(&self, e: Entity) -> (r: bool)
        requires
            self.storages_wf(),
        ensures
            r == self.allocator().spec_is_alive(e),
    {
        self.alloc.is_alive(e)
    }

    pub fn slot_count(&self) -> (r: usize)
        requires
            self.storages_wf(),
        ensures
            r == self.allocator().slot_count(),
    {
        self.alloc.len()
    }

    pub fn packed_sum(&self) -> (r: u128)
        requires
            self.storages_wf(),
        ensures
            r == ordinal_sum(self.packed_contents()),
    {
        self.packed.ordinal_sum()
    }

    pub fn dense_sum(&self) -> (r: u128)
        requires
            self.storages_wf(),
        ensures
            r == ordinal_sum(self.dense_contents()),
    {
        self.dense.ordinal_sum()
    }

    pub fn ordered_sum(&self) -> (r: u128)
        requires
            self.storages_wf(),
        ensures
            r == ordinal_sum(self.ordered_contents()),
    {
        self.ordered.ordinal_sum()
    }

    pub fn hashed_sum(&self) -> (r: u128)
        requires
            self.storages_wf(),
        ensures
            r == ordinal_sum(self.hashed_contents()),
    {
        self.hashed.ordinal_sum()
    }

    pub fn presence_count(&self) -> (r: usize)
        requires
            self.storages_wf(),
        ensures
            r == entry_count(self.presence_contents().dom()),
    {
        self.presence.count()
    }

    pub fn packed_entries(&self) -> (r: Vec<(Entity, Payload)>)
        requires
            self.storages_wf(),
        ensures
            lists(self.packed_contents(), r@),
    {
        self.packed.entries()
    }

    pub fn dense_entries(&self) -> (r: Vec<(Entity, Payload)>)
        requires
            self.storages_wf(),
        ensures
            lists(self.dense_contents(), r@),
    {
        self.dense.entries()
    }

    pub fn ordered_entries(&self) -> (r: Vec<(Entity, Payload)>)
        requires
            self.storages_wf(),
        ensures
            lists(self.ordered_contents(), r@),
    {
        self.ordered.entries()
    }

    pub fn hashed_entries(&self) -> (r: Vec<(Entity, Payload)>)
        requires
            self.storages_wf(),
        ensures
            lists(self.hashed_contents(), r@),
    {
        self.hashed.entries()
    }

    pub fn present_entities(&self) -> (r: Vec<Entity>)
        requires
            self.storages_wf(),
        ensures
            forall|i: int| 0 <= i < r@.len() ==> marks(self.presence_contents(), #[trigger] r@[i]),
            forall|i: int, j: int| 0 <= i < j < r@.len() ==> r@[i].index < r@[j].index,
            forall|k: usize| #[trigger]
                self.presence_contents().contains_key(k) ==> exists|i: int|
                    0 <= i < r@.len() && r@[i].index == k,
    {
        self.presence.entities()
    }

    /// One pass over each storage.
    pub fn totals(&self) -> (r: IterationTotals)
        requires
            self.storages_wf(),
        ensures
            r.packed == ordinal_sum(self.packed_contents()),
            r.dense == ordinal_sum(self.dense_contents()),
            r.ordered == ordinal_sum(self.ordered_contents()),
            r.hashed == ordinal_sum(self.hashed_contents()),
            r.present == entry_count(self.presence_contents().dom()),
    {
        IterationTotals {
            packed: self.packed_sum(),
            dense: self.dense_sum(),
            ordered: self.ordered_sum(),
            hashed: self.hashed_sum(),
            present: self.presence_count(),
        }
    }

    /// Stores a payload in the hashed storage alone, putting it out of step
    /// with the others (for exercising the cross-check).
    pub fn inject_hashed_entry(&mut self, e: Entity, p: Payload)
        requires
            old(self).storages_wf(),
        ensures
            final(self).storages_wf(),
            !old(self).hashed_contents().contains_key(e.index) ==> final(self).hashed_contents()
                == old(self).hashed_contents().insert(e.index, (e.generation, p)),
            final(self).packed_contents() == old(self).packed_contents(),
            final(self).dense_contents() == old(self).dense_contents(),
            final(self).ordered_contents() == old(self).ordered_contents(),
            final(self).presence_contents() == old(self).presence_contents(),
    {
        let _ = self.hashed.insert(e, p);
    }
}

/// The four ordinal sums are equal.
pub open spec fn totals_agree(t: IterationTotals) -> bool {
    t.packed == t.dense && t.packed == t.ordered && t.packed == t.hashed
}

/// The cross-check of a step: the four ordinal sums must be equal.
pub fn check_totals(percent: usize, t: IterationTotals) -> (r: Result<(), BenchError>)
    ensures
        r is Ok <==> totals_agree(t),
        r is Err ==> r == Err::<(), BenchError>(
            (BenchError::CrossBackendMismatch { percent, totals: t }),
        ),
{
    if t.packed == t.dense && t.packed == t.ordered && t.packed == t.hashed {
        Ok(())
    } else {
        Err(BenchError::CrossBackendMismatch { percent, totals: t })
    }
}

/// In a well-formed world all five storages hold the same entities, and the
/// four value-bearing ones the same payloads.
pub proof fn lemma_storages_agree(w: World)
    requires
        w.wf(),
    ensures
        w.dense_contents() == w.packed_contents(),
        w.ordered_contents() == w.packed_contents(),
        w.hashed_contents() == w.packed_contents(),
        w.presence_contents().dom() == w.packed_contents().dom(),
        forall|k: usize| #[trigger]
            w.presence_contents().contains_key(k) ==> w.presence_contents()[k]
                == w.packed_contents()[k].0,
{
    assert(w.presence_contents().dom() =~= w.packed_contents().dom());
}

/// In a well-formed world the four ordinal sums are equal and the presence
/// count is the number of stored payloads, so the cross-check passes.
pub proof fn lemma_totals_agree(w: World, t: IterationTotals)
    requires
        w.wf(),
        t.packed == ordinal_sum(w.packed_contents()),
        t.dense == ordinal_sum(w.dense_contents()),
        t.ordered == ordinal_sum(w.ordered_contents()),
        t.hashed == ordinal_sum(w.hashed_contents()),
        t.present == entry_count(w.presence_contents().dom()),
    ensures
        totals_agree(t),
        t.present == w.stored(),
{
    lemma_storages_agree(w);
}

} // verus!
