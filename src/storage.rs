//! Five ways of associating a payload with a live entity. All share one
//! model: a map from slot index to the entity's generation and its payload
//! (the presence-only storage keeps the generation alone).
use vstd::prelude::*;
use std::collections::BTreeMap;
use std::collections::HashMap;
use crate::entity::Entity;
use crate::total::{lemma_total_bound, lemma_total_insert, lemma_total_visit, ones, slot_bound, total, total_below};

verus! {

broadcast use {vstd::std_specs::btree::group_btree_axioms, vstd::std_specs::hash::group_hash_axioms};

/// The per-entity value: an ordinal for cross-checks and a filler block that
/// makes every move copy a few words.
#[derive(Clone, Copy, Debug, PartialEq, Eq, Structural)]
pub struct Payload {
    pub ordinal: u64,
    pub filler_a: u64,
    pub filler_b: u64,
    pub filler_c: u64,
}

/// The payload stored for a fresh entity: its ordinal and a zeroed filler.
pub open spec fn fresh_payload(ordinal: u64) -> Payload {
    Payload { ordinal, filler_a: 0, filler_b: 0, filler_c: 0 }
}

impl Payload {
    pub fn with_ordinal(ordinal: u64) -> (r: Payload)
        ensures
            r == fresh_payload(ordinal),
    {
        Payload { ordinal, filler_a: 0, filler_b: 0, filler_c: 0 }
    }
}

#[derive(Clone, Copy, Debug, PartialEq, Eq, Structural)]
pub enum StorageError {
    /// The entity's slot already holds a payload.
    AlreadyPresent,
}

/// What a value-bearing storage holds: slot index to (generation, payload).
pub type Contents = Map<usize, (u64, Payload)>;

/// `m` holds a payload for exactly this entity (slot and generation).
pub open spec fn holds(m: Contents, e: Entity) -> bool {
    m.contains_key(e.index) && m[e.index].0 == e.generation
}

pub open spec fn ordinals(m: Contents) -> Map<usize, int> {
    m.map_values(|v: (u64, Payload)| v.1.ordinal as int)
}

/// Sum of the stored ordinals.
pub open spec fn ordinal_sum(m: Contents) -> int {
    total(ordinals(m))
}

pub proof fn lemma_ordinal_sum_insert(m: Contents, k: usize, v: (u64, Payload))
    requires
        !m.contains_key(k),
    ensures
        ordinal_sum(m.insert(k, v)) == ordinal_sum(m) + v.1.ordinal,
{
    lemma_total_insert(ordinals(m), k, v.1.ordinal as int, slot_bound());
    assert(ordinals(m.insert(k, v)) =~= ordinals(m).insert(k, v.1.ordinal as int));
}

/// Number of slots with an entry.
pub open spec fn entry_count(s: Set<usize>) -> int {
    total(ones(s))
}

/// Effect of `insert(e, p)` returning `r`.
pub open spec fn inserted(
    pre: Contents,
    post: Contents,
    e: Entity,
    p: Payload,
    r: Result<(), StorageError>,
) -> bool {
    &&& r is Err <==> pre.contains_key(e.index)
    &&& r is Ok ==> post == pre.insert(e.index, (e.generation, p))
    &&& r is Err ==> post == pre
}

/// Effect of `remove(e)` returning `r`.
pub open spec fn removed(pre: Contents, post: Contents, e: Entity, r: Option<Payload>) -> bool {
    &&& r is Some <==> holds(pre, e)
    &&& r matches Some(p) ==> post == pre.remove(e.index) && p == pre[e.index].1
    &&& r is None ==> post == pre
}

/// Effect of `get(e)` returning `r`.
pub open spec fn got(m: Contents, e: Entity, r: Option<Payload>) -> bool {
    &&& r is Some <==> holds(m, e)
    &&& r matches Some(p) ==> p == m[e.index].1
}

/// `m` holds payload `x.1` for entity `x.0`.
pub open spec fn stores_entry(m: Contents, x: (Entity, Payload)) -> bool {
    m.contains_key(x.0.index) && m[x.0.index] == (x.0.generation, x.1)
}

/// `s` lists every entry of `m` exactly once, as (entity, payload).
pub open spec fn lists(m: Contents, s: Seq<(Entity, Payload)>) -> bool {
    &&& forall|i: int| 0 <= i < s.len() ==> stores_entry(m, #[trigger] s[i])
    &&& forall|i: int, j: int| 0 <= i < j < s.len() ==> s[i].0.index != s[j].0.index
    &&& forall|k: usize| #[trigger] m.contains_key(k) ==> exists|i: int| 0 <= i < s.len() && s[i].0.index == k
}

pub proof fn lemma_acc_step(acc: int, i: int, x: int)
    requires
        0 <= acc <= i * 0xffff_ffff_ffff_ffff,
        0 <= x <= 0xffff_ffff_ffff_ffff,
        0 <= i < 0x1_0000_0000_0000_0000,
    ensures
        acc + x <= (i + 1) * 0xffff_ffff_ffff_ffff,
        acc + x <= u128::MAX,
{
    assert(acc + x <= (i + 1) * 0xffff_ffff_ffff_ffff) by (nonlinear_arith)
        requires
            acc <= i * 0xffff_ffff_ffff_ffff,
            x <= 0xffff_ffff_ffff_ffff,
    ;
    assert((i + 1) * 0xffff_ffff_ffff_ffff <= 0x1_0000_0000_0000_0000 * 0xffff_ffff_ffff_ffff)
        by (nonlinear_arith)
        requires
            i + 1 <= 0x1_0000_0000_0000_0000,
    ;
}

// ---------------------------------------------------------------------------
/// Indexed directly by slot; iteration walks every slot, holes included.
pub struct PackedStorage {
    slots: Vec<Option<(u64, Payload)>>,
}

impl PackedStorage {
    pub closed spec fn view(&self) -> Contents {
        Map::new(
            |k: usize| (k as int) < self.slots@.len() && self.slots@[k as int] is Some,
            |k: usize| self.slots@[k as int]->Some_0,
        )
    }

    pub fn new() -> (r: Self)
        ensures
            r.view() == Contents::empty(),
    {
        let r = PackedStorage { slots: Vec::new() };
        assert(r.view() =~= Contents::empty());
        r
    }

    pub fn insert(&mut self, e: Entity, p: Payload) -> (r: Result<(), StorageError>)
        requires
            e.index < usize::MAX,
        ensures
            inserted(old(self).view(), final(self).view(), e, p, r),
    {
        if e.index < self.slots.len() && self.slots[e.index].is_some() {
            return Err(StorageError::AlreadyPresent);
        }
        let ghost pre = self.view();
        while self.slots.len() <= e.index
            invariant
                self.view() == pre,
                e.index < usize::MAX,
            decreases e.index + 1 - self.slots.len(),
        {
            self.slots.push(None);
            assert(self.view() =~= pre);
        }
        self.slots.set(e.index, Some((e.generation, p)));
        assert(self.view() =~= pre.insert(e.index, (e.generation, p)));
        Ok(())
    }

    pub fn remove(&mut self, e: Entity) -> (r: Option<Payload>)
        ensures
            removed(old(self).view(), final(self).view(), e, r),
    {
        if e.index < self.slots.len() {
            if let Some((g, p)) = self.slots[e.index] {
                if g == e.generation {
                    let ghost pre = self.view();
                    self.slots.set(e.index, None);
                    assert(self.view() =~= pre.remove(e.index));
                    return Some(p);
                }
            }
        }
        None
    }

    pub fn get(&self, e: Entity) -> (r: Option<Payload>)
        ensures
            got(self.view(), e, r),
    {
        if e.index < self.slots.len() {
            if let Some((g, p)) = self.slots[e.index] {
                if g == e.generation {
                    return Some(p);
                }
            }
        }
        None
    }

    pub fn contains(&self, e: Entity) -> (r: bool)
        ensures
            r == holds(self.view(), e),
    {
        self.get(e).is_some()
    }

    /// Every stored entity with its payload, in slot order.
    pub fn entries(&self) -> (r: Vec<(Entity, Payload)>)
        ensures
            lists(self.view(), r@),
    {
        let ghost m = self.view();
        let mut out: Vec<(Entity, Payload)> = Vec::new();
        let mut i: usize = 0;
        while i < self.slots.len()
            invariant
                i <= self.slots@.len(),
                m == self.view(),
                forall|a: int|
                    0 <= a < out@.len() ==> stores_entry(m, #[trigger] out@[a]) && out@[a].0.index < i,
                forall|a: int, c: int| 0 <= a < c < out@.len() ==> out@[a].0.index < out@[c].0.index,
                forall|k: usize|
                    #[trigger] m.contains_key(k) && k < i ==> exists|a: int| 0 <= a < out@.len() && out@[a].0.index == k,
            decreases self.slots@.len() - i,
        {
            let ghost prev = out@;
            if let Some((g, p)) = self.slots[i] {
                out.push((Entity { index: i, generation: g }, p));
                proof {
                    assert(m.contains_key(i));
                    assert(out@ == prev.push((Entity { index: i, generation: g }, p)));
                    assert forall|a: int| 0 <= a < out@.len() implies stores_entry(m, #[trigger] out@[a])
                        && out@[a].0.index < i + 1 by {
                        if a < prev.len() {
                            assert(out@[a] == prev[a]);
                        }
                    }
                    assert forall|a: int, c: int| 0 <= a < c < out@.len() implies out@[a].0.index
                        < out@[c].0.index by {
                        assert(out@[a] == prev[a]);
                        if c < prev.len() {
                            assert(out@[c] == prev[c]);
                        } else {
                            assert(stores_entry(m, prev[a]));
                        }
                    }
                    assert forall|k: usize|
                        #[trigger] m.contains_key(k) && k < i + 1 implies exists|a: int|
                            0 <= a < out@.len() && out@[a].0.index == k by {
                        if k < i {
                            let a = choose|a: int| 0 <= a < prev.len() && prev[a].0.index == k;
                            assert(out@[a] == prev[a]);
                        } else {
                            assert(out@[prev.len() as int].0.index == k);
                        }
                    }
                }
            } else {
                proof {
                    assert(!m.contains_key(i));
                }
            }
            i = i + 1;
        }
        proof {
            assert forall|k: usize| #[trigger] m.contains_key(k) implies exists|a: int|
                0 <= a < out@.len() && out@[a].0.index == k by {
                assert(k < self.slots@.len());
            }
            assert forall|a: int, c: int| 0 <= a < c < out@.len() implies out@[a].0.index
                != out@[c].0.index by {
                assert(out@[a].0.index < out@[c].0.index);
            }
        }
        out
    }

    /// One pass over all slots, summing the ordinals found.
    pub fn ordinal_sum(&self) -> (r: u128)
        ensures
            r == ordinal_sum(self.view()),
    {
        let ghost w = ordinals(self.view());
        let mut acc: u128 = 0;
        let mut i: usize = 0;
        while i < self.slots.len()
            invariant
                i <= self.slots@.len(),
                w == ordinals(self.view()),
                acc == total_below(w, i as nat),
                acc <= i * 0xffff_ffff_ffff_ffff,
            decreases self.slots@.len() - i,
        {
            proof {
                assert(w.contains_key(i) == (self.slots@[i as int] is Some));
            }
            if let Some((_, p)) = &self.slots[i] {
                proof {
                    lemma_acc_step(acc as int, i as int, p.ordinal as int);
                }
                acc = acc + p.ordinal as u128;
            }
            i = i + 1;
        }
        proof {
            lemma_total_bound(w, self.slots@.len(), slot_bound());
        }
        acc
    }
}

/// `m` marks entity `e` present.
pub open spec fn marks(m: Map<usize, u64>, e: Entity) -> bool {
    m.contains_key(e.index) && m[e.index] == e.generation
}

// ---------------------------------------------------------------------------
/// Membership only: a generation per slot, no payload.
pub struct PresenceStorage {
    slots: Vec<Option<u64>>,
}

impl PresenceStorage {
    pub closed spec fn view(&self) -> Map<usize, u64> {
        Map::new(
            |k: usize| (k as int) < self.slots@.len() && self.slots@[k as int] is Some,
            |k: usize| self.slots@[k as int]->Some_0,
        )
    }

    pub fn new() -> (r: Self)
        ensures
            r.view() == Map::<usize, u64>::empty(),
    {
        let r = PresenceStorage { slots: Vec::new() };
        assert(r.view() =~= Map::<usize, u64>::empty());
        r
    }

    pub fn insert(&mut self, e: Entity) -> (r: Result<(), StorageError>)
        requires
            e.index < usize::MAX,
        ensures
            r is Err <==> old(self).view().contains_key(e.index),
            r is Ok ==> final(self).view() == old(self).view().insert(e.index, e.generation),
            r is Err ==> final(self).view() == old(self).view(),
    {
        if e.index < self.slots.len() && self.slots[e.index].is_some() {
            return Err(StorageError::AlreadyPresent);
        }
        let ghost pre = self.view();
        while self.slots.len() <= e.index
            invariant
                self.view() == pre,
                e.index < usize::MAX,
            decreases e.index + 1 - self.slots.len(),
        {
            self.slots.push(None);
            assert(self.view() =~= pre);
        }
        self.slots.set(e.index, Some(e.generation));
        assert(self.view() =~= pre.insert(e.index, e.generation));
        Ok(())
    }

    pub fn remove(&mut self, e: Entity) -> (r: bool)
        ensures
            r == (old(self).view().contains_key(e.index) && old(self).view()[e.index]
                == e.generation),
            r ==> final(self).view() == old(self).view().remove(e.index),
            !r ==> final(self).view() == old(self).view(),
    {
        if e.index < self.slots.len() {
            if let Some(g) = self.slots[e.index] {
                if g == e.generation {
                    let ghost pre = self.view();
                    self.slots.set(e.index, None);
                    assert(self.view() =~= pre.remove(e.index));
                    return true;
                }
            }
        }
        false
    }

    pub fn contains(&self, e: Entity) -> (r: bool)
        ensures
            r == (self.view().contains_key(e.index) && self.view()[e.index] == e.generation),
    {
        if e.index < self.slots.len() {
            if let Some(g) = self.slots[e.index] {
                return g == e.generation;
            }
        }
        false
    }

    /// Every present entity, in slot order.
    pub fn entities(&self) -> (r: Vec<Entity>)
        ensures
            forall|i: int| 0 <= i < r@.len() ==> marks(self.view(), #[trigger] r@[i]),
            forall|i: int, j: int| 0 <= i < j < r@.len() ==> r@[i].index < r@[j].index,
            forall|k: usize| #[trigger]
                self.view().contains_key(k) ==> exists|i: int| 0 <= i < r@.len() && r@[i].index == k,
    {
        let ghost m = self.view();
        let mut out: Vec<Entity> = Vec::new();
        let mut i: usize = 0;
        while i < self.slots.len()
            invariant
                i <= self.slots@.len(),
                m == self.view(),
                forall|a: int| 0 <= a < out@.len() ==> marks(m, #[trigger] out@[a]) && out@[a].index < i,
                forall|a: int, c: int| 0 <= a < c < out@.len() ==> out@[a].index < out@[c].index,
                forall|k: usize|
                    #[trigger] m.contains_key(k) && k < i ==> exists|a: int| 0 <= a < out@.len() && out@[a].index == k,
            decreases self.slots@.len() - i,
        {
            let ghost prev = out@;
            if let Some(g) = self.slots[i] {
                let e = Entity { index: i, generation: g };
                out.push(e);
                proof {
                    assert(m.contains_key(i));
                    assert(out@ == prev.push(e));
                    assert forall|a: int| 0 <= a < out@.len() implies marks(m, #[trigger] out@[a])
                        && out@[a].index < i + 1 by {
                        if a < prev.len() {
                            assert(out@[a] == prev[a]);
                        }
                    }
                    assert forall|a: int, c: int| 0 <= a < c < out@.len() implies out@[a].index
                        < out@[c].index by {
                        assert(out@[a] == prev[a]);
                        assert(marks(m, prev[a]));
                        if c < prev.len() {
                            assert(out@[c] == prev[c]);
                        }
                    }
                    assert forall|k: usize|
                        #[trigger] m.contains_key(k) && k < i + 1 implies exists|a: int|
                            0 <= a < out@.len() && out@[a].index == k by {
                        if k < i {
                            let a = choose|a: int| 0 <= a < prev.len() && prev[a].index == k;
                            assert(out@[a] == prev[a]);
                        } else {
                            assert(out@[prev.len() as int].index == k);
                        }
                    }
                }
            } else {
                proof {
                    assert(!m.contains_key(i));
                }
            }
            i = i + 1;
        }
        proof {
            assert forall|k: usize| #[trigger] m.contains_key(k) implies exists|a: int|
                0 <= a < out@.len() && out@[a].index == k by {
                assert(k < self.slots@.len());
            }
        }
        out
    }

    /// One pass over all slots, counting the present ones.
    pub fn count(&self) -> (r: usize)
        ensures
            r == entry_count(self.view().dom()),
    {
        let ghost w = ones(self.view().dom());
        let mut n: usize = 0;
        let mut i: usize = 0;
        while i < self.slots.len()
            invariant
                i <= self.slots@.len(),
                w == ones(self.view().dom()),
                n == total_below(w, i as nat),
                n <= i,
            decreases self.slots@.len() - i,
        {
            proof {
                assert(w.contains_key(i) == (self.slots@[i as int] is Some));
            }
            if self.slots[i].is_some() {
                n = n + 1;
            }
            i = i + 1;
        }
        proof {
            lemma_total_bound(w, self.slots@.len(), slot_bound());
        }
        n
    }
}

// ---------------------------------------------------------------------------
/// A pass over a map's entries meets each key once when it has as many
/// entries as the map and meets every entry of it.
pub proof fn lemma_entry_keys_distinct(m: Contents, s: Seq<(&usize, &(u64, Payload))>)
    requires
        s.len() == m.dom().len(),
        forall|j: int| 0 <= j < s.len() ==> #[trigger] m.contains_key(*s[j].0),
        forall|k: usize| #[trigger] m.contains_key(k) ==> s.contains((&k, &m[k])),
    ensures
        forall|a: int, b: int| 0 <= a < s.len() && 0 <= b < s.len() && a != b ==> *s[a].0 != *s[b].0,
{
    let keys = s.map_values(|p: (&usize, &(u64, Payload))| *p.0);
    assert(keys.to_set() =~= m.dom()) by {
        assert forall|k: usize| m.contains_key(k) implies keys.to_set().contains(k) by {
            let j = choose|j: int| 0 <= j < s.len() && s[j] == (&k, &m[k]);
            assert(keys[j] == k);
        }
        assert forall|k: usize| keys.to_set().contains(k) implies m.contains_key(k) by {
            let j = choose|j: int| 0 <= j < keys.len() && keys[j] == k;
            assert(m.contains_key(*s[j].0));
        }
    }
    keys.lemma_no_dup_set_cardinality();
    assert forall|a: int, b: int| 0 <= a < s.len() && 0 <= b < s.len() && a != b implies *s[a].0
        != *s[b].0 by {
        assert(keys[a] == *s[a].0);
        assert(keys[b] == *s[b].0);
    }
}

/// The keys met among the first `n` entries of a pass.
pub open spec fn keys_met(s: Seq<(&usize, &(u64, Payload))>, n: int) -> Set<usize> {
    Set::new(|k: usize| exists|j: int| 0 <= j < n && *s[j].0 == k)
}

/// Ordered map keyed by slot; iteration in key order.
pub struct OrderedStorage {
    map: BTreeMap<usize, (u64, Payload)>,
}

impl OrderedStorage {
    pub closed spec fn view(&self) -> Contents {
        self.map@
    }

    pub fn new() -> (r: Self)
        ensures
            r.view() == Contents::empty(),
    {
        OrderedStorage { map: BTreeMap::new() }
    }

    pub fn insert(&mut self, e: Entity, p: Payload) -> (r: Result<(), StorageError>)
        ensures
            inserted(old(self).view(), final(self).view(), e, p, r),
    {
        if self.map.contains_key(&e.index) {
            Err(StorageError::AlreadyPresent)
        } else {
            self.map.insert(e.index, (e.generation, p));
            Ok(())
        }
    }

    pub fn get(&self, e: Entity) -> (r: Option<Payload>)
        ensures
            got(self.view(), e, r),
    {
        match self.map.get(&e.index) {
            Some(v) => {
                if v.0 == e.generation {
                    Some(v.1)
                } else {
                    None
                }
            },
            None => None,
        }
    }

    pub fn remove(&mut self, e: Entity) -> (r: Option<Payload>)
        ensures
            removed(old(self).view(), final(self).view(), e, r),
    {
        let found = self.get(e);
        if found.is_some() {
            self.map.remove(&e.index);
        }
        found
    }

    pub fn contains(&self, e: Entity) -> (r: bool)
        ensures
            r == holds(self.view(), e),
    {
        self.get(e).is_some()
    }

    /// Every stored entity with its payload, in the map's iteration order.
    pub fn entries(&self) -> (r: Vec<(Entity, Payload)>)
        ensures
            lists(self.view(), r@),
    {
        let ghost m = self.map@;
        let mut out: Vec<(Entity, Payload)> = Vec::new();
        for kv in it: self.map.iter()
            invariant
                m == self.map@,
                it.seq().len() == m.dom().len(),
                forall|j: int| 0 <= j < it.seq().len() ==> #[trigger] m.contains_key(*it.seq()[j].0)
                    && m[*it.seq()[j].0] == *it.seq()[j].1,
                forall|k: usize| #[trigger] m.contains_key(k) ==> it.seq().contains((&k, &m[k])),
                out@.len() == it.index(),
                forall|a: int| 0 <= a < out@.len() ==> (#[trigger] out@[a]).0.index == *it.seq()[a].0,
                forall|a: int| 0 <= a < out@.len() ==> stores_entry(m, #[trigger] out@[a]),
                forall|a: int, c: int| 0 <= a < c < out@.len() ==> out@[a].0.index != out@[c].0.index,
                forall|k: usize| #[trigger] m.contains_key(k) ==> (exists|a: int| 0 <= a < out@.len() && out@[a].0.index == k)
                    || exists|j: int| it.index() <= j < it.seq().len() && *it.seq()[j].0 == k,
        {
            let ghost prev = out@;
            let ghost i = it.index() as int;
            proof {
                lemma_entry_keys_distinct(m, it.seq());
            }
            let x = (Entity { index: *kv.0, generation: kv.1.0 }, kv.1.1);
            out.push(x);
            proof {
                assert(out@ == prev.push(x));
                assert(x.0.index == *it.seq()[i].0);
                assert forall|a: int| 0 <= a < out@.len() implies (#[trigger] out@[a]).0.index == *it.seq()[a].0 by {
                    if a < prev.len() {
                        assert(out@[a] == prev[a]);
                    }
                }
                assert forall|a: int| 0 <= a < out@.len() implies stores_entry(m, #[trigger] out@[a]) by {
                    if a < prev.len() {
                        assert(out@[a] == prev[a]);
                    }
                }
                assert forall|a: int, c: int| 0 <= a < c < out@.len() implies out@[a].0.index != out@[c].0.index by {
                    assert(out@[a] == prev[a]);
                    if c < prev.len() {
                        assert(out@[c] == prev[c]);
                    } else {
                        assert(out@[a].0.index == *it.seq()[a].0);
                    }
                }
                assert forall|k: usize| #[trigger] m.contains_key(k) implies (exists|a: int| 0 <= a < out@.len() && out@[a].0.index == k)
                    || exists|j: int| i + 1 <= j < it.seq().len() && *it.seq()[j].0 == k by {
                    if exists|a: int| 0 <= a < prev.len() && prev[a].0.index == k {
                        let a = choose|a: int| 0 <= a < prev.len() && prev[a].0.index == k;
                        assert(out@[a] == prev[a]);
                    } else if k == x.0.index {
                        assert(out@[prev.len() as int].0.index == k);
                    } else {
                        let j = choose|j: int| i <= j < it.seq().len() && *it.seq()[j].0 == k;
                        assert(j != i);
                    }
                }
            }
        }
        out
    }

    /// One pass over the entries in key order, summing the ordinals.
    pub fn ordinal_sum(&self) -> (r: u128)
        ensures
            r == ordinal_sum(self.view()),
    {
        let n = self.map.len();
        let ghost m = self.map@;
        let ghost w = ordinals(m);
        let mut acc: u128 = 0;
        let ghost mut met: Set<usize> = Set::empty();
        proof {
            lemma_total_bound(w.restrict(met), 0, slot_bound());
        }
        for kv in it: self.map.iter()
            invariant
                m == self.map@,
                w == ordinals(m),
                n == m.dom().len(),
                it.seq().len() == n,
                forall|j: int| 0 <= j < it.seq().len() ==> #[trigger] m.contains_key(*it.seq()[j].0)
                    && m[*it.seq()[j].0] == *it.seq()[j].1,
                forall|k: usize| #[trigger] m.contains_key(k) ==> it.seq().contains((&k, &m[k])),
                met == keys_met(it.seq(), it.index() as int),
                forall|k: usize| #[trigger] m.contains_key(k) ==> met.contains(k) || exists|j: int|
                    it.index() <= j < it.seq().len() && *it.seq()[j].0 == k,
                acc == total(w.restrict(met)),
                acc <= it.index() * 0xffff_ffff_ffff_ffff,
        {
            proof {
                lemma_entry_keys_distinct(m, it.seq());
                let i = it.index() as int;
                let k = *it.seq()[i].0;
                let seen = keys_met(it.seq(), i);
                assert(!seen.contains(k));
                lemma_total_visit(w, seen, k);
                assert(keys_met(it.seq(), i + 1) =~= seen.insert(k));
                lemma_acc_step(acc as int, i, kv.1.1.ordinal as int);
                assert(*kv.0 == k);
                met = met.insert(*kv.0);
            }
            acc = acc + kv.1.1.ordinal as u128;
        }
        proof {
            assert(met =~= m.dom()) by {
                assert forall|k: usize| m.contains_key(k) implies met.contains(k) by {}
                assert forall|k: usize| met.contains(k) implies m.contains_key(k) by {}
            }
            assert(w.restrict(met) =~= w);
        }
        acc
    }
}

/// Hash map keyed by slot; iteration in the map's own order.
pub struct HashedStorage {
    map: HashMap<usize, (u64, Payload)>,
}

impl HashedStorage {
    pub closed spec fn view(&self) -> Contents {
        self.map@
    }

    pub fn new() -> (r: Self)
        ensures
            r.view() == Contents::empty(),
    {
        HashedStorage { map: HashMap::new() }
    }

    pub fn insert(&mut self, e: Entity, p: Payload) -> (r: Result<(), StorageError>)
        ensures
            inserted(old(self).view(), final(self).view(), e, p, r),
    {
        if self.map.contains_key(&e.index) {
            Err(StorageError::AlreadyPresent)
        } else {
            self.map.insert(e.index, (e.generation, p));
            Ok(())
        }
    }

    pub fn get(&self, e: Entity) -> (r: Option<Payload>)
        ensures
            got(self.view(), e, r),
    {
        match self.map.get(&e.index) {
            Some(v) => {
                if v.0 == e.generation {
                    Some(v.1)
                } else {
                    None
                }
            },
            None => None,
        }
    }

    pub fn remove(&mut self, e: Entity) -> (r: Option<Payload>)
        ensures
            removed(old(self).view(), final(self).view(), e, r),
    {
        let found = self.get(e);
        if found.is_some() {
            self.map.remove(&e.index);
        }
        found
    }

    pub fn contains(&self, e: Entity) -> (r: bool)
        ensures
            r == holds(self.view(), e),
    {
        self.get(e).is_some()
    }

    /// Every stored entity with its payload, in the map's iteration order.
    pub fn entries(&self) -> (r: Vec<(Entity, Payload)>)
        ensures
            lists(self.view(), r@),
    {
        let ghost m = self.map@;
        let mut out: Vec<(Entity, Payload)> = Vec::new();
        for kv in it: self.map.iter()
            invariant
                m == self.map@,
                it.seq().len() == m.dom().len(),
                forall|j: int| 0 <= j < it.seq().len() ==> #[trigger] m.contains_key(*it.seq()[j].0)
                    && m[*it.seq()[j].0] == *it.seq()[j].1,
                forall|k: usize| #[trigger] m.contains_key(k) ==> it.seq().contains((&k, &m[k])),
                out@.len() == it.index(),
                forall|a: int| 0 <= a < out@.len() ==> (#[trigger] out@[a]).0.index == *it.seq()[a].0,
                forall|a: int| 0 <= a < out@.len() ==> stores_entry(m, #[trigger] out@[a]),
                forall|a: int, c: int| 0 <= a < c < out@.len() ==> out@[a].0.index != out@[c].0.index,
                forall|k: usize| #[trigger] m.contains_key(k) ==> (exists|a: int| 0 <= a < out@.len() && out@[a].0.index == k)
                    || exists|j: int| it.index() <= j < it.seq().len() && *it.seq()[j].0 == k,
        {
            let ghost prev = out@;
            let ghost i = it.index() as int;
            proof {
                lemma_entry_keys_distinct(m, it.seq());
            }
            let x = (Entity { index: *kv.0, generation: kv.1.0 }, kv.1.1);
            out.push(x);
            proof {
                assert(out@ == prev.push(x));
                assert(x.0.index == *it.seq()[i].0);
                assert forall|a: int| 0 <= a < out@.len() implies (#[trigger] out@[a]).0.index == *it.seq()[a].0 by {
                    if a < prev.len() {
                        assert(out@[a] == prev[a]);
                    }
                }
                assert forall|a: int| 0 <= a < out@.len() implies stores_entry(m, #[trigger] out@[a]) by {
                    if a < prev.len() {
                        assert(out@[a] == prev[a]);
                    }
                }
                assert forall|a: int, c: int| 0 <= a < c < out@.len() implies out@[a].0.index != out@[c].0.index by {
                    assert(out@[a] == prev[a]);
                    if c < prev.len() {
                        assert(out@[c] == prev[c]);
                    } else {
                        assert(out@[a].0.index == *it.seq()[a].0);
                    }
                }
                assert forall|k: usize| #[trigger] m.contains_key(k) implies (exists|a: int| 0 <= a < out@.len() && out@[a].0.index == k)
                    || exists|j: int| i + 1 <= j < it.seq().len() && *it.seq()[j].0 == k by {
                    if exists|a: int| 0 <= a < prev.len() && prev[a].0.index == k {
                        let a = choose|a: int| 0 <= a < prev.len() && prev[a].0.index == k;
                        assert(out@[a] == prev[a]);
                    } else if k == x.0.index {
                        assert(out@[prev.len() as int].0.index == k);
                    } else {
                        let j = choose|j: int| i <= j < it.seq().len() && *it.seq()[j].0 == k;
                        assert(j != i);
                    }
                }
            }
        }
        out
    }

    /// One pass over the entries in the map's order, summing the ordinals.
    pub fn ordinal_sum(&self) -> (r: u128)
        ensures
            r == ordinal_sum(self.view()),
    {
        let n = self.map.len();
        let ghost m = self.map@;
        let ghost w = ordinals(m);
        let mut acc: u128 = 0;
        let ghost mut met: Set<usize> = Set::empty();
        proof {
            lemma_total_bound(w.restrict(met), 0, slot_bound());
        }
        for kv in it: self.map.iter()
            invariant
                m == self.map@,
                w == ordinals(m),
                n == m.dom().len(),
                it.seq().len() == n,
                forall|j: int| 0 <= j < it.seq().len() ==> #[trigger] m.contains_key(*it.seq()[j].0)
                    && m[*it.seq()[j].0] == *it.seq()[j].1,
                forall|k: usize| #[trigger] m.contains_key(k) ==> it.seq().contains((&k, &m[k])),
                met == keys_met(it.seq(), it.index() as int),
                forall|k: usize| #[trigger] m.contains_key(k) ==> met.contains(k) || exists|j: int|
                    it.index() <= j < it.seq().len() && *it.seq()[j].0 == k,
                acc == total(w.restrict(met)),
                acc <= it.index() * 0xffff_ffff_ffff_ffff,
        {
            proof {
                lemma_entry_keys_distinct(m, it.seq());
                let i = it.index() as int;
                let k = *it.seq()[i].0;
                let seen = keys_met(it.seq(), i);
                assert(!seen.contains(k));
                lemma_total_visit(w, seen, k);
                assert(keys_met(it.seq(), i + 1) =~= seen.insert(k));
                lemma_acc_step(acc as int, i, kv.1.1.ordinal as int);
                assert(*kv.0 == k);
                met = met.insert(*kv.0);
            }
            acc = acc + kv.1.1.ordinal as u128;
        }
        proof {
            assert(met =~= m.dom()) by {
                assert forall|k: usize| m.contains_key(k) implies met.contains(k) by {}
                assert forall|k: usize| met.contains(k) implies m.contains_key(k) by {}
            }
            assert(w.restrict(met) =~= w);
        }
        acc
    }
}

/// Payloads packed densely; a table maps each slot to its dense position and
/// removal moves the last payload into the hole.
pub struct DenseStorage {
    data: Vec<Payload>,
    owners: Vec<Entity>,
    index: Vec<Option<usize>>,
}

impl DenseStorage {
    pub closed spec fn wf(&self) -> bool {
        &&& self.data@.len() == self.owners@.len()
        &&& forall|d: int|
            0 <= d < self.owners@.len() ==> (#[trigger] self.owners@[d]).index < self.index@.len()
                && self.index@[self.owners@[d].index as int] == Some(d as usize)
        &&& forall|s: int|
            0 <= s < self.index@.len() && (#[trigger] self.index@[s]) is Some ==> (
            self.index@[s]->Some_0 as int) < self.owners@.len() && self.owners@[self.index@[s]->Some_0 as int].index == s
    }

    pub closed spec fn view(&self) -> Contents {
        Map::new(
            |k: usize| (k as int) < self.index@.len() && self.index@[k as int] is Some,
            |k: usize|
                {
                    let d = self.index@[k as int]->Some_0 as int;
                    (self.owners@[d].generation, self.data@[d])
                },
        )
    }

    pub fn new() -> (r: Self)
        ensures
            r.wf(),
            r.view() == Contents::empty(),
    {
        let r = DenseStorage { data: Vec::new(), owners: Vec::new(), index: Vec::new() };
        assert(r.view() =~= Contents::empty());
        r
    }

    pub fn insert(&mut self, e: Entity, p: Payload) -> (r: Result<(), StorageError>)
        requires
            old(self).wf(),
            e.index < usize::MAX,
        ensures
            final(self).wf(),
            inserted(old(self).view(), final(self).view(), e, p, r),
    {
        if e.index < self.index.len() && self.index[e.index].is_some() {
            return Err(StorageError::AlreadyPresent);
        }
        let ghost pre = self.view();
        while self.index.len() <= e.index
            invariant
                self.wf(),
                self.view() == pre,
                e.index < usize::MAX,
                e.index < self.index@.len() ==> self.index@[e.index as int] is None,
            decreases e.index + 1 - self.index.len(),
        {
            self.index.push(None);
            assert(self.view() =~= pre);
        }
        let d = self.data.len();
        self.data.push(p);
        self.owners.push(e);
        self.index.set(e.index, Some(d));
        assert(self.view() =~= pre.insert(e.index, (e.generation, p)));
        Ok(())
    }

    pub fn get(&self, e: Entity) -> (r: Option<Payload>)
        requires
            self.wf(),
        ensures
            got(self.view(), e, r),
    {
        if e.index < self.index.len() {
            if let Some(d) = self.index[e.index] {
                if self.owners[d].generation == e.generation {
                    return Some(self.data[d]);
                }
            }
        }
        None
    }

    pub fn contains(&self, e: Entity) -> (r: bool)
        requires
            self.wf(),
        ensures
            r == holds(self.view(), e),
    {
        self.get(e).is_some()
    }

    pub fn remove(&mut self, e: Entity) -> (r: Option<Payload>)
        requires
            old(self).wf(),
        ensures
            final(self).wf(),
            removed(old(self).view(), final(self).view(), e, r),
    {
        if e.index < self.index.len() {
            if let Some(d) = self.index[e.index] {
                if self.owners[d].generation == e.generation {
                    let ghost pre = self.view();
                    let ghost old_owners = self.owners@;
                    let ghost old_data = self.data@;
                    let last = self.data.len() - 1;
                    let p = self.data.swap_remove(d);
                    self.owners.swap_remove(d);
                    if d < last {
                        let moved = self.owners[d].index;
                        assert(moved == old_owners[last as int].index);
                        self.index.set(moved, Some(d));
                    }
                    self.index.set(e.index, None);
                    assert(self.wf()) by {
                        assert forall|s: int|
                            0 <= s < self.index@.len() && (#[trigger] self.index@[s]) is Some implies (
                            self.index@[s]->Some_0 as int) < self.owners@.len()
                                && self.owners@[self.index@[s]->Some_0 as int].index == s by {
                            if s != moved_slot(old_owners, d as int, last as int) {
                                assert(s != e.index);
                            }
                        }
                    }
                    assert(self.view() =~= pre.remove(e.index)) by {
                        assert forall|k: usize| #[trigger] self.view().contains_key(k) implies self.view()[k]
                            == pre[k] by {
                            if d < last && k == old_owners[last as int].index {
                            }
                        }
                    }
                    return Some(p);
                }
            }
        }
        None
    }

    /// Every stored entity with its payload, in dense order.
    pub fn entries(&self) -> (r: Vec<(Entity, Payload)>)
        requires
            self.wf(),
        ensures
            lists(self.view(), r@),
    {
        let ghost m = self.view();
        let mut out: Vec<(Entity, Payload)> = Vec::new();
        let mut d: usize = 0;
        while d < self.data.len()
            invariant
                self.wf(),
                m == self.view(),
                d <= self.data@.len(),
                out@.len() == d,
                forall|a: int| 0 <= a < d ==> #[trigger] out@[a] == (self.owners@[a], self.data@[a]),
            decreases self.data@.len() - d,
        {
            out.push((self.owners[d], self.data[d]));
            d = d + 1;
        }
        proof {
            assert forall|a: int| 0 <= a < out@.len() implies stores_entry(m, #[trigger] out@[a]) by {
                assert(self.owners@[a] == out@[a].0);
                assert(self.index@[self.owners@[a].index as int] == Some(a as usize));
            }
            assert forall|a: int, c: int| 0 <= a < c < out@.len() implies out@[a].0.index
                != out@[c].0.index by {
                assert(out@[a] == (self.owners@[a], self.data@[a]));
                assert(out@[c] == (self.owners@[c], self.data@[c]));
                assert(self.index@[self.owners@[a].index as int] == Some(a as usize));
                assert(self.index@[self.owners@[c].index as int] == Some(c as usize));
            }
            assert forall|k: usize| #[trigger] m.contains_key(k) implies exists|a: int|
                0 <= a < out@.len() && out@[a].0.index == k by {
                let a = self.index@[k as int]->Some_0 as int;
                assert(self.index@[k as int] is Some);
                assert(out@[a] == (self.owners@[a], self.data@[a]));
            }
        }
        out
    }

    /// One pass over the dense payloads, summing the ordinals.
    pub fn ordinal_sum(&self) -> (r: u128)
        requires
            self.wf(),
        ensures
            r == ordinal_sum(self.view()),
    {
        let ghost m = self.view();
        let ghost w = ordinals(m);
        let ghost mut met: Set<usize> = Set::empty();
        proof {
            lemma_total_bound(w.restrict(met), 0, slot_bound());
        }
        let mut acc: u128 = 0;
        let mut d: usize = 0;
        while d < self.data.len()
            invariant
                self.wf(),
                m == self.view(),
                w == ordinals(m),
                d <= self.data@.len(),
                met == Set::new(|k: usize| exists|j: int| 0 <= j < d && self.owners@[j].index == k),
                acc == total(w.restrict(met)),
                acc <= d * 0xffff_ffff_ffff_ffff,
            decreases self.data@.len() - d,
        {
            let k = self.owners[d].index;
            proof {
                assert(m.contains_key(k));
                assert(w[k] == self.data@[d as int].ordinal);
                assert(!met.contains(k)) by {
                    if met.contains(k) {
                        let j = choose|j: int| 0 <= j < d && self.owners@[j].index == k;
                        assert(self.index@[self.owners@[j].index as int] == Some(j as usize));
                    }
                }
                lemma_total_visit(w, met, k);
                lemma_acc_step(acc as int, d as int, self.data@[d as int].ordinal as int);
                met = met.insert(k);
                assert(met =~= Set::new(|x: usize| exists|j: int| 0 <= j < d + 1 && self.owners@[j].index == x)) by {
                    assert(self.owners@[d as int].index == k);
                }
            }
            acc = acc + self.data[d].ordinal as u128;
            d = d + 1;
        }
        proof {
            assert(met =~= m.dom()) by {
                assert forall|k: usize| m.contains_key(k) implies met.contains(k) by {
                    let j = self.index@[k as int]->Some_0 as int;
                    assert(self.index@[k as int] is Some);
                    assert(self.owners@[j].index == k);
                }
            }
            assert(w.restrict(met) =~= w);
        }
        acc
    }
}

/// The slot whose payload fills the hole left at dense position `d`.
spec fn moved_slot(owners: Seq<Entity>, d: int, last: int) -> int {
    if d < last {
        owners[last].index as int
    } else {
        -1
    }
}

// ---------------------------------------------------------------------------
/// The interface every value-bearing storage offers, over the shared model.
pub trait ValueStorage: Sized {
    spec fn contents(&self) -> Contents;

    /// The storage's own well-formedness.
    spec fn inv(&self) -> bool;

    fn insert(&mut self, e: Entity, p: Payload) -> (r: Result<(), StorageError>)
        requires
            old(self).inv(),
            e.index < usize::MAX,
        ensures
            final(self).inv(),
            inserted(old(self).contents(), final(self).contents(), e, p, r),
    ;

    fn remove(&mut self, e: Entity) -> (r: Option<Payload>)
        requires
            old(self).inv(),
        ensures
            final(self).inv(),
            removed(old(self).contents(), final(self).contents(), e, r),
    ;

    fn contains(&self, e: Entity) -> (r: bool)
        requires
            self.inv(),
        ensures
            r == holds(self.contents(), e),
    ;

    fn get(&self, e: Entity) -> (r: Option<Payload>)
        requires
            self.inv(),
        ensures
            got(self.contents(), e, r),
    ;

    /// A fresh pass over every stored pair.
    fn entries(&self) -> (r: Vec<(Entity, Payload)>)
        requires
            self.inv(),
        ensures
            lists(self.contents(), r@),
    ;

    fn ordinal_sum(&self) -> (r: u128)
        requires
            self.inv(),
        ensures
            r == ordinal_sum(self.contents()),
    ;
}

impl ValueStorage for PackedStorage {
    open spec fn contents(&self) -> Contents {
        self.view()
    }

    open spec fn inv(&self) -> bool {
        true
    }

    fn insert(&mut self, e: Entity, p: Payload) -> (r: Result<(), StorageError>) {
        PackedStorage::insert(self, e, p)
    }

    fn remove(&mut self, e: Entity) -> (r: Option<Payload>) {
        PackedStorage::remove(self, e)
    }

    fn contains(&self, e: Entity) -> (r: bool) {
        PackedStorage::contains(self, e)
    }

    fn get(&self, e: Entity) -> (r: Option<Payload>) {
        PackedStorage::get(self, e)
    }

    fn entries(&self) -> (r: Vec<(Entity, Payload)>) {
        PackedStorage::entries(self)
    }

    fn ordinal_sum(&self) -> (r: u128) {
        PackedStorage::ordinal_sum(self)
    }
}

impl ValueStorage for DenseStorage {
    open spec fn contents(&self) -> Contents {
        self.view()
    }

    open spec fn inv(&self) -> bool {
        self.wf()
    }

    fn insert(&mut self, e: Entity, p: Payload) -> (r: Result<(), StorageError>) {
        DenseStorage::insert(self, e, p)
    }

    fn remove(&mut self, e: Entity) -> (r: Option<Payload>) {
        DenseStorage::remove(self, e)
    }

    fn contains(&self, e: Entity) -> (r: bool) {
        DenseStorage::contains(self, e)
    }

    fn get(&self, e: Entity) -> (r: Option<Payload>) {
        DenseStorage::get(self, e)
    }

    fn entries(&self) -> (r: Vec<(Entity, Payload)>) {
        DenseStorage::entries(self)
    }

    fn ordinal_sum(&self) -> (r: u128) {
        DenseStorage::ordinal_sum(self)
    }
}

impl ValueStorage for OrderedStorage {
    open spec fn contents(&self) -> Contents {
        self.view()
    }

    open spec fn inv(&self) -> bool {
        true
    }

    fn insert(&mut self, e: Entity, p: Payload) -> (r: Result<(), StorageError>) {
        OrderedStorage::insert(self, e, p)
    }

    fn remove(&mut self, e: Entity) -> (r: Option<Payload>) {
        OrderedStorage::remove(self, e)
    }

    fn contains(&self, e: Entity) -> (r: bool) {
        OrderedStorage::contains(self, e)
    }

    fn get(&self, e: Entity) -> (r: Option<Payload>) {
        OrderedStorage::get(self, e)
    }

    fn entries(&self) -> (r: Vec<(Entity, Payload)>) {
        OrderedStorage::entries(self)
    }

    fn ordinal_sum(&self) -> (r: u128) {
        OrderedStorage::ordinal_sum(self)
    }
}

impl ValueStorage for HashedStorage {
    open spec fn contents(&self) -> Contents {
        self.view()
    }

    open spec fn inv(&self) -> bool {
        true
    }

    fn insert(&mut self, e: Entity, p: Payload) -> (r: Result<(), StorageError>) {
        HashedStorage::insert(self, e, p)
    }

    fn remove(&mut self, e: Entity) -> (r: Option<Payload>) {
        HashedStorage::remove(self, e)
    }

    fn contains(&self, e: Entity) -> (r: bool) {
        HashedStorage::contains(self, e)
    }

    fn get(&self, e: Entity) -> (r: Option<Payload>) {
        HashedStorage::get(self, e)
    }

    fn entries(&self) -> (r: Vec<(Entity, Payload)>) {
        HashedStorage::entries(self)
    }

    fn ordinal_sum(&self) -> (r: u128) {
        HashedStorage::ordinal_sum(self)
    }
}

} // verus!
