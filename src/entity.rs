//! Generational entity allocator.
use vstd::prelude::*;

verus! {

/// An identifier: a slot index and the generation the slot had when the
/// identifier was issued.
#[derive(Clone, Copy, Debug, PartialEq, Eq, Structural)]
pub struct Entity {
    pub index: usize,
    pub generation: u64,
}

#[derive(Clone, Copy, Debug, PartialEq, Eq, Structural)]
pub enum EntityError {
    /// The entity's slot was freed since it was issued (or never issued).
    StaleEntity,
}

/// The generation a slot takes when it is freed; it wraps at the top of `u64`.
pub open spec fn next_generation(g: u64) -> u64 {
    if g == u64::MAX {
        0
    } else {
        (g + 1) as u64
    }
}

/// Slot table: a generation and a liveness flag per slot. Dead slots are
/// handed out again, lowest index first.
pub struct Allocator {
    generations: Vec<u64>,
    alive: Vec<bool>,
    /// The lowest dead slot, or the slot count when none is dead.
    lowest_free: usize,
    /// Every dead slot lies below this bound.
    free_end: usize,
}

impl Allocator {
    pub closed spec fn gens(&self) -> Seq<u64> {
        self.generations@
    }

    pub closed spec fn live(&self) -> Seq<bool> {
        self.alive@
    }

    pub open spec fn slot_count(&self) -> nat {
        self.gens().len()
    }

    pub closed spec fn wf(&self) -> bool {
        &&& self.generations@.len() == self.alive@.len()
        &&& self.lowest_free <= self.alive@.len()
        &&& self.free_end <= self.alive@.len()
        &&& forall|i: int| 0 <= i < self.lowest_free ==> self.alive@[i]
        &&& self.lowest_free < self.alive@.len() ==> !self.alive@[self.lowest_free as int]
        &&& forall|i: int| self.free_end <= i < self.alive@.len() ==> self.alive@[i]
    }

    /// A well-formed table has a liveness flag for each generation.
    pub proof fn lemma_wf_lengths(&self)
        requires
            self.wf(),
        ensures
            self.live().len() == self.slot_count(),
    {
    }

    pub open spec fn spec_is_alive(&self, e: Entity) -> bool {
        &&& e.index < self.slot_count()
        &&& self.live()[e.index as int]
        &&& self.gens()[e.index as int] == e.generation
    }

    pub open spec fn has_free(&self) -> bool {
        exists|i: int| 0 <= i < self.slot_count() && !self.live()[i]
    }

    /// `i` is the lowest dead slot.
    pub open spec fn is_lowest_free(&self, i: int) -> bool {
        &&& 0 <= i < self.slot_count()
        &&& !self.live()[i]
        &&& forall|j: int| 0 <= j < i ==> self.live()[j]
    }

    /// The generation that `entity_at` reports for a slot.
    pub open spec fn generation_at(&self, index: int) -> u64 {
        if 0 <= index < self.slot_count() {
            self.gens()[index]
        } else {
            0
        }
    }

    /// What `allocate` does: `post` is `pre` with `e` handed out.
    pub open spec fn allocated(pre: Allocator, post: Allocator, e: Entity) -> bool {
        &&& post.wf()
        &&& if pre.has_free() {
            &&& pre.is_lowest_free(e.index as int)
            &&& post.gens() == pre.gens()
            &&& post.live() == pre.live().update(e.index as int, true)
        } else {
            &&& e.index == pre.slot_count()
            &&& post.gens() == pre.gens().push(0)
            &&& post.live() == pre.live().push(true)
        }
        &&& e.generation == post.gens()[e.index as int]
    }

    /// What a successful `free` of `e` does.
    pub open spec fn freed(pre: Allocator, post: Allocator, e: Entity) -> bool {
        &&& post.wf()
        &&& post.gens() == pre.gens().update(
            e.index as int,
            next_generation(pre.gens()[e.index as int]),
        )
        &&& post.live() == pre.live().update(e.index as int, false)
    }

    pub fn new() -> (r: Allocator)
        ensures
            r.wf(),
            r.slot_count() == 0,
    {
        Allocator { generations: Vec::new(), alive: Vec::new(), lowest_free: 0, free_end: 0 }
    }

    /// Number of slots ever handed out (live or dead).
    pub fn len(&self) -> (r: usize)
        requires
            self.wf(),
        ensures
            r == self.slot_count(),
    {
        self.alive.len()
    }

    /// Hands out the lowest dead slot with its current generation, or a new
    /// slot with generation 0 when no slot is dead.
    pub fn allocate(&mut self) -> (r: Entity)
        requires
            old(self).wf(),
            old(self).slot_count() < usize::MAX,
        ensures
            Allocator::allocated(*old(self), *final(self), r),
            final(self).spec_is_alive(r),
    {
        let len = self.alive.len();
        if self.lowest_free < len {
            let idx = self.lowest_free;
            assert(self.has_free()) by {
                assert(!self.live()[idx as int]);
            }
            self.alive.set(idx, true);
            let mut j: usize = idx + 1;
            while j < self.free_end && self.alive[j]
                invariant
                    idx < j <= len,
                    self.free_end <= len,
                    self.alive@.len() == len,
                    forall|k: int| idx < k < j ==> self.alive@[k],
                decreases len - j,
            {
                j = j + 1;
            }
            if j < self.free_end {
                self.lowest_free = j;
            } else {
                self.lowest_free = len;
                self.free_end = 0;
            }
            Entity { index: idx, generation: self.generations[idx] }
        } else {
            assert(!self.has_free());
            self.generations.push(0);
            self.alive.push(true);
            self.lowest_free = len + 1;
            Entity { index: len, generation: 0 }
        }
    }

    /// Frees a live entity: its slot dies and its generation moves on.
    pub fn free(&mut self, e: Entity) -> (r: Result<(), EntityError>)
        requires
            old(self).wf(),
        ensures
            r is Ok <==> old(self).spec_is_alive(e),
            r is Ok ==> Allocator::freed(*old(self), *final(self), e),
            r is Err ==> *final(self) == *old(self),
    {
        let len = self.alive.len();
        if e.index < len && self.alive[e.index] && self.generations[e.index] == e.generation {
            let idx = e.index;
            self.alive.set(idx, false);
            let g = self.generations[idx];
            let ng = if g == u64::MAX {
                0
            } else {
                g + 1
            };
            self.generations.set(idx, ng);
            if idx < self.lowest_free {
                self.lowest_free = idx;
            }
            if self.free_end <= idx {
                self.free_end = idx + 1;
            }
            Ok(())
        } else {
            Err(EntityError::StaleEntity)
        }
    }

    pub fn is_alive(&self, e: Entity) -> (r: bool)
        requires
            self.wf(),
        ensures
            r == self.spec_is_alive(e),
    {
        e.index < self.alive.len() && self.alive[e.index] && self.generations[e.index]
            == e.generation
    }

    /// The entity a slot stands for now, whether or not it is alive.
    pub fn entity_at(&self, index: usize) -> (r: Entity)
        requires
            self.wf(),
        ensures
            r.index == index,
            r.generation == self.generation_at(index as int),
    {
        if index < self.generations.len() {
            Entity { index, generation: self.generations[index] }
        } else {
            Entity { index, generation: 0 }
        }
    }
}

/// Freeing a live entity and later getting its slot back from `allocate`
/// yields a strictly larger generation (short of the top of `u64`, where it
/// wraps), and the freed identifier is not alive after either call.
pub proof fn lemma_generation_increases(
    a0: Allocator,
    a1: Allocator,
    a2: Allocator,
    e: Entity,
    r: Entity,
)
    requires
        a0.wf(),
        a0.spec_is_alive(e),
        e.generation < u64::MAX,
        Allocator::freed(a0, a1, e),
        Allocator::allocated(a1, a2, r),
        r.index == e.index,
    ensures
        r.generation > e.generation,
        !a1.spec_is_alive(e),
        !a2.spec_is_alive(e),
{
    assert(a1.has_free()) by {
        assert(!a1.live()[e.index as int]);
    }
}

} // verus!
