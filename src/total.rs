//! Sums of per-slot weights over a map keyed by slot index, and the facts
//! that let every storage order reach the same sum.
use vstd::prelude::*;

verus! {

/// One more than the largest slot index.
pub open spec fn slot_bound() -> nat {
    usize::MAX as nat + 1
}

/// Sum of the weights of the slots below `n`.
pub open spec fn total_below(w: Map<usize, int>, n: nat) -> int
    decreases n,
{
    if n == 0 || n > slot_bound() {
        0
    } else {
        total_below(w, (n - 1) as nat) + if w.contains_key((n - 1) as usize) {
            w[(n - 1) as usize]
        } else {
            0
        }
    }
}

/// Sum of all weights.
pub open spec fn total(w: Map<usize, int>) -> int {
    total_below(w, slot_bound())
}

pub proof fn lemma_total_insert(w: Map<usize, int>, k: usize, x: int, n: nat)
    requires
        !w.contains_key(k),
        n <= slot_bound(),
    ensures
        total_below(w.insert(k, x), n) == total_below(w, n) + if (k as nat) < n {
            x
        } else {
            0
        },
    decreases n,
{
    if n > 0 {
        lemma_total_insert(w, k, x, (n - 1) as nat);
    }
}

pub proof fn lemma_total_remove(w: Map<usize, int>, k: usize, n: nat)
    requires
        w.contains_key(k),
        n <= slot_bound(),
    ensures
        total_below(w.remove(k), n) == total_below(w, n) - if (k as nat) < n {
            w[k]
        } else {
            0
        },
{
    lemma_total_insert(w.remove(k), k, w[k], n);
    assert(w.remove(k).insert(k, w[k]) =~= w);
}

/// Slots at or above `b` carry nothing, so the sum stops growing at `b`.
pub proof fn lemma_total_bound(w: Map<usize, int>, b: nat, n: nat)
    requires
        b <= n <= slot_bound(),
        forall|k: usize| #[trigger] w.contains_key(k) ==> (k as nat) < b,
    ensures
        total_below(w, b) == total_below(w, n),
    decreases n,
{
    if n > b {
        lemma_total_bound(w, b, (n - 1) as nat);
    }
}

/// Visiting the keys of `w` one at a time, in any order, adds up to its total.
pub proof fn lemma_total_visit(w: Map<usize, int>, seen: Set<usize>, k: usize)
    requires
        w.contains_key(k),
        !seen.contains(k),
    ensures
        total(w.restrict(seen.insert(k))) == total(w.restrict(seen)) + w[k],
{
    assert(!w.restrict(seen).contains_key(k));
    lemma_total_insert(w.restrict(seen), k, w[k], slot_bound());
    assert(w.restrict(seen.insert(k)) =~= w.restrict(seen).insert(k, w[k]));
}

/// Weight 1 on every key of `s`.
pub open spec fn ones(s: Set<usize>) -> Map<usize, int> {
    Map::new(|k: usize| s.contains(k), |k: usize| 1int)
}

pub proof fn lemma_ones_insert(s: Set<usize>, k: usize)
    requires
        !s.contains(k),
    ensures
        total(ones(s.insert(k))) == total(ones(s)) + 1,
{
    lemma_total_insert(ones(s), k, 1, slot_bound());
    assert(ones(s.insert(k)) =~= ones(s).insert(k, 1));
}

pub proof fn lemma_ones_remove(s: Set<usize>, k: usize)
    requires
        s.contains(k),
    ensures
        total(ones(s.remove(k))) == total(ones(s)) - 1,
{
    lemma_total_remove(ones(s), k, slot_bound());
    assert(ones(s.remove(k)) =~= ones(s).remove(k));
}

pub proof fn lemma_ones_empty()
    ensures
        total(ones(Set::<usize>::empty())) == 0,
{
    lemma_total_bound(ones(Set::<usize>::empty()), 0, slot_bound());
}

} // verus!
