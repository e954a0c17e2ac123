//! Run generation for filling the identifier space to a target ratio.
use vstd::prelude::*;
use crate::entropy::Entropy;

verus! {

broadcast use {vstd::seq_lib::group_to_multiset_ensures, vstd::seq::group_seq_axioms};

/// A stretch of consecutive slots: populated (allocated and stored in every
/// backend) or skipped (allocated, nothing stored).
#[derive(Clone, Copy, Debug, PartialEq, Eq, Structural)]
pub struct Run {
    pub len: usize,
    pub populate: bool,
}

/// Sum of the lengths of the runs of one kind.
pub open spec fn run_total(s: Seq<Run>, populate: bool) -> nat
    decreases s.len(),
{
    if s.len() == 0 {
        0
    } else {
        run_total(s.drop_last(), populate) + if s.last().populate == populate {
            s.last().len as nat
        } else {
            0
        }
    }
}

/// The largest cut drawn while `remaining` is left: half of it, at least 2,
/// and never more than what is left.
pub open spec fn max_cut(remaining: nat) -> nat {
    let half = remaining / 2;
    let m = if half < 2 {
        2
    } else {
        half
    };
    if m < remaining {
        m
    } else {
        remaining
    }
}

/// Draws run lengths until a budget is used up.
pub struct CutsIter {
    remaining: usize,
}

impl CutsIter {
    pub closed spec fn rem(&self) -> nat {
        self.remaining as nat
    }

    pub fn new(total: usize) -> (r: Self)
        ensures
            r.rem() == total,
    {
        CutsIter { remaining: total }
    }

    /// The next cut: `None` once the budget is spent, else a length in
    /// `[1, max_cut(remaining)]`, taken off the budget.
    pub fn next(&mut self, rng: &mut Entropy) -> (r: Option<usize>)
        ensures
            r is None <==> old(self).rem() == 0,
            r is None ==> final(self).rem() == 0,
            r matches Some(c) ==> 1 <= c <= max_cut(old(self).rem()) && final(self).rem()
                == old(self).rem() - c,
    {
        if self.remaining == 0 {
            None
        } else {
            let half = self.remaining / 2;
            let m = if half < 2 {
                2
            } else {
                half
            };
            let max_len = if m < self.remaining {
                m
            } else {
                self.remaining
            };
            let cut = rng.in_range(1, max_len);
            self.remaining = self.remaining - cut;
            Some(cut)
        }
    }
}

/// Cuts `total` into runs of the given kind, appended to `out`.
fn push_cuts(out: &mut Vec<Run>, total: usize, populate: bool, rng: &mut Entropy)
    requires
        forall|i: int| 0 <= i < old(out)@.len() ==> old(out)@[i].len >= 1,
    ensures
        run_total(final(out)@, populate) == run_total(old(out)@, populate) + total,
        run_total(final(out)@, !populate) == run_total(old(out)@, !populate),
        forall|i: int| 0 <= i < old(out)@.len() ==> final(out)@[i] == old(out)@[i],
        forall|i: int| 0 <= i < final(out)@.len() ==> final(out)@[i].len >= 1,
{
    let mut cuts = CutsIter::new(total);
    let ghost start = out@;
    loop
        invariant
            run_total(out@, populate) + cuts.rem() == run_total(start, populate) + total,
            run_total(out@, !populate) == run_total(start, !populate),
            start.len() <= out@.len(),
            forall|i: int| 0 <= i < start.len() ==> out@[i] == start[i],
            forall|i: int| 0 <= i < out@.len() ==> out@[i].len >= 1,
        ensures
            run_total(out@, populate) == run_total(start, populate) + total,
            run_total(out@, !populate) == run_total(start, !populate),
            forall|i: int| 0 <= i < start.len() ==> out@[i] == start[i],
            forall|i: int| 0 <= i < out@.len() ==> out@[i].len >= 1,
        decreases cuts.rem(),
    {
        match cuts.next(rng) {
            None => break,
            Some(c) => {
                let ghost before = out@;
                out.push(Run { len: c, populate });
                assert(out@.drop_last() == before);
            },
        }
    }
}

/// The runs of a fill: cuts of `num_set` to populate and of `num_unset` to
/// skip, shuffled together.
pub fn fill_runs(num_set: usize, num_unset: usize, rng: &mut Entropy) -> (r: Vec<Run>)
    ensures
        run_total(r@, true) == num_set,
        run_total(r@, false) == num_unset,
        forall|i: int| 0 <= i < r@.len() ==> r@[i].len >= 1,
{
    let mut runs: Vec<Run> = Vec::new();
    push_cuts(&mut runs, num_set, true, rng);
    push_cuts(&mut runs, num_unset, false, rng);
    let ghost before = runs@;
    rng.shuffle(&mut runs);
    proof {
        lemma_run_total_permutation(before, runs@, true);
        lemma_run_total_permutation(before, runs@, false);
        assert forall|i: int| 0 <= i < runs@.len() implies runs@[i].len >= 1 by {
            assert(runs@.to_multiset().contains(runs@[i]));
            assert(before.contains(runs@[i]));
        }
    }
    runs
}

proof fn lemma_run_total_remove(s: Seq<Run>, i: int, p: bool)
    requires
        0 <= i < s.len(),
    ensures
        run_total(s, p) == run_total(s.remove(i), p) + if s[i].populate == p {
            s[i].len as nat
        } else {
            0
        },
    decreases s.len(),
{
    if i == s.len() - 1 {
        assert(s.remove(i) == s.drop_last());
    } else {
        lemma_run_total_remove(s.drop_last(), i, p);
        assert(s.remove(i).drop_last() == s.drop_last().remove(i));
        assert(s.remove(i).last() == s.last());
    }
}

/// Reordering runs keeps the totals of each kind.
pub proof fn lemma_run_total_permutation(s1: Seq<Run>, s2: Seq<Run>, p: bool)
    requires
        s1.to_multiset() == s2.to_multiset(),
    ensures
        run_total(s1, p) == run_total(s2, p),
    decreases s1.len(),
{
    if s1.len() == 0 {
        assert(s2.to_multiset().len() == 0);
        assert(s2.len() == 0);
    } else {
        let x = s1.last();
        assert(s1 == s1.drop_last().push(x));
        assert(s2.to_multiset().contains(x));
        assert(s2.contains(x));
        let i = choose|i: int| 0 <= i < s2.len() && s2[i] == x;
        lemma_run_total_remove(s2, i, p);
        assert(s2.remove(i).to_multiset() == s2.to_multiset().remove(x));
        assert(s1.drop_last().to_multiset() == s1.to_multiset().remove(x));
        lemma_run_total_permutation(s1.drop_last(), s2.remove(i), p);
    }
}

/// Totals over a prefix grow run by run and never pass the whole.
pub proof fn lemma_run_total_prefix(s: Seq<Run>, i: int, p: bool)
    requires
        0 <= i < s.len(),
    ensures
        run_total(s.take(i + 1), p) == run_total(s.take(i), p) + if s[i].populate == p {
            s[i].len as nat
        } else {
            0
        },
        run_total(s.take(i + 1), p) <= run_total(s, p),
    decreases s.len(),
{
    assert(s.take(i + 1).drop_last() == s.take(i));
    if i + 1 < s.len() {
        lemma_run_total_prefix(s.drop_last(), i, p);
        assert(s.drop_last().take(i + 1) == s.take(i + 1));
        assert(s.drop_last().take(i) == s.take(i));
    } else {
        assert(s.take(i + 1) == s);
    }
}

} // verus!
