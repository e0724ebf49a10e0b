//! Shared vocabulary of the sorting engines: sortedness, permutation
//! equivalence, the in-place swap they all mutate the array with, and the
//! dispatcher over the closed set of algorithms.

use vstd::prelude::*;

pub mod bubble;
pub mod quick;

verus! {

use vstd::seq_lib::group_to_multiset_ensures;
use vstd::multiset::group_multiset_axioms;

/// The sequence is in non-decreasing order.
pub open spec fn sorted(s: Seq<i32>) -> bool {
    forall|p: int, q: int| 0 <= p < q < s.len() ==> s[p] <= s[q]
}

/// The two sequences hold the same values, counted with multiplicity.
pub open spec fn is_permutation(a: Seq<i32>, b: Seq<i32>) -> bool {
    a.to_multiset() == b.to_multiset()
}

/// Writing the value at `b` over position `a` and the value at `a` over
/// position `b` rearranges the sequence without changing its multiset.
pub proof fn lemma_swap_permutes(s: Seq<i32>, a: int, b: int)
    requires
        0 <= a < s.len(),
        0 <= b < s.len(),
    ensures
        is_permutation(s.update(a, s[b]).update(b, s[a]), s),
{
    broadcast use group_to_multiset_ensures;
    broadcast use group_multiset_axioms;

    if a == b {
        assert(s.update(a, s[b]).update(b, s[a]) =~= s);
    } else {
        let s1 = s.update(a, s[b]);
        let s2 = s1.update(b, s[a]);
        assert(s1[b] == s[b]);
        assert(s1.to_multiset() == s.to_multiset().insert(s[b]).remove(s[a]));
        assert(s2.to_multiset() == s1.to_multiset().insert(s[a]).remove(s[b]));
        assert(s.to_multiset().contains(s[a]));
        assert(s.to_multiset().insert(s[b]).contains(s[a]));
        assert forall|x: i32|
            s2.to_multiset().count(x) == s.to_multiset().count(x) by {
            assert(s.to_multiset().count(s[a]) > 0);
        }
        assert(s2.to_multiset() =~= s.to_multiset());
    }
}

use crate::algorithms::bubble::{BubbleSort, BubbleSortState, lemma_bubble_invariants};
use crate::algorithms::quick::{QuickSort, QuickSortState, lemma_quick_invariants};

/// The closed set of algorithms, each paired with its progress state once
/// the host has initialized it with data.  The host drives whichever
/// variant is active through the uniform step/query operations below.
pub enum AlgorithmType {
    BubbleSort(BubbleSort, Option<BubbleSortState>),
    QuickSort(QuickSort, Option<QuickSortState>),
}

impl AlgorithmType {
    pub open spec fn is_bubble(&self) -> bool {
        self matches AlgorithmType::BubbleSort(_, _)
    }

    pub open spec fn has_state(&self) -> bool {
        match self {
            AlgorithmType::BubbleSort(_, s) => s is Some,
            AlgorithmType::QuickSort(_, s) => s is Some,
        }
    }

    /// The bubble progress state, when this is the bubble variant.
    pub open spec fn bubble_state(&self) -> Option<BubbleSortState> {
        match self {
            AlgorithmType::BubbleSort(_, s) => *s,
            _ => None,
        }
    }

    /// The quick-sort progress state, when this is the quick variant.
    pub open spec fn quick_state(&self) -> Option<QuickSortState> {
        match self {
            AlgorithmType::QuickSort(_, s) => *s,
            _ => None,
        }
    }

    /// Well-formedness of whatever progress state is present.
    pub open spec fn wf(&self) -> bool {
        match self {
            AlgorithmType::BubbleSort(_, Some(s)) => s.wf(),
            AlgorithmType::QuickSort(_, Some(s)) => s.wf(),
            _ => true,
        }
    }

    /// The working array; empty while no state exists.
    pub open spec fn data_view(&self) -> Seq<i32> {
        match self {
            AlgorithmType::BubbleSort(_, Some(s)) => s.bars_view(),
            AlgorithmType::QuickSort(_, Some(s)) => s.bars_view(),
            _ => Seq::empty(),
        }
    }

    /// The array the current run started from; empty while no state exists.
    pub open spec fn snapshot_view(&self) -> Seq<i32> {
        match self {
            AlgorithmType::BubbleSort(_, Some(s)) => s.snapshot_view(),
            AlgorithmType::QuickSort(_, Some(s)) => s.snapshot_view(),
            _ => Seq::empty(),
        }
    }

    /// Stepping an absent state is a no-op that reports completion.
    pub open spec fn is_complete(&self) -> bool {
        match self {
            AlgorithmType::BubbleSort(_, Some(s)) => s.is_complete(),
            AlgorithmType::QuickSort(_, Some(s)) => s.is_complete(),
            _ => true,
        }
    }

    pub open spec fn comparisons_spec(&self) -> Seq<(usize, usize)> {
        match self {
            AlgorithmType::BubbleSort(_, Some(s)) => s.comparisons_view(),
            AlgorithmType::QuickSort(_, Some(s)) => s.comparisons_view(),
            _ => Seq::empty(),
        }
    }

    /// What `get_current_indices` reports: for quick sort the raw indices
    /// augmented with the last-known pivot.
    pub open spec fn current_indices_spec(&self) -> Seq<usize> {
        match self {
            AlgorithmType::BubbleSort(_, Some(s)) => s.current_indices_view(),
            AlgorithmType::QuickSort(_, Some(s)) => s.indices_with_pivot(),
            _ => Seq::empty(),
        }
    }

    /// Static display label of the active algorithm.
    pub fn name(&self) -> (r: &'static str)
        ensures
            self.is_bubble() ==> r@ == "Bubble Sort"@,
            !self.is_bubble() ==> r@ == "Quick Sort"@,
    {
        match self {
            AlgorithmType::BubbleSort(algo, _) => algo.name(),
            AlgorithmType::QuickSort(algo, _) => algo.name(),
        }
    }

    /// Discard any prior progress and start a fresh run over `bars`: the
    /// only way progress state is created or replaced.  A run over zero or
    /// one bars starts complete.
    pub fn reset_with_data(&mut self, bars: Vec<i32>)
        ensures
            final(self).wf(),
            final(self).has_state(),
            final(self).is_bubble() == old(self).is_bubble(),
            final(self).data_view() == bars@,
            final(self).snapshot_view() == bars@,
            final(self).is_complete() <==> bars@.len() <= 1,
            final(self).comparisons_spec().len() == 0,
            final(self).current_indices_spec().len() == 0,
            final(self).bubble_state() matches Some(s) ==> crate::algorithms::bubble::initial_for(
                s,
                bars@,
            ),
            final(self).quick_state() matches Some(s) ==> crate::algorithms::quick::initial_for(
                s,
                bars@,
            ),
    {
        match self {
            AlgorithmType::BubbleSort(algo, state) => {
                *state = Some(algo.initial_state(bars));
            },
            AlgorithmType::QuickSort(algo, state) => {
                *state = Some(algo.initial_state(bars));
            },
        }
    }

    /// Advance the active run by one primitive operation and report
    /// whether it is complete.  Without progress state this is a no-op
    /// reporting completion.  The working array always remains a
    /// permutation of the run's input, and a completed run is sorted and
    /// never mutated again.
    pub fn step(&mut self) -> (complete: bool)
        requires
            old(self).wf(),
        ensures
            final(self).wf(),
            complete == final(self).is_complete(),
            final(self).has_state() == old(self).has_state(),
            final(self).is_bubble() == old(self).is_bubble(),
            final(self).snapshot_view() == old(self).snapshot_view(),
            is_permutation(final(self).data_view(), old(self).snapshot_view()),
            final(self).is_complete() ==> sorted(final(self).data_view()),
            old(self).is_complete() ==> {
                &&& complete
                &&& final(self).data_view() == old(self).data_view()
                &&& final(self).comparisons_spec().len() == 0
                &&& final(self).current_indices_spec().len() == 0
            },
            old(self).bubble_state() matches Some(s0) ==> (final(self).bubble_state()
                matches Some(s1) && crate::algorithms::bubble::step_transition(s0, s1, complete)),
            old(self).quick_state() matches Some(s0) ==> (final(self).quick_state()
                matches Some(s1) && crate::algorithms::quick::step_transition(s0, s1, complete)),
            !old(self).has_state() ==> *final(self) == *old(self),
    {
        match self {
            AlgorithmType::BubbleSort(algo, state_opt) => match state_opt {
                Some(state) => {
                    let r = algo.step(state);
                    proof {
                        lemma_bubble_invariants(*state);
                    }
                    r
                },
                None => true,
            },
            AlgorithmType::QuickSort(algo, state_opt) => match state_opt {
                Some(state) => {
                    let r = algo.step(state);
                    proof {
                        lemma_quick_invariants(*state);
                    }
                    r
                },
                None => true,
            },
        }
    }

    /// Snapshot of the working array; empty while no state exists.
    pub fn get_data(&self) -> (r: Vec<i32>)
        ensures
            r@ == self.data_view(),
    {
        match self {
            AlgorithmType::BubbleSort(algo, Some(state)) => algo.get_data(state),
            AlgorithmType::QuickSort(algo, Some(state)) => algo.get_data(state),
            _ => Vec::new(),
        }
    }

    /// The indices the last step touched; empty while no state exists.
    pub fn get_current_indices(&self) -> (r: Vec<usize>)
        ensures
            r@ == self.current_indices_spec(),
    {
        match self {
            AlgorithmType::BubbleSort(algo, Some(state)) => algo.get_current_indices(state),
            AlgorithmType::QuickSort(algo, Some(state)) => algo.get_current_indices(state),
            _ => Vec::new(),
        }
    }

    /// The index pairs the last step compared; empty while no state exists.
    pub fn get_comparisons(&self) -> (r: Vec<(usize, usize)>)
        ensures
            r@ == self.comparisons_spec(),
    {
        match self {
            AlgorithmType::BubbleSort(algo, Some(state)) => algo.get_comparisons(state),
            AlgorithmType::QuickSort(algo, Some(state)) => algo.get_comparisons(state),
            _ => Vec::new(),
        }
    }
}

/// Permutation invariant: whatever algorithm is active and however far it
/// has run, the working array holds exactly the values the run started
/// from, counted with multiplicity.
pub proof fn lemma_permutation_invariant(a: &AlgorithmType)
    requires
        a.wf(),
    ensures
        is_permutation(a.data_view(), a.snapshot_view()),
{
    match a {
        AlgorithmType::BubbleSort(_, Some(s)) => {
            lemma_bubble_invariants(*s);
        },
        AlgorithmType::QuickSort(_, Some(s)) => {
            lemma_quick_invariants(*s);
        },
        _ => {},
    }
}

/// Sortedness on completion: a complete run (or an absent one, which has
/// an empty array) leaves the working array in non-decreasing order.
pub proof fn lemma_sorted_on_completion(a: &AlgorithmType)
    requires
        a.wf(),
        a.is_complete(),
    ensures
        sorted(a.data_view()),
{
    match a {
        AlgorithmType::BubbleSort(_, Some(s)) => {
            lemma_bubble_invariants(*s);
        },
        AlgorithmType::QuickSort(_, Some(s)) => {
            lemma_quick_invariants(*s);
        },
        _ => {},
    }
}

/// Element-for-element copy of a list of index pairs.
pub(crate) fn copy_pairs(v: &Vec<(usize, usize)>) -> (r: Vec<(usize, usize)>)
    ensures
        r@ == v@,
{
    let mut r: Vec<(usize, usize)> = Vec::new();
    let mut k: usize = 0;
    while k < v.len()
        invariant
            k <= v@.len(),
            r@ == v@.subrange(0, k as int),
        decreases v@.len() - k,
    {
        r.push(v[k]);
        k = k + 1;
        proof {
            assert(r@ =~= v@.subrange(0, k as int));
        }
    }
    proof {
        assert(r@ =~= v@);
    }
    r
}

/// Exchange the values at positions `a` and `b` of the working array.
pub(crate) fn swap_bars(bars: &mut Vec<i32>, a: usize, b: usize)
    requires
        a < old(bars)@.len(),
        b < old(bars)@.len(),
    ensures
        final(bars)@ == old(bars)@.update(a as int, old(bars)@[b as int]).update(
            b as int,
            old(bars)@[a as int],
        ),
        final(bars)@.len() == old(bars)@.len(),
        is_permutation(final(bars)@, old(bars)@),
{
    let va = bars[a];
    let vb = bars[b];
    bars[a] = vb;
    bars[b] = va;
    proof {
        lemma_swap_permutes(old(bars)@, a as int, b as int);
    }
}

} // verus!
