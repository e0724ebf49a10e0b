//! Bubble-sort stepper: one adjacent comparison (and swap, when the pair is
//! out of order) per call, with pass rollover and completion bookkeeping.

use vstd::prelude::*;

verus! {

use crate::algorithms::{sorted, is_permutation, swap_bars};

/// `0 + 1 + ... + (k - 1)`, the number of comparisons a full run over `k`
/// bars performs; `tri(k) == k * (k - 1) / 2`.
pub open spec fn tri(k: int) -> int
    decreases k,
{
    if k <= 0 {
        0
    } else {
        tri(k - 1) + (k - 1)
    }
}

pub proof fn lemma_tri_nonneg(k: int)
    ensures
        tri(k) >= 0,
    decreases k,
{
    if k > 0 {
        lemma_tri_nonneg(k - 1);
    }
}

/// `tri(k)` is the triangular number `k * (k - 1) / 2`.
pub proof fn lemma_tri_closed_form(k: int)
    requires
        k >= 0,
    ensures
        2 * tri(k) == k * (k - 1),
    decreases k,
{
    if k > 0 {
        lemma_tri_closed_form(k - 1);
        assert(2 * tri(k) == k * (k - 1)) by (nonlinear_arith)
            requires
                2 * tri(k - 1) == (k - 1) * (k - 2),
                tri(k) == tri(k - 1) + (k - 1),
        ;
    } else {
        assert(tri(k) == 0);
        assert(k * (k - 1) == 0) by (nonlinear_arith)
            requires
                k == 0,
        ;
    }
}

/// Triangular numbers grow with their argument.
pub proof fn lemma_tri_mono(a: int, b: int)
    requires
        a <= b,
    ensures
        tri(a) <= tri(b),
    decreases b - a,
{
    if a < b {
        lemma_tri_mono(a, b - 1);
        lemma_tri_nonneg(b - 1);
    }
}

/// The last `i` positions hold the `i` largest values in sorted order: they
/// are sorted among themselves and dominate everything before them.
pub open spec fn tail_settled(s: Seq<i32>, i: int) -> bool {
    let t = s.len() - i;
    &&& forall|p: int, q: int| t <= p < q < s.len() ==> s[p] <= s[q]
    &&& forall|p: int, q: int| 0 <= p < t <= q < s.len() ==> s[p] <= s[q]
}

/// Position `j` holds the largest value seen so far in the current pass.
pub open spec fn prefix_max(s: Seq<i32>, j: int) -> bool {
    forall|p: int| 0 <= p < j ==> s[p] <= s[j]
}

pub struct BubbleSortState {
    bars: Vec<i32>,
    i: usize,
    j: usize,
    complete: bool,
    comparisons: Vec<(usize, usize)>,
    current_indices: Vec<usize>,
    snapshot: Ghost<Seq<i32>>,
}

impl BubbleSortState {
    /// The working array.
    pub closed spec fn bars_view(&self) -> Seq<i32> {
        self.bars@
    }

    /// The array the run started from.
    pub closed spec fn snapshot_view(&self) -> Seq<i32> {
        self.snapshot@
    }

    pub closed spec fn is_complete(&self) -> bool {
        self.complete
    }

    /// The outer pass count.
    pub closed spec fn outer(&self) -> int {
        self.i as int
    }

    /// The inner position of the current pass.
    pub closed spec fn inner(&self) -> int {
        self.j as int
    }

    pub closed spec fn comparisons_view(&self) -> Seq<(usize, usize)> {
        self.comparisons@
    }

    pub closed spec fn current_indices_view(&self) -> Seq<usize> {
        self.current_indices@
    }

    /// How many comparison steps the run can still perform before it must
    /// complete; at most `tri(n)` from the start, and never negative.
    pub closed spec fn comparisons_remaining(&self) -> int {
        let n = self.bars@.len() as int;
        if self.complete {
            0
        } else {
            (n - 1 - self.i - self.j) + tri(n - 1 - self.i)
        }
    }

    pub closed spec fn wf(&self) -> bool {
        let n = self.bars@.len() as int;
        &&& is_permutation(self.bars@, self.snapshot@)
        &&& forall|k: int|
            0 <= k < self.comparisons@.len() ==> (#[trigger] self.comparisons@[k]).0 < n
                && self.comparisons@[k].1 < n
        &&& forall|k: int|
            0 <= k < self.current_indices@.len() ==> (#[trigger] self.current_indices@[k]) < n
        &&& if self.complete {
            &&& sorted(self.bars@)
            &&& self.comparisons@.len() == 0
            &&& self.current_indices@.len() == 0
        } else {
            &&& n > 1
            &&& self.i + 1 < n
            &&& self.j <= n - 1 - self.i
            &&& tail_settled(self.bars@, self.i as int)
            &&& prefix_max(self.bars@, self.j as int)
        }
    }
}

/// Facts every well-formed bubble run guarantees: the working array is a
/// permutation of the run's input, and a complete run is sorted and
/// reports no touched indices and no compared pairs.
pub proof fn lemma_bubble_invariants(s: BubbleSortState)
    requires
        s.wf(),
    ensures
        is_permutation(s.bars_view(), s.snapshot_view()),
        s.is_complete() ==> sorted(s.bars_view()) && s.comparisons_view().len() == 0
            && s.current_indices_view().len() == 0,
{
}

/// The outstanding comparison work of a well-formed run is never negative
/// and never above `tri(n) == n * (n - 1) / 2`; together with `step`'s
/// contract — each comparing step lowers it by exactly one and each pass
/// rollover keeps it — a run over `n` bars performs at most `n * (n - 1) / 2`
/// comparison steps before it completes.
pub proof fn lemma_comparison_budget(s: &BubbleSortState)
    requires
        s.wf(),
    ensures
        0 <= s.comparisons_remaining(),
        s.comparisons_remaining() <= tri(s.bars_view().len() as int),
{
    let n = s.bars_view().len() as int;
    if s.is_complete() {
        lemma_tri_nonneg(n);
    } else {
        lemma_tri_nonneg(n - 1 - s.outer());
        assert(tri(n - s.outer()) == tri(n - 1 - s.outer()) + (n - 1 - s.outer()));
        lemma_tri_mono(n - s.outer(), n);
    }
}

/// The state a fresh bubble run over `bars` starts from: cursors at rest,
/// nothing highlighted, the whole comparison budget ahead of it, and —
/// when there are fewer than two bars — already complete.
pub open spec fn initial_for(s: BubbleSortState, bars: Seq<i32>) -> bool {
    &&& s.bars_view() == bars
    &&& s.snapshot_view() == bars
    &&& (s.is_complete() <==> bars.len() <= 1)
    &&& s.outer() == 0
    &&& s.inner() == 0
    &&& s.comparisons_view().len() == 0
    &&& s.current_indices_view().len() == 0
    &&& s.comparisons_remaining() == tri(bars.len() as int)
}

/// Everything one bubble step does, relating the state before a `step`
/// call to the state after it and to the reported completion flag:
/// an already complete run is left untouched; a pass with a pair left
/// compares `(j, j + 1)`, swaps it when out of order and advances `j`,
/// spending one unit of the comparison budget; otherwise the pass rolls
/// over, completing the run once the passes are spent.
pub open spec fn step_transition(
    pre: BubbleSortState,
    post: BubbleSortState,
    complete: bool,
) -> bool {
    &&& complete == post.is_complete()
    &&& post.snapshot_view() == pre.snapshot_view()
    &&& (pre.is_complete() ==> post == pre && complete)
    &&& (!pre.is_complete() && pre.inner() < pre.bars_view().len() - 1 - pre.outer() ==> {
        let j = pre.inner();
        let b = pre.bars_view();
        &&& !post.is_complete()
        &&& post.outer() == pre.outer()
        &&& post.inner() == j + 1
        &&& post.comparisons_view() =~= seq![(j as usize, (j + 1) as usize)]
        &&& post.current_indices_view() =~= seq![j as usize, (j + 1) as usize]
        &&& post.bars_view() == if b[j] > b[j + 1] {
            b.update(j, b[j + 1]).update(j + 1, b[j])
        } else {
            b
        }
        &&& post.comparisons_remaining() == pre.comparisons_remaining() - 1
    })
    &&& (!pre.is_complete() && pre.inner() >= pre.bars_view().len() - 1 - pre.outer() ==> {
        &&& post.bars_view() == pre.bars_view()
        &&& post.outer() == pre.outer() + 1
        &&& post.inner() == 0
        &&& post.comparisons_view().len() == 0
        &&& post.current_indices_view().len() == 0
        &&& (post.is_complete() <==> pre.outer() + 2 >= pre.bars_view().len())
        &&& post.comparisons_remaining() == pre.comparisons_remaining()
    })
}

/// How many entries of a run's history — a chain of states, each one
/// `step` call after the previous — recorded a comparison.
pub open spec fn comparing_steps(states: Seq<BubbleSortState>) -> int
    decreases states.len(),
{
    if states.len() <= 1 {
        0
    } else {
        comparing_steps(states.drop_last()) + if states.last().comparisons_view().len() > 0 {
            1int
        } else {
            0int
        }
    }
}

/// The comparison-step bound over whole runs: along any chain of `step`
/// transitions between well-formed states, the steps that performed a
/// comparison number exactly the drop in the comparison budget — so a
/// chain that starts from a fresh run over `n` bars holds at most
/// `tri(n) == n * (n - 1) / 2` of them, however long it goes on.
pub proof fn lemma_comparison_step_bound(states: Seq<BubbleSortState>)
    requires
        states.len() > 0,
        forall|k: int| 0 <= k < states.len() ==> (#[trigger] states[k]).wf(),
        forall|k: int|
            0 <= k < states.len() - 1 ==> step_transition(
                #[trigger] states[k],
                states[k + 1],
                states[k + 1].is_complete(),
            ),
    ensures
        comparing_steps(states) == states[0].comparisons_remaining()
            - states.last().comparisons_remaining(),
        initial_for(states[0], states[0].bars_view()) ==> comparing_steps(states) <= tri(
            states[0].bars_view().len() as int,
        ),
    decreases states.len(),
{
    if states.len() > 1 {
        let shorter = states.drop_last();
        assert(forall|k: int| 0 <= k < shorter.len() ==> shorter[k] == states[k]);
        lemma_comparison_step_bound(shorter);
        let pre = states[states.len() - 2];
        let post = states.last();
        assert(step_transition(pre, post, post.is_complete()));
        if pre.is_complete() {
            assert(post.comparisons_view().len() == 0);
            assert(post.comparisons_remaining() == pre.comparisons_remaining());
        }
    }
    lemma_comparison_budget(&states.last());
    if initial_for(states[0], states[0].bars_view()) {
        lemma_tri_nonneg(states[0].bars_view().len() as int);
    }
}

pub struct BubbleSort;

impl BubbleSort {
    /// Display label of the algorithm.
    pub fn name(&self) -> (r: &'static str)
        ensures
            r@ == "Bubble Sort"@,
    {
        "Bubble Sort"
    }

    /// The sole constructor: snapshot the input and reset the cursors.  A
    /// run over zero or one bars has nothing to do and starts complete.
    pub fn initial_state(&self, bars: Vec<i32>) -> (s: BubbleSortState)
        ensures
            s.wf(),
            initial_for(s, bars@),
    {
        let complete = bars.len() <= 1;
        let s = BubbleSortState {
            snapshot: Ghost(bars@),
            bars,
            i: 0,
            j: 0,
            complete,
            comparisons: Vec::new(),
            current_indices: Vec::new(),
        };
        proof {
            let n = s.bars@.len() as int;
            assert(tri(0) == 0);
            assert(tri(1) == tri(0) + 0);
            if n > 1 {
                assert(tri(n) == tri(n - 1) + (n - 1));
            }
        }
        s
    }

    /// Advance the run by one primitive operation:
    /// - if the run is already complete (or trivially so), report completion
    ///   and change nothing;
    /// - if the pass has a pair left, compare `(j, j + 1)`, swap it when out
    ///   of order, and advance `j`;
    /// - otherwise roll over to the next pass, completing the run once
    ///   `i >= n - 1`.
    pub fn step(&self, state: &mut BubbleSortState) -> (complete: bool)
        requires
            old(state).wf(),
        ensures
            final(state).wf(),
            is_permutation(final(state).bars_view(), old(state).snapshot_view()),
            final(state).is_complete() ==> sorted(final(state).bars_view()),
            step_transition(*old(state), *final(state), complete),
    {
        if state.complete {
            return true;
        }

        let n = state.bars.len();
        if n <= 1 {
            state.complete = true;
            return true;
        }

        state.comparisons.clear();
        state.current_indices.clear();

        if state.j < n - state.i - 1 {
            let j = state.j;
            state.current_indices.push(j);
            state.current_indices.push(j + 1);
            state.comparisons.push((j, j + 1));

            let ghost b = state.bars@;
            if state.bars[j] > state.bars[j + 1] {
                swap_bars(&mut state.bars, j, j + 1);
            }
            state.j = j + 1;

            proof {
                let jj = j as int;
                let s = state.bars@;
                assert forall|p: int| 0 <= p < jj + 1 implies #[trigger] s[p] <= s[jj + 1] by {
                    assert(prefix_max(b, jj));
                }
                let t = s.len() - state.i;
                assert(jj + 1 < t);
                assert forall|p: int, q: int| 0 <= p < t <= q < s.len() implies s[p]
                    <= s[q] by {
                    assert(tail_settled(b, state.i as int));
                    assert(b[q] == s[q]);
                }
            }
            false
        } else {
            let ghost old_i = state.i as int;
            let ghost old_j = state.j as int;
            state.i = state.i + 1;
            state.j = 0;

            if state.i >= n - 1 {
                state.complete = true;
                state.current_indices.clear();
                state.comparisons.clear();
            }

            proof {
                let s = state.bars@;
                let nn = n as int;
                assert(old_j == nn - 1 - old_i);
                assert(prefix_max(s, nn - 1 - old_i));
                assert(tail_settled(s, old_i));
                let t = nn - old_i - 1;
                assert forall|p: int, q: int| t <= p < q < nn implies s[p] <= s[q] by {
                    if p == t {
                        assert(nn - old_i <= q);
                    } else {
                        assert(nn - old_i <= p);
                    }
                }
                assert forall|p: int, q: int| 0 <= p < t <= q < nn implies s[p] <= s[q] by {
                    if q == t {
                        assert(s[p] <= s[t]);
                    }
                }
                assert(tail_settled(s, old_i + 1));
                assert(tri(nn - 1 - old_i) == tri(nn - 2 - old_i) + (nn - 2 - old_i));
                if state.complete {
                    assert(old_i + 1 == nn - 1);
                    assert forall|p: int, q: int| 0 <= p < q < nn implies s[p] <= s[q] by {
                        if p >= 1 {
                            assert(nn - (old_i + 1) <= p);
                        }
                    }
                    assert(tri(1) == tri(0) + 0);
                    assert(tri(0) == 0);
                }
            }
            state.complete
        }
    }

    /// Snapshot of the working array, for rendering.
    pub fn get_data(&self, state: &BubbleSortState) -> (r: Vec<i32>)
        ensures
            r@ == state.bars_view(),
    {
        state.bars.clone()
    }

    /// The index pairs compared by the last step.
    pub fn get_comparisons(&self, state: &BubbleSortState) -> (r: Vec<(usize, usize)>)
        ensures
            r@ == state.comparisons_view(),
    {
        crate::algorithms::copy_pairs(&state.comparisons)
    }

    /// The indices the last step touched.
    pub fn get_current_indices(&self, state: &BubbleSortState) -> (r: Vec<usize>)
        ensures
            r@ == state.current_indices_view(),
    {
        state.current_indices.clone()
    }
}

} // verus!
