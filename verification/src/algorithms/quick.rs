//! Quick-sort stepper: recursion rewritten as an explicit stack of
//! resumable partition frames, advancing one pivot announcement, one
//! comparison, or one pivot placement per call.

use vstd::prelude::*;

verus! {

use crate::algorithms::{sorted, is_permutation, swap_bars, copy_pairs};

/// One pending sub-range `[low, high]` of the array awaiting partitioning,
/// analogous to one recursive call's activation record.
pub struct QuickSortCall {
    low: usize,
    high: usize,
    pivot_index: Option<usize>,
    partition_i: usize,
    partition_j: usize,
    partitioning: bool,
    pivot_placed: bool,
}

impl QuickSortCall {
    pub closed spec fn low_spec(&self) -> int {
        self.low as int
    }

    pub closed spec fn high_spec(&self) -> int {
        self.high as int
    }

    pub closed spec fn is_partitioning(&self) -> bool {
        self.partitioning
    }

    pub closed spec fn partition_i_spec(&self) -> int {
        self.partition_i as int
    }

    pub closed spec fn partition_j_spec(&self) -> int {
        self.partition_j as int
    }

    pub closed spec fn pivot_index_spec(&self) -> Option<usize> {
        self.pivot_index
    }

    pub closed spec fn pivot_placed_spec(&self) -> bool {
        self.pivot_placed
    }
}

/// A frame exactly as first pushed for the range `[low, high]`: not yet
/// partitioning, no pivot chosen or placed, both cursors at rest.  This
/// determines every field of the frame.
pub open spec fn fresh_range(f: QuickSortCall, low: int, high: int) -> bool {
    &&& f.low_spec() == low
    &&& f.high_spec() == high
    &&& !f.is_partitioning()
    &&& !f.pivot_placed_spec()
    &&& f.pivot_index_spec() is None
    &&& f.partition_i_spec() == 0
    &&& f.partition_j_spec() == 0
}

/// A frame mid-partition over `[low, high]`, its pivot at the last
/// position of the range and its cursors at `pi` and `pj`.  This
/// determines every field of the frame.
pub open spec fn partitioning_range(f: QuickSortCall, low: int, high: int, pi: int, pj: int) -> bool {
    &&& f.low_spec() == low
    &&& f.high_spec() == high
    &&& f.is_partitioning()
    &&& !f.pivot_placed_spec()
    &&& f.pivot_index_spec() == Some((high as usize))
    &&& f.partition_i_spec() == pi
    &&& f.partition_j_spec() == pj
}

/// A frame not yet begun: no pivot chosen, cursors at rest.
spec fn frame_fresh(f: QuickSortCall) -> bool {
    &&& !f.partitioning
    &&& !f.pivot_placed
    &&& f.pivot_index is None
    &&& f.partition_i == 0
    &&& f.partition_j == 0
}

spec fn frame_bounds(f: QuickSortCall, n: int) -> bool {
    f.low <= f.high && (f.high as int) < n
}

/// Mid-partition shape of the one frame that may be partitioning (the top):
/// the pivot is the last position of the range, values left of
/// `partition_i` are below the pivot, values from `partition_i` up to
/// `partition_j` are not.
spec fn frame_partitioning_wf(f: QuickSortCall, bars: Seq<i32>) -> bool {
    &&& f.pivot_index == Some(f.high)
    &&& !f.pivot_placed
    &&& f.low < f.high
    &&& f.low <= f.partition_i <= f.partition_j <= f.high
    &&& forall|k: int| f.low <= k < f.partition_i ==> #[trigger] bars[k] < bars[f.high as int]
    &&& forall|k: int|
        f.partition_i <= k < f.partition_j ==> #[trigger] bars[k] >= bars[f.high as int]
}

/// Stack frames are disjoint ranges, ordered left to right from the bottom
/// of the stack to the top.
spec fn frames_ordered(st: Seq<QuickSortCall>) -> bool {
    forall|a: int, b: int|
        0 <= a < b < st.len() ==> (#[trigger] st[a]).high < (#[trigger] st[b]).low
}

spec fn frames_bounded(st: Seq<QuickSortCall>, n: int) -> bool {
    forall|k: int| 0 <= k < st.len() ==> frame_bounds(#[trigger] st[k], n)
}

/// Every frame except possibly the top is untouched.
spec fn frames_below_fresh(st: Seq<QuickSortCall>) -> bool {
    forall|k: int| 0 <= k < st.len() - 1 ==> frame_fresh(#[trigger] st[k])
}

/// Both positions lie inside the range of one pending frame.
spec fn covered(st: Seq<QuickSortCall>, p: int, q: int) -> bool {
    exists|k: int| 0 <= k < st.len() && (#[trigger] st[k]).low <= p && q <= st[k].high
}

/// Outside the pending ranges the array already stands in its final order:
/// any two positions not spanned by a single frame are sorted relative to
/// each other.  With an empty stack this is sortedness of the whole array.
spec fn outside_sorted(bars: Seq<i32>, st: Seq<QuickSortCall>) -> bool {
    forall|p: int, q: int|
        #![trigger bars[p], bars[q]]
        0 <= p < q < bars.len() && !covered(st, p, q) ==> bars[p] <= bars[q]
}

/// The stack with its trailing trivially-sorted ranges (`low >= high`)
/// discarded, as a single `step` call does before doing real work.
pub open spec fn drop_trivial(st: Seq<QuickSortCall>) -> Seq<QuickSortCall>
    decreases st.len(),
{
    if st.len() == 0 {
        st
    } else if st.last().low_spec() >= st.last().high_spec() {
        drop_trivial(st.drop_last())
    } else {
        st
    }
}

/// Swapping two values inside the range of one frame keeps every
/// constraint that `outside_sorted` states, because those constraints
/// bound all of the frame's values at once.
proof fn lemma_swap_in_frame(b: Seq<i32>, st: Seq<QuickSortCall>, t: int, x: int, y: int)
    requires
        frames_ordered(st),
        frames_bounded(st, b.len() as int),
        0 <= t < st.len(),
        st[t].low <= x <= st[t].high,
        st[t].low <= y <= st[t].high,
        outside_sorted(b, st),
    ensures
        outside_sorted(b.update(x, b[y]).update(y, b[x]), st),
{
    let b2 = b.update(x, b[y]).update(y, b[x]);
    assert(b2.len() == b.len());
    assert forall|p: int, q: int|
        0 <= p < q < b2.len() && !covered(st, p, q) implies #[trigger] b2[p]
        <= #[trigger] b2[q] by {
        let lo = st[t].low as int;
        let hi = st[t].high as int;
        if p == x || p == y {
            // q cannot share the frame with p, so it lies beyond the range
            // and bounds every value of the range, including the one that
            // arrived at p by the swap.
            assert(!(lo <= q <= hi));
            assert(q > hi);
            let src: int = if p == x { y } else { x };
            assert(b2[p] == b[src]);
            assert(!covered(st, src, q)) by {
                if covered(st, src, q) {
                    let k = choose|k: int|
                        0 <= k < st.len() && (#[trigger] st[k]).low <= src && q <= st[k].high;
                    assert(st[k].low <= src <= st[k].high);
                    if k < t {
                        assert(st[k].high < st[t].low);
                    } else if k > t {
                        assert(st[t].high < st[k].low);
                    }
                    assert(k == t);
                    assert(q <= hi);
                }
            }
            assert(b[src] <= b[q]);
            assert(b2[q] == b[q]);
        } else if q == x || q == y {
            assert(!(lo <= p <= hi));
            assert(p < lo);
            let src: int = if q == x { y } else { x };
            assert(b2[q] == b[src]);
            assert(!covered(st, p, src)) by {
                if covered(st, p, src) {
                    let k = choose|k: int|
                        0 <= k < st.len() && (#[trigger] st[k]).low <= p && src <= st[k].high;
                    assert(st[k].low <= src <= st[k].high);
                    if k < t {
                        assert(st[k].high < st[t].low);
                    } else if k > t {
                        assert(st[t].high < st[k].low);
                    }
                    assert(k == t);
                    assert(lo <= p);
                }
            }
            assert(b[p] <= b[src]);
            assert(b2[p] == b[p]);
        } else {
            assert(b2[p] == b[p]);
            assert(b2[q] == b[q]);
        }
    }
}

/// Replacing the top frame by one spanning the same range changes nothing
/// that `outside_sorted`, ordering or bounds depend on.
proof fn lemma_retop_same_range(
    bars: Seq<i32>,
    st: Seq<QuickSortCall>,
    f: QuickSortCall,
    g: QuickSortCall,
)
    requires
        g.low == f.low,
        g.high == f.high,
        frames_ordered(st.push(f)),
        frames_bounded(st.push(f), bars.len() as int),
        frames_below_fresh(st.push(f)),
        outside_sorted(bars, st.push(f)),
    ensures
        frames_ordered(st.push(g)),
        frames_bounded(st.push(g), bars.len() as int),
        frames_below_fresh(st.push(g)),
        outside_sorted(bars, st.push(g)),
{
    let s1 = st.push(f);
    let s2 = st.push(g);
    assert(forall|k: int| 0 <= k < st.len() ==> s2[k] == s1[k]);
    assert forall|a: int, b: int|
        0 <= a < b < s2.len() implies (#[trigger] s2[a]).high < (#[trigger] s2[b]).low by {
        assert(s1[a].high < s1[b].low);
        if b == st.len() {
            assert(s2[a] == s1[a]);
        }
    }
    assert forall|k: int| 0 <= k < s2.len() implies frame_bounds(#[trigger] s2[k], bars.len() as int) by {
        assert(frame_bounds(s1[k], bars.len() as int));
    }
    assert forall|k: int| 0 <= k < s2.len() - 1 implies frame_fresh(#[trigger] s2[k]) by {
        assert(s2[k] == s1[k]);
        assert(frame_fresh(s1[k]));
    }
    assert forall|p: int, q: int|
        0 <= p < q < bars.len() && !covered(s2, p, q) implies #[trigger] bars[p]
        <= #[trigger] bars[q] by {
        assert(!covered(s1, p, q)) by {
            if covered(s1, p, q) {
                let k = choose|k: int|
                    0 <= k < s1.len() && (#[trigger] s1[k]).low <= p && q <= s1[k].high;
                if k < st.len() {
                    assert(s2[k].low <= p && q <= s2[k].high);
                } else {
                    assert(s2[st.len() as int].low <= p && q <= s2[st.len() as int].high);
                }
                assert(covered(s2, p, q));
            }
        }
    }
}

/// Discarding a trailing trivially-sorted range (zero or one positions)
/// forfeits no ordering constraint: a single position spans no pair.
proof fn lemma_drop_trivial_top(bars: Seq<i32>, st: Seq<QuickSortCall>)
    requires
        st.len() > 0,
        st.last().low >= st.last().high,
        outside_sorted(bars, st),
    ensures
        outside_sorted(bars, st.drop_last()),
{
    let s2 = st.drop_last();
    assert forall|p: int, q: int|
        0 <= p < q < bars.len() && !covered(s2, p, q) implies #[trigger] bars[p]
        <= #[trigger] bars[q] by {
        assert(!covered(st, p, q)) by {
            if covered(st, p, q) {
                let k = choose|k: int|
                    0 <= k < st.len() && (#[trigger] st[k]).low <= p && q <= st[k].high;
                if k < st.len() - 1 {
                    assert(s2[k].low <= p && q <= s2[k].high);
                    assert(covered(s2, p, q));
                } else {
                    assert(st[k].low <= p < q <= st[k].high);
                }
            }
        }
    }
}

spec fn child_frame(low: int, high: int) -> QuickSortCall {
    QuickSortCall {
        low: low as usize,
        high: high as usize,
        pivot_index: None,
        partition_i: 0,
        partition_j: 0,
        partitioning: false,
        pivot_placed: false,
    }
}

/// The stack after a pivot placement: the partitioning frame replaced by
/// its non-empty sub-ranges, the left one pushed before the right.
spec fn add_children(below: Seq<QuickSortCall>, f: QuickSortCall) -> Seq<QuickSortCall> {
    let pi = f.partition_i as int;
    let st1 = if pi > f.low {
        below.push(child_frame(f.low as int, pi - 1))
    } else {
        below
    };
    if pi < f.high {
        st1.push(child_frame(pi + 1, f.high as int))
    } else {
        st1
    }
}

/// Placing the pivot — swapping it to `partition_i` and splitting the range
/// into the two sub-ranges beside it — keeps the stack disjoint, ordered,
/// bounded and fresh, and restores `outside_sorted`: the pivot position
/// leaves every pending range already in its final order.
proof fn lemma_place_pivot(b: Seq<i32>, below: Seq<QuickSortCall>, f: QuickSortCall)
    requires
        frames_bounded(below.push(f), b.len() as int),
        frames_ordered(below.push(f)),
        frames_below_fresh(below.push(f)),
        frame_partitioning_wf(f, b),
        f.partition_j == f.high,
        outside_sorted(b, below.push(f)),
    ensures
        ({
            let pi = f.partition_i as int;
            let hi = f.high as int;
            let b2 = b.update(pi, b[hi]).update(hi, b[pi]);
            let st2 = add_children(below, f);
            &&& frames_bounded(st2, b.len() as int)
            &&& frames_ordered(st2)
            &&& frames_below_fresh(st2)
            &&& st2.len() > 0
            &&& frame_fresh(st2.last())
            &&& outside_sorted(b2, st2)
        }),
{
    let n = b.len() as int;
    let pi = f.partition_i as int;
    let lo = f.low as int;
    let hi = f.high as int;
    let bl = below.len() as int;
    let full = below.push(f);
    let b2 = b.update(pi, b[hi]).update(hi, b[pi]);
    let st2 = add_children(below, f);

    lemma_swap_in_frame(b, full, full.len() - 1, pi, hi);

    assert forall|x: int|
        0 <= x < bl implies (#[trigger] below[x]).high < lo && frame_bounds(below[x], n)
            && frame_fresh(below[x]) by {
        assert(full[x] == below[x]);
        assert(full[x].high < full[bl].low);
        assert(frame_bounds(full[x], n));
        assert(frame_fresh(full[x]));
    }

    // Values around the placed pivot.
    assert(b2[pi] == b[hi]);
    assert forall|z: int| lo <= z < pi implies b2[z] < b2[pi] by {
        assert(b2[z] == b[z]);
        assert(b[z] < b[hi]);
    }
    assert forall|z: int| pi < z <= hi implies b2[z] >= b2[pi] by {
        if z == hi {
            assert(b2[hi] == b[pi]);
            assert(b[pi] >= b[hi]);
        } else {
            assert(b2[z] == b[z]);
            assert(b[z] >= b[hi]);
        }
    }

    // Shape of the new stack: the children sit above the old frames, both
    // inside the old range, both fresh, on either side of the pivot.
    assert(st2.len() == bl + (if pi > lo { 1int } else { 0int }) + (if pi < hi { 1int } else { 0int }));
    assert(st2.len() > bl);
    assert forall|x: int| 0 <= x < bl implies #[trigger] st2[x] == below[x] by {}
    assert forall|x: int|
        bl <= x < st2.len() implies lo <= (#[trigger] st2[x]).low && st2[x].low <= st2[x].high
            && (st2[x].high as int) <= hi && frame_fresh(st2[x]) by {
        if pi > lo && x == bl {
            assert(st2[x] == child_frame(lo, pi - 1));
        } else {
            assert(st2[x] == child_frame(pi + 1, hi));
        }
    }
    assert forall|k: int| 0 <= k < st2.len() implies frame_bounds(#[trigger] st2[k], n) by {
        if k < bl {
            assert(st2[k] == below[k]);
        }
    }
    assert forall|a2: int, b3: int|
        0 <= a2 < b3 < st2.len() implies (#[trigger] st2[a2]).high < (#[trigger] st2[b3]).low by {
        if b3 < bl {
            assert(full[a2].high < full[b3].low);
        } else if a2 < bl {
            assert(below[a2].high < lo);
        } else {
            // two children: a2 is the left one, b3 the right one
            assert(pi > lo && pi < hi);
            assert(st2[a2] == child_frame(lo, pi - 1));
            assert(st2[b3] == child_frame(pi + 1, hi));
        }
    }
    assert(frames_below_fresh(st2));
    assert(frame_fresh(st2.last()));

    // Pairs the old top frame spanned but no child spans straddle the
    // pivot position and are settled by the pivot facts.
    assert forall|p: int, q: int|
        0 <= p < q < b2.len() && !covered(st2, p, q) implies #[trigger] b2[p] <= #[trigger] b2[q] by {
        if covered(full, p, q) {
            let k = choose|k: int|
                0 <= k < full.len() && (#[trigger] full[k]).low <= p && q <= full[k].high;
            if k < bl {
                assert(st2[k] == below[k] && below[k] == full[k]);
                assert(covered(st2, p, q));
            } else {
                assert(lo <= p < q <= hi);
                if q < pi {
                    assert(pi > lo);
                    assert(st2[bl] == child_frame(lo, pi - 1));
                    assert(st2[bl].low <= p && q <= st2[bl].high);
                    assert(covered(st2, p, q));
                } else if p > pi {
                    assert(pi < hi);
                    let r: int = if pi > lo {
                        bl + 1
                    } else {
                        bl
                    };
                    assert(st2[r] == child_frame(pi + 1, hi));
                    assert(st2[r].low <= p && q <= st2[r].high);
                    assert(covered(st2, p, q));
                } else {
                    if p == pi {
                        assert(b2[q] >= b2[pi]);
                    } else if q == pi {
                        assert(b2[p] < b2[pi]);
                    } else {
                        assert(b2[p] < b2[pi]);
                        assert(b2[q] >= b2[pi]);
                    }
                }
            }
        }
    }
}

pub struct QuickSortState {
    bars: Vec<i32>,
    call_stack: Vec<QuickSortCall>,
    complete: bool,
    current_indices: Vec<usize>,
    comparisons: Vec<(usize, usize)>,
    pivot_index: Option<usize>,
    snapshot: Ghost<Seq<i32>>,
}

impl QuickSortState {
    /// The working array.
    pub closed spec fn bars_view(&self) -> Seq<i32> {
        self.bars@
    }

    /// The array the run started from.
    pub closed spec fn snapshot_view(&self) -> Seq<i32> {
        self.snapshot@
    }

    pub closed spec fn is_complete(&self) -> bool {
        self.complete
    }

    pub closed spec fn stack_view(&self) -> Seq<QuickSortCall> {
        self.call_stack@
    }

    pub open spec fn stack_len(&self) -> int {
        self.stack_view().len() as int
    }

    pub closed spec fn pivot_spec(&self) -> Option<usize> {
        self.pivot_index
    }

    pub closed spec fn comparisons_view(&self) -> Seq<(usize, usize)> {
        self.comparisons@
    }

    pub closed spec fn current_indices_view(&self) -> Seq<usize> {
        self.current_indices@
    }

    /// The touched indices as the host sees them: the raw list, with the
    /// last-known pivot appended when it is not already present.
    pub open spec fn indices_with_pivot(&self) -> Seq<usize> {
        match self.pivot_spec() {
            Some(p) => if self.current_indices_view().contains(p) {
                self.current_indices_view()
            } else {
                self.current_indices_view().push(p)
            },
            None => self.current_indices_view(),
        }
    }

    pub closed spec fn wf(&self) -> bool {
        let n = self.bars@.len() as int;
        let st = self.call_stack@;
        &&& is_permutation(self.bars@, self.snapshot@)
        &&& (self.complete <==> st.len() == 0)
        &&& frames_bounded(st, n)
        &&& frames_ordered(st)
        &&& frames_below_fresh(st)
        &&& (st.len() > 0 ==> frame_fresh(st.last()) || frame_partitioning_wf(
            st.last(),
            self.bars@,
        ))
        &&& outside_sorted(self.bars@, st)
        &&& (self.pivot_index matches Some(p) ==> (p as int) < n)
        &&& forall|k: int|
            0 <= k < self.comparisons@.len() ==> ((#[trigger] self.comparisons@[k]).0 as int) < n
                && (self.comparisons@[k].1 as int) < n
        &&& forall|k: int|
            0 <= k < self.current_indices@.len() ==> ((#[trigger] self.current_indices@[k]) as int)
                < n
        &&& (self.complete ==> self.comparisons@.len() == 0 && self.current_indices@.len() == 0
            && self.pivot_index is None)
    }
}

/// A complete well-formed run has nothing pending, so the whole array is
/// in order.
pub proof fn lemma_complete_sorted(s: &QuickSortState)
    requires
        s.wf(),
        s.is_complete(),
    ensures
        sorted(s.bars_view()),
{
    let b = s.bars_view();
    assert forall|p: int, q: int| 0 <= p < q < b.len() implies b[p] <= b[q] by {
        assert(!covered(s.stack_view(), p, q));
    }
}

/// Facts every well-formed quick-sort run guarantees: the working array is
/// a permutation of the run's input, the pending-work stack is empty
/// exactly when the run is complete, and a complete run is sorted and
/// reports no touched indices and no compared pairs.
pub proof fn lemma_quick_invariants(s: QuickSortState)
    requires
        s.wf(),
    ensures
        is_permutation(s.bars_view(), s.snapshot_view()),
        s.is_complete() <==> s.stack_len() == 0,
        s.is_complete() ==> sorted(s.bars_view()) && s.comparisons_view().len() == 0
            && s.current_indices_view().len() == 0 && s.pivot_spec() is None,
{
    if s.is_complete() {
        lemma_complete_sorted(&s);
    }
}

/// Low ends of the pending ranges grow at least one per level, so a stack
/// over `n` positions can never be deeper than `n`.
proof fn lemma_lows_grow(st: Seq<QuickSortCall>, n: int, k: int)
    requires
        frames_ordered(st),
        frames_bounded(st, n),
        0 <= k < st.len(),
    ensures
        st[k].low >= k,
    decreases k,
{
    if k > 0 {
        lemma_lows_grow(st, n, k - 1);
        assert(st[k - 1].high < st[k].low);
        assert(frame_bounds(st[k - 1], n));
    }
}

/// The pending-work stack is empty exactly when the run is complete, and
/// its depth never exceeds the length of the array.
pub proof fn lemma_stack_depth(s: &QuickSortState)
    requires
        s.wf(),
    ensures
        s.stack_len() <= s.bars_view().len(),
        s.is_complete() <==> s.stack_len() == 0,
{
    let st = s.stack_view();
    let n = s.bars_view().len() as int;
    if st.len() > 0 {
        lemma_lows_grow(st, n, st.len() - 1);
        assert(frame_bounds(st[st.len() - 1], n));
    }
}

/// The state a fresh quick-sort run over `bars` starts from: one untouched
/// frame spanning the whole array when there are at least two bars,
/// nothing highlighted, no pivot yet, and — when there are fewer than two
/// bars — an empty stack and a run already complete.
pub open spec fn initial_for(s: QuickSortState, bars: Seq<i32>) -> bool {
    &&& s.bars_view() == bars
    &&& s.snapshot_view() == bars
    &&& (s.is_complete() <==> bars.len() <= 1)
    &&& s.stack_len() == if bars.len() <= 1 {
        0int
    } else {
        1int
    }
    &&& (bars.len() > 1 ==> {
        &&& drop_trivial(s.stack_view()) == s.stack_view()
        &&& fresh_range(s.stack_view().last(), 0, bars.len() - 1)
    })
    &&& s.comparisons_view().len() == 0
    &&& s.current_indices_view().len() == 0
    &&& s.indices_with_pivot().len() == 0
    &&& s.pivot_spec() is None
}

/// Everything one quick-sort step does, relating the state before a
/// `step` call to the state after it and to the reported completion flag.
/// A call first discards the trailing trivially-sorted ranges; what it
/// then does depends on the top pending frame: announce a pivot for a
/// fresh range, perform one partition comparison (swapping a value that
/// belongs left of the pivot), or place the pivot and split the range.
/// An already complete run — and one whose pending work was all trivial —
/// reports completion with the array untouched and nothing highlighted.
pub open spec fn step_transition(
    pre: QuickSortState,
    post: QuickSortState,
    complete: bool,
) -> bool {
    &&& complete == post.is_complete()
    &&& post.snapshot_view() == pre.snapshot_view()
    &&& post.bars_view().len() == pre.bars_view().len()
    &&& (pre.is_complete() ==> {
        &&& complete
        &&& post.bars_view() == pre.bars_view()
        &&& post.stack_len() == 0
        &&& post.comparisons_view().len() == 0
        &&& post.current_indices_view().len() == 0
        &&& post.pivot_spec() is None
    })
    &&& (!pre.is_complete() && drop_trivial(pre.stack_view()).len() == 0 ==> {
        &&& complete
        &&& post.bars_view() == pre.bars_view()
        &&& post.stack_len() == 0
        &&& post.comparisons_view().len() == 0
        &&& post.current_indices_view().len() == 0
        &&& post.pivot_spec() is None
    })
    &&& (!pre.is_complete() && drop_trivial(pre.stack_view()).len() > 0 ==> {
        let live = drop_trivial(pre.stack_view());
        let f = live.last();
        let b = pre.bars_view();
        let lo = f.low_spec();
        let hi = f.high_spec();
        &&& !complete
        &&& (!f.is_partitioning() ==> {
            &&& post.bars_view() == b
            &&& post.pivot_spec() == Some((hi as usize))
            &&& post.comparisons_view().len() == 0
            &&& post.current_indices_view() =~= seq![(hi as usize)]
            &&& post.stack_view().drop_last() == live.drop_last()
            &&& post.stack_len() == live.len()
            &&& partitioning_range(post.stack_view().last(), lo, hi, lo, lo)
        })
        &&& (f.is_partitioning() && f.partition_j_spec() < hi ==> {
            let pj = f.partition_j_spec();
            let pi = f.partition_i_spec();
            let swaps = b[pj] < b[hi];
            &&& post.comparisons_view() =~= seq![((pj as usize), (hi as usize))]
            &&& post.current_indices_view() =~= seq![
                (pj as usize),
                (hi as usize),
                (pi as usize),
            ]
            &&& post.pivot_spec() == pre.pivot_spec()
            &&& post.bars_view() == (if swaps {
                b.update(pi, b[pj]).update(pj, b[pi])
            } else {
                b
            })
            &&& post.stack_view().drop_last() == live.drop_last()
            &&& post.stack_len() == live.len()
            &&& partitioning_range(
                post.stack_view().last(),
                lo,
                hi,
                if swaps {
                    pi + 1
                } else {
                    pi
                },
                pj + 1,
            )
        })
        &&& (f.is_partitioning() && f.partition_j_spec() == hi ==> {
            let pi = f.partition_i_spec();
            let bl = live.len() - 1;
            &&& post.bars_view() == b.update(pi, b[hi]).update(hi, b[pi])
            &&& post.pivot_spec() == Some((pi as usize))
            &&& post.comparisons_view().len() == 0
            &&& post.current_indices_view() =~= seq![(pi as usize)]
            &&& post.stack_len() == bl + (if pi > lo {
                1int
            } else {
                0int
            }) + (if pi < hi {
                1int
            } else {
                0int
            })
            &&& (forall|k: int| 0 <= k < bl ==> post.stack_view()[k] == live[k])
            &&& (pi > lo ==> fresh_range(post.stack_view()[bl], lo, pi - 1))
            &&& (pi < hi ==> fresh_range(post.stack_view().last(), pi + 1, hi))
        })
    })
}

pub struct QuickSort;

impl QuickSort {
    /// Display label of the algorithm.
    pub fn name(&self) -> (r: &'static str)
        ensures
            r@ == "Quick Sort"@,
    {
        "Quick Sort"
    }

    /// The sole constructor: snapshot the input, and push one frame
    /// spanning the whole array when there are at least two bars;
    /// otherwise the run starts complete.
    pub fn initial_state(&self, bars: Vec<i32>) -> (s: QuickSortState)
        ensures
            s.wf(),
            initial_for(s, bars@),
    {
        let mut state = QuickSortState {
            snapshot: Ghost(bars@),
            bars,
            call_stack: Vec::new(),
            complete: false,
            current_indices: Vec::new(),
            comparisons: Vec::new(),
            pivot_index: None,
        };

        if state.bars.len() > 1 {
            state.call_stack.push(QuickSortCall {
                low: 0,
                high: state.bars.len() - 1,
                pivot_index: None,
                partition_i: 0,
                partition_j: 0,
                partitioning: false,
                pivot_placed: false,
            });
            proof {
                let st = state.call_stack@;
                let b = state.bars@;
                assert forall|p: int, q: int|
                    0 <= p < q < b.len() && !covered(st, p, q) implies #[trigger] b[p]
                    <= #[trigger] b[q] by {
                    assert(st[0].low <= p && q <= st[0].high);
                    assert(covered(st, p, q));
                }
            }
        } else {
            state.complete = true;
        }

        state
    }

    /// Advance the run by one primitive operation: discard any trailing
    /// trivially-sorted ranges, then either announce a pivot for the top
    /// range, perform one partition comparison (swapping when the value
    /// belongs left of the pivot), or place the pivot and split the range;
    /// when nothing is pending, report completion and change nothing.
    #[verifier::rlimit(60)]
    pub fn step(&self, state: &mut QuickSortState) -> (complete: bool)
        requires
            old(state).wf(),
        ensures
            final(state).wf(),
            is_permutation(final(state).bars_view(), old(state).snapshot_view()),
            final(state).is_complete() ==> sorted(final(state).bars_view()),
            step_transition(*old(state), *final(state), complete),
    {
        if state.complete {
            state.current_indices.clear();
            state.comparisons.clear();
            state.pivot_index = None;
            return true;
        }

        state.current_indices.clear();
        state.comparisons.clear();

        let ghost n = state.bars@.len() as int;
        let ghost orig_stack = state.call_stack@;

        let mut current = state.call_stack.pop().unwrap();
        proof {
            assert(state.call_stack@.push(current) =~= orig_stack);
        }

        // Discard trivially sorted ranges (zero or one positions); a single
        // call may skip a chain of them before doing real work, and may
        // exhaust the stack doing so.
        while current.low >= current.high
            invariant
                state.bars@.len() == n,
                state.bars@ == old(state).bars@,
                state.snapshot == old(state).snapshot,
                state.pivot_index == old(state).pivot_index,
                state.comparisons@.len() == 0,
                state.current_indices@.len() == 0,
                !state.complete,
                !old(state).is_complete(),
                orig_stack == old(state).stack_view(),
                old(state).wf(),
                is_permutation(state.bars@, state.snapshot@),
                frames_bounded(state.call_stack@.push(current), n),
                frames_ordered(state.call_stack@.push(current)),
                frames_below_fresh(state.call_stack@.push(current)),
                frame_fresh(current) || frame_partitioning_wf(current, state.bars@),
                outside_sorted(state.bars@, state.call_stack@.push(current)),
                drop_trivial(state.call_stack@.push(current)) == drop_trivial(orig_stack),
            decreases state.call_stack@.len(),
        {
            proof {
                let full = state.call_stack@.push(current);
                assert(full.drop_last() =~= state.call_stack@);
                assert(drop_trivial(full) == drop_trivial(state.call_stack@));
                lemma_drop_trivial_top(state.bars@, full);
            }
            if state.call_stack.len() == 0 {
                state.complete = true;
                state.pivot_index = None;
                proof {
                    assert(drop_trivial(state.call_stack@).len() == 0);
                    assert(orig_stack == old(state).stack_view());
                    assert(drop_trivial(old(state).stack_view()).len() == 0);
                    lemma_complete_sorted(state);
                }
                return true;
            }
            let ghost prev = state.call_stack@;
            current = state.call_stack.pop().unwrap();
            proof {
                assert(prev.drop_last().push(current) =~= prev);
            }
        }

        let ghost below = state.call_stack@;
        let ghost full = below.push(current);
        let ghost live = drop_trivial(orig_stack);
        proof {
            assert(live == full);
            assert(live.last() == current);
        }

        if !current.partitioning {
            // Announce the pivot: last position of the range.
            let ghost before = current;
            current.partitioning = true;
            current.pivot_index = Some(current.high);
            current.partition_i = current.low;
            current.partition_j = current.low;

            state.pivot_index = Some(current.high);
            state.current_indices.push(current.high);

            proof {
                lemma_retop_same_range(state.bars@, below, before, current);
            }
            state.call_stack.push(current);
            proof {
                assert(state.call_stack@.drop_last() =~= below);
                assert(live.drop_last() =~= below);
            }
            return false;
        }

        proof {
            assert(frame_partitioning_wf(current, state.bars@));
        }
        let pivot_idx = current.pivot_index.unwrap();
        proof {
            assert(pivot_idx == current.high);
        }
        let pivot_value = state.bars[pivot_idx];

        if current.partition_j < current.high {
            // One partition comparison; values below the pivot move left.
            let pj = current.partition_j;
            let pi = current.partition_i;
            state.comparisons.push((pj, pivot_idx));
            state.current_indices.push(pj);
            state.current_indices.push(pivot_idx);
            state.current_indices.push(pi);

            let ghost before = current;
            let ghost b = state.bars@;
            if state.bars[pj] < pivot_value {
                swap_bars(&mut state.bars, pi, pj);
                current.partition_i = pi + 1;
                proof {
                    lemma_swap_in_frame(b, full, full.len() - 1, pi as int, pj as int);
                }
            }
            current.partition_j = pj + 1;

            proof {
                let b2 = state.bars@;
                lemma_retop_same_range(b2, below, before, current);
                let hi = current.high as int;
                assert(b2[hi] == b[hi]);
                assert forall|k: int|
                    current.low <= k < current.partition_i implies b2[k] < b2[hi] by {
                    if b[pj as int] < b[hi] {
                        if k < pi {
                            assert(b2[k] == b[k]);
                        } else {
                            assert(k == pi);
                            assert(b2[k] == b[pj as int]);
                        }
                    } else {
                        assert(b2[k] == b[k]);
                    }
                }
                assert forall|k: int|
                    current.partition_i <= k < current.partition_j implies b2[k] >= b2[hi] by {
                    if b[pj as int] < b[hi] {
                        if k == pj {
                            assert(pi <= pj);
                            if pi < pj {
                                assert(b2[k] == b[pi as int]);
                            } else {
                                assert(b2 =~= b.update(pi as int, b[pi as int]).update(
                                    pi as int,
                                    b[pi as int],
                                ));
                                assert(b2[k] == b[k]);
                            }
                        } else {
                            assert(b2[k] == b[k]);
                        }
                    } else {
                        assert(b2[k] == b[k]);
                    }
                }
                assert(frame_partitioning_wf(current, b2));
            }
            state.call_stack.push(current);
            proof {
                assert(state.call_stack@.drop_last() =~= below);
                assert(live.drop_last() =~= below);
            }
            return false;
        }

        // Partition boundary reached: place the pivot at `partition_i` and
        // split the range around it.
        let pi = current.partition_i;
        let low = current.low;
        let high = current.high;
        let ghost fsnap = current;
        let ghost b = state.bars@;

        swap_bars(&mut state.bars, pi, pivot_idx);
        current.pivot_placed = true;

        proof {
            lemma_place_pivot(b, below, fsnap);
        }

        if pi > low {
            state.call_stack.push(QuickSortCall {
                low,
                high: pi - 1,
                pivot_index: None,
                partition_i: 0,
                partition_j: 0,
                partitioning: false,
                pivot_placed: false,
            });
        }

        if pi < high {
            state.call_stack.push(QuickSortCall {
                low: pi + 1,
                high,
                pivot_index: None,
                partition_i: 0,
                partition_j: 0,
                partitioning: false,
                pivot_placed: false,
            });
        }

        state.pivot_index = Some(pi);
        state.current_indices.push(pi);

        proof {
            assert(state.call_stack@ =~= add_children(below, fsnap));
        }
        false
    }

    /// Snapshot of the working array, for rendering.
    pub fn get_data(&self, state: &QuickSortState) -> (r: Vec<i32>)
        ensures
            r@ == state.bars_view(),
    {
        state.bars.clone()
    }

    /// The index pairs compared by the last step.
    pub fn get_comparisons(&self, state: &QuickSortState) -> (r: Vec<(usize, usize)>)
        ensures
            r@ == state.comparisons_view(),
    {
        copy_pairs(&state.comparisons)
    }

    /// The indices the last step touched, with the last-known pivot
    /// appended when it is not already among them, so the pivot stays
    /// visually distinguishable.
    pub fn get_current_indices(&self, state: &QuickSortState) -> (r: Vec<usize>)
        ensures
            r@ == state.indices_with_pivot(),
    {
        let mut indices = state.current_indices.clone();

        if let Some(pivot) = state.pivot_index {
            if !contains_index(&indices, pivot) {
                indices.push(pivot);
            }
        }

        indices
    }
}

/// Linear scan for an index in a list.
fn contains_index(v: &Vec<usize>, x: usize) -> (r: bool)
    ensures
        r == v@.contains(x),
{
    let mut k: usize = 0;
    while k < v.len()
        invariant
            k <= v@.len(),
            forall|m: int| 0 <= m < k ==> v@[m] != x,
        decreases v@.len() - k,
    {
        if v[k] == x {
            return true;
        }
        k = k + 1;
    }
    false
}

} // verus!
