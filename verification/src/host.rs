//! Host-side control rules: run status transitions, stepping-speed bounds,
//! and the deterministic part of the data shuffling and resizing that the
//! interactive host performs around the engines.

use vstd::prelude::*;

verus! {

use crate::algorithms::is_permutation;
use crate::algorithms::lemma_swap_permutes;

/// Whether the host is advancing the active run, holding it, or done.
#[derive(Debug, Clone, Copy, PartialEq, Eq, Structural)]
pub enum AppStatus {
    Running,
    Paused,
    Completed,
}

/// The status transition of the start/pause key: running pauses, paused
/// runs, and a completed run pauses and asks for a fresh shuffled run
/// (the second component).
pub fn toggle_status(status: AppStatus) -> (r: (AppStatus, bool))
    ensures
        status == AppStatus::Running ==> r == (AppStatus::Paused, false),
        status == AppStatus::Paused ==> r == (AppStatus::Running, false),
        status == AppStatus::Completed ==> r == (AppStatus::Paused, true),
{
    match status {
        AppStatus::Running => (AppStatus::Paused, false),
        AppStatus::Paused => (AppStatus::Running, false),
        AppStatus::Completed => (AppStatus::Paused, true),
    }
}

/// A faster cadence: the delay between steps drops by 20 ms, falling
/// straight to the 1 ms floor from 20 ms or below.
pub fn increase_speed_ms(ms: u64) -> (r: u64)
    ensures
        ms == 1 ==> r == 1,
        ms == 20 ==> r == 1,
        ms != 1 && ms != 20 && ms >= 21 ==> r == ms - 20,
        ms != 1 && ms != 20 && ms < 21 ==> r == 1,
{
    if ms == 1 {
        return 1;
    }
    if ms == 20 {
        return 1;
    }
    let lowered = if ms >= 20 {
        ms - 20
    } else {
        0
    };
    if lowered >= 1 {
        lowered
    } else {
        1
    }
}

/// A slower cadence: the delay between steps grows by 20 ms up to the
/// 1000 ms ceiling, except that the 1 ms floor returns to 20 ms.
pub fn decrease_speed_ms(ms: u64) -> (r: u64)
    ensures
        ms == 1 ==> r == 20,
        ms != 1 && ms + 20 <= 1000 ==> r == ms + 20,
        ms != 1 && ms + 20 > 1000 ==> r == 1000,
{
    if ms == 1 {
        return 20;
    }
    if ms <= 980 {
        ms + 20
    } else {
        1000
    }
}

/// The position that the shuffle walk swaps position `i` with:
/// `(seed + i * 17) mod n`, the sum taken with machine wraparound.
pub open spec fn stride_target(seed: usize, i: usize, n: int) -> int
    recommends
        n > 0,
{
    (vstd::wrapping::usize_specs::wrapping_add(
        seed,
        vstd::wrapping::usize_specs::wrapping_mul(i, 17),
    ) as int) % n
}

/// The bars after the first `k` swaps of the shuffle walk over `s`.
pub open spec fn stride_shuffled(s: Seq<i32>, seed: usize, k: int) -> Seq<i32>
    decreases k,
{
    if k <= 0 || s.len() == 0 {
        s
    } else {
        let t = stride_shuffled(s, seed, k - 1);
        let i = k - 1;
        let j = stride_target(seed, (k - 1) as usize, s.len() as int);
        t.update(i, t[j]).update(j, t[i])
    }
}

/// Rearrange the bars with the fixed stride walk the host uses for
/// shuffling, driven by a seed it derives from the clock: position `i`
/// swaps with `(seed + i * 17) mod n`.  Whatever the seed, the bars keep
/// exactly their old values.
pub fn shuffle_bars(bars: &mut Vec<i32>, seed: usize)
    ensures
        final(bars)@.len() == old(bars)@.len(),
        is_permutation(final(bars)@, old(bars)@),
        final(bars)@ == stride_shuffled(old(bars)@, seed, old(bars)@.len() as int),
{
    let n = bars.len();
    if n == 0 {
        return ;
    }
    let mut i: usize = 0;
    while i < n
        invariant
            n == bars@.len(),
            n == old(bars)@.len(),
            n > 0,
            i <= n,
            is_permutation(bars@, old(bars)@),
            bars@ == stride_shuffled(old(bars)@, seed, i as int),
        decreases n - i,
    {
        let j = (seed.wrapping_add(i.wrapping_mul(17))) % n;
        let ghost before = bars@;
        let vi = bars[i];
        let vj = bars[j];
        bars[i] = vj;
        bars[j] = vi;
        proof {
            lemma_swap_permutes(before, i as int, j as int);
            assert(j as int == stride_target(seed, i, n as int));
            assert(((i as int + 1) - 1) as usize == i);
            assert(bars@ == stride_shuffled(old(bars)@, seed, i as int + 1));
        }
        i = i + 1;
    }
}

/// Drop the tallest bar: the last position holding the maximum value is
/// removed, as the host does when the bar count shrinks.
pub fn remove_largest(bars: &mut Vec<i32>)
    requires
        old(bars)@.len() > 0,
    ensures
        final(bars)@.len() == old(bars)@.len() - 1,
        exists|i: int|
            {
                &&& 0 <= i < old(bars)@.len()
                &&& final(bars)@ == old(bars)@.remove(i)
                &&& (forall|j: int| 0 <= j < old(bars)@.len() ==> old(bars)@[j] <= old(bars)@[i])
                &&& (forall|j: int| i < j < old(bars)@.len() ==> old(bars)@[j] < old(bars)@[i])
            },
{
    let mut best: usize = 0;
    let mut k: usize = 1;
    while k < bars.len()
        invariant
            1 <= k <= bars@.len(),
            best < k,
            bars@ == old(bars)@,
            forall|j: int| 0 <= j < k ==> bars@[j] <= bars@[best as int],
            forall|j: int| best < j < k ==> bars@[j] < bars@[best as int],
        decreases bars@.len() - k,
    {
        if bars[k] >= bars[best] {
            best = k;
        }
        k = k + 1;
    }
    bars.remove(best);
    proof {
        assert(0 <= best < old(bars)@.len());
    }
}

/// One more bar, one taller than the count so far, as the host does when
/// the bar count grows; the shuffle then spreads it.
pub fn push_next_bar(bars: &mut Vec<i32>)
    requires
        old(bars)@.len() + 1 <= i32::MAX,
    ensures
        final(bars)@ == old(bars)@.push((old(bars)@.len() + 1) as i32),
{
    let next = bars.len() + 1;
    bars.push(next as i32);
}

} // verus!
