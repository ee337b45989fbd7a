//! Finding a moment among a channel's keys.

use super::bits::{greater, is_greater, not_a_number, Bits};
use vstd::prelude::*;

verus! {

/// Where a moment falls among keys.
#[derive(Debug, Clone, Copy, PartialEq, Eq, Structural)]
pub enum Sampled {
    /// At or beyond one end: the channel holds that key's value.
    Held(usize),
    /// After one key and not after the next.
    Between(usize, usize),
}

/// Whether keys are in the order of their times.
pub open spec fn in_time_order(times: Seq<Bits>) -> bool {
    forall|i: int, j: int| #![trigger times[i], times[j]]
        0 <= i < j < times.len() ==> !greater(times[i], times[j])
}

/// Finds the keys a moment falls between, or `None` where there are no keys.
///
/// Clamped rather than extrapolated at either end: a clip's first key is its pose before it starts
/// and its last is the pose it holds after, which is what a loop wants at the seam.
pub fn bracket(times: &Vec<Bits>, time: Bits) -> (r: Option<Sampled>)
    requires
        !not_a_number(time),
        times@.len() > 0 ==> !not_a_number(times@[0]) && !not_a_number(times@.last()),
    ensures
        match r {
            None => times@.len() == 0,
            Some(Sampled::Held(i)) => {
                ||| i == 0 && times@.len() > 0 && !greater(time, times@[0])
                ||| i == times@.len() - 1 && greater(time, times@[0]) && !greater(
                    times@[i as int],
                    time,
                )
            },
            Some(Sampled::Between(before, after)) => {
                &&& after == before + 1
                &&& after < times@.len()
                &&& greater(time, times@[0]) && greater(times@.last(), time)
                &&& greater(time, times@[before as int])
                &&& !greater(time, times@[after as int])
            },
        },
{
    let count: usize = times.len();
    if count == 0 {
        return None;
    }
    if !is_greater(time, times[0]) {
        return Some(Sampled::Held(0));
    }
    if !is_greater(times[count - 1], time) {
        return Some(Sampled::Held(count - 1));
    }
    let mut low: usize = 0;
    let mut high: usize = count - 1;
    while high - low > 1
        invariant
            low < high < times@.len(),
            greater(time, times@[low as int]),
            !greater(time, times@[high as int]),
        decreases high - low,
    {
        let middle: usize = low + (high - low) / 2;
        if is_greater(time, times[middle]) {
            low = middle;
        } else {
            high = middle;
        }
    }
    Some(Sampled::Between(low, high))
}

/// **A moment falls in one place only**: among keys in order, it is after everything up to the one
/// before it and after nothing from the next one on.
pub proof fn law_a_moment_falls_in_one_place(times: Seq<Bits>, time: Bits, after: int, i: int)
    requires
        in_time_order(times),
        forall|k: int| 0 <= k < times.len() ==> !not_a_number(#[trigger] times[k]),
        !not_a_number(time),
        0 < after < times.len(),
        greater(time, times[after - 1]),
        !greater(time, times[after]),
        0 <= i < times.len(),
    ensures
        greater(time, times[i]) == (i < after),
{
    if i < after - 1 {
        assert(!greater(times[i], times[after - 1]));
    } else if i > after {
        assert(!greater(times[after], times[i]));
    }
}

} // verus!
