//! One pass of the polling scheduler over a collection of timers.
use vstd::prelude::*;
use crate::timer::Timer;

verus! {

/// Every timer of the collection is well formed.
pub open spec fn all_wf(timers: Seq<Timer>) -> bool {
    forall|j: int| 0 <= j < timers.len() ==> #[trigger] timers[j].wf()
}

/// Whether some timer has not ended: the scheduler keeps polling while this holds.
pub fn has_pending(timers: &Vec<Timer>) -> (r: bool)
    ensures
        r == exists|j: int| 0 <= j < timers@.len() && !(#[trigger] timers@[j]).ended,
{
    let mut i: usize = 0;
    while i < timers.len()
        invariant
            i <= timers@.len(),
            forall|j: int| 0 <= j < i ==> (#[trigger] timers@[j]).ended,
        decreases timers@.len() - i,
    {
        if !timers[i].ended {
            return true;
        }
        i = i + 1;
    }
    false
}

/// Polls every timer once at clock reading `now`, in collection order.
///
/// Returns the positions of the timers that fired, in increasing order: the
/// caller delivers one notification for each, in that order.
pub fn poll_timers(timers: &mut Vec<Timer>, now: u64) -> (fired: Vec<usize>)
    ensures
        final(timers)@.len() == old(timers)@.len(),
        forall|j: int| 0 <= j < old(timers)@.len() ==>
            #[trigger] final(timers)@[j] == old(timers)@[j].polled(now),
        forall|k: int| 0 <= k < fired@.len() ==> fired@[k] < old(timers)@.len(),
        forall|k: int, l: int| 0 <= k < l < fired@.len() ==> fired@[k] < fired@[l],
        forall|j: int| 0 <= j < old(timers)@.len() ==>
            (fired@.contains(j as usize) <==> #[trigger] old(timers)@[j].due(now)),
        all_wf(old(timers)@) ==> all_wf(final(timers)@),
{
    let ghost start = timers@;
    let mut fired: Vec<usize> = Vec::new();
    let mut i: usize = 0;
    while i < timers.len()
        invariant
            i <= timers@.len(),
            timers@.len() == start.len(),
            forall|j: int| 0 <= j < i ==> #[trigger] timers@[j] == start[j].polled(now),
            forall|j: int| i <= j < start.len() ==> #[trigger] timers@[j] == start[j],
            forall|k: int| 0 <= k < fired@.len() ==> fired@[k] < i,
            forall|k: int, l: int| 0 <= k < l < fired@.len() ==> fired@[k] < fired@[l],
            forall|j: int| 0 <= j < i ==> (fired@.contains(j as usize) <==> #[trigger] start[j].due(now)),
        decreases start.len() - i,
    {
        let ghost before = fired@;
        let hit = timers[i].poll(now);
        if hit {
            fired.push(i);
        }
        proof {
            assert forall|j: int| 0 <= j < i + 1 implies
                (fired@.contains(j as usize) <==> #[trigger] start[j].due(now)) by {
                if hit {
                    assert(fired@ == before.push(i));
                    assert(fired@[before.len() as int] == i);
                } else {
                    assert(fired@ == before);
                }
                if j < i && fired@.contains(j as usize) {
                    let k = choose|k: int| 0 <= k < fired@.len() && fired@[k] == j as usize;
                    if k < before.len() {
                        assert(before[k] == j as usize);
                    }
                }
                if j < i && before.contains(j as usize) {
                    let k = choose|k: int| 0 <= k < before.len() && before[k] == j as usize;
                    assert(fired@[k] == j as usize);
                }
                if j == i && !hit && fired@.contains(j as usize) {
                    let k = choose|k: int| 0 <= k < fired@.len() && fired@[k] == j as usize;
                    assert(before[k] < i);
                }
            }
        }
        i = i + 1;
    }
    fired
}

} // verus!
