use vstd::prelude::*;

verus! {

/// When a round's feedback and silent results are released, as points in
/// time (seconds since the epoch), where they are set.
#[derive(Clone, Copy, Debug, PartialEq, Eq, Structural)]
pub struct RoundReleaseTimes {
    pub feedback_release_time: Option<i64>,
    pub silent_round_results_release_time: Option<i64>,
}

/// The time itself where none is set yet, else the time set.
pub open spec fn released_at(current: Option<i64>, time: i64) -> Option<i64> {
    match current {
        Some(t) => Some(t),
        None => Some(time),
    }
}

/// Releases the rounds before a break and the breaks at `time`: every
/// release time that is not set yet is set to `time`; those already set stay.
pub fn set_break_release(rounds: &mut Vec<RoundReleaseTimes>, breaks: &mut Vec<Option<i64>>, time: i64)
    ensures
        final(rounds).len() == old(rounds).len(),
        forall|i: int|
            0 <= i < old(rounds).len() ==> (#[trigger] final(rounds)@[i]).feedback_release_time == released_at(
                old(rounds)@[i].feedback_release_time,
                time,
            ) && final(rounds)@[i].silent_round_results_release_time == released_at(
                old(rounds)@[i].silent_round_results_release_time,
                time,
            ),
        final(breaks).len() == old(breaks).len(),
        forall|i: int| 0 <= i < old(breaks).len() ==> #[trigger] final(breaks)@[i] == released_at(old(breaks)@[i], time),
{
    let mut i: usize = 0;
    while i < rounds.len()
        invariant
            i <= rounds.len(),
            rounds.len() == old(rounds).len(),
            forall|k: int|
                0 <= k < i ==> (#[trigger] rounds@[k]).feedback_release_time == released_at(
                    old(rounds)@[k].feedback_release_time,
                    time,
                ) && rounds@[k].silent_round_results_release_time == released_at(
                    old(rounds)@[k].silent_round_results_release_time,
                    time,
                ),
            forall|k: int| i <= k < rounds.len() ==> #[trigger] rounds@[k] == old(rounds)@[k],
        decreases rounds.len() - i,
    {
        let mut r = rounds[i];
        if r.feedback_release_time.is_none() {
            r.feedback_release_time = Some(time);
        }
        if r.silent_round_results_release_time.is_none() {
            r.silent_round_results_release_time = Some(time);
        }
        rounds.set(i, r);
        i += 1;
    }
    let mut j: usize = 0;
    while j < breaks.len()
        invariant
            j <= breaks.len(),
            breaks.len() == old(breaks).len(),
            forall|k: int| 0 <= k < j ==> #[trigger] breaks@[k] == released_at(old(breaks)@[k], time),
            forall|k: int| j <= k < breaks.len() ==> #[trigger] breaks@[k] == old(breaks)@[k],
        decreases breaks.len() - j,
    {
        if breaks[j].is_none() {
            breaks.set(j, Some(time));
        }
        j += 1;
    }
}

} // verus!
