//! The pace of the speaker: twenty milliseconds at a time.

use vstd::prelude::*;

verus! {

/// How long a frame lasts, in nanoseconds.
pub const STEP: u64 = 20_000_000;

/// When the next frame is due, in nanoseconds from any fixed moment.
pub struct Pace {
    pub next: u64,
}

/// When a frame is due that follows one due at `next`, if that one went to
/// the speaker at `now`. When it is late already it is due at once, and the
/// time lost is not made up.
pub open spec fn due(next: int, now: int) -> int {
    if next + STEP > now {
        next + STEP
    } else {
        now
    }
}

impl Pace {
    pub fn new(now: u64) -> (pace: Pace)
        ensures
            pace.next == now,
    {
        Pace { next: now }
    }

    /// A frame has gone to the speaker. Says how long to wait before the next
    /// one.
    pub fn tick(&mut self, now: u64) -> (wait: u64)
        requires
            old(self).next + STEP <= u64::MAX,
        ensures
            final(self).next == due(old(self).next as int, now as int),
            wait == final(self).next - now,
    {
        self.next = self.next + STEP;
        if self.next > now {
            self.next - now
        } else {
            self.next = now;
            0
        }
    }
}

/// When the last of some frames is due, each gone to the speaker at one of
/// these times.
pub open spec fn due_after(start: int, times: Seq<int>) -> int
    decreases times.len(),
{
    if times.len() == 0 {
        start
    } else {
        due(due_after(start, times.drop_last()), times.last())
    }
}

/// The speaker is never fed faster than sound is played.
pub proof fn law_the_speaker_is_never_fed_too_fast(start: int, times: Seq<int>)
    ensures
        due_after(start, times) >= start + times.len() * STEP,
    decreases times.len(),
{
    if times.len() > 0 {
        law_the_speaker_is_never_fed_too_fast(start, times.drop_last());
        assert(times.len() * STEP == times.drop_last().len() * STEP + STEP) by (nonlinear_arith)
            requires
                times.len() == times.drop_last().len() + 1,
        ;
    }
}

/// While no frame is late, each one is due exactly when the one before it has
/// been played.
pub proof fn law_the_pace_is_steady(start: int, times: Seq<int>)
    requires
        forall|i: int| 0 <= i < times.len() ==> #[trigger] times[i] < start + (i + 1) * STEP,
    ensures
        due_after(start, times) == start + times.len() * STEP,
    decreases times.len(),
{
    if times.len() > 0 {
        let before = times.drop_last();
        assert forall|i: int| 0 <= i < before.len() implies #[trigger] before[i] < start + (i + 1)
            * STEP by {
            assert(before[i] == times[i]);
        }
        law_the_pace_is_steady(start, before);
        assert(times.last() == times[times.len() - 1]);
        assert(times.len() * STEP == before.len() * STEP + STEP) by (nonlinear_arith)
            requires
                times.len() == before.len() + 1,
        ;
    }
}

/// A frame that is late is due at once, and the ones after it are counted from
/// there: the time lost is not made up.
pub proof fn law_lost_time_is_not_made_up(next: int, now: int)
    ensures
        now >= next + 20_000_000 ==> due(next, now) == now,
        now < next + 20_000_000 ==> due(next, now) == next + 20_000_000,
        due(next, now) >= now,
{
}

} // verus!
