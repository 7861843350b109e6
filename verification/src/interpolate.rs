//! The resampler: from state changes at any times to samples on a fixed grid,
//! each state held until the next change.

use crate::input::UnpaddedInputMelody;
use crate::model::{
    DynNoteTimeSeries, Interval, NoteSample, TimedNote, UniformNoteTimeSeries,
    times_non_decreasing,
};
use crate::target::RawUnpaddedTargetMelody;
use vstd::prelude::*;

verus! {

/// The reference melody on the grid of the recording, as long as its own
/// events reach.
#[derive(Clone, Debug)]
pub struct UnpaddedTargetMelody {
    pub notes: DynNoteTimeSeries,
}

/// Whether the instant of sample `index` is at or after `time` microseconds.
pub open spec fn reached(interval: Interval, index: int, time: int) -> bool {
    time * interval.den <= interval.instant(index)
}

/// The state that the first `k` events leave at the instant of sample
/// `index`: the value of the last of them that is not later than the instant,
/// and silence where all are later.
pub open spec fn held(events: Seq<TimedNote>, interval: Interval, index: int, k: int) -> NoteSample
    decreases k,
{
    if k <= 0 {
        None
    } else if reached(interval, index, events[k - 1].time as int) {
        events[k - 1].value
    } else {
        held(events, interval, index, k - 1)
    }
}

/// The number of samples whose instants lie before `time` microseconds.
pub open spec fn samples_before(interval: Interval, time: int) -> int {
    let step = interval.num * 1_000_000;
    (time * interval.den + step - 1) / step
}

/// The number of samples of the resampled melody: those whose instants lie
/// before the last event.
pub open spec fn sample_count(events: Seq<TimedNote>, interval: Interval) -> int {
    if events.len() == 0 {
        0
    } else {
        samples_before(interval, events.last().time as int)
    }
}

/// The melody of the events on the grid of `interval`: as many samples as
/// lie before the last event, each the state held at its instant.
pub open spec fn resampled(events: Seq<TimedNote>, interval: Interval) -> Seq<NoteSample> {
    Seq::new(
        sample_count(events, interval) as nat,
        |i: int| held(events, interval, i, events.len() as int),
    )
}

/// Events that are all later than an instant leave the state as it was.
proof fn lemma_held_skips_later(
    events: Seq<TimedNote>,
    interval: Interval,
    index: int,
    k: int,
    n: int,
)
    requires
        0 <= k <= n <= events.len(),
        forall|j: int| k <= j < n ==> !reached(interval, index, (#[trigger] events[j]).time as int),
    ensures
        held(events, interval, index, n) == held(events, interval, index, k),
    decreases n - k,
{
    if k < n {
        lemma_held_skips_later(events, interval, index, k, n - 1);
    }
}

/// `count` is the number of samples before `time` when sample `count` is the
/// first whose instant is not before it.
proof fn lemma_samples_before(interval: Interval, time: int, count: int)
    requires
        interval.wf(),
        0 <= time,
        0 <= count,
        reached(interval, count, time),
        count > 0 ==> !reached(interval, count - 1, time),
    ensures
        samples_before(interval, time) == count,
{
    let step = interval.num * 1_000_000;
    let a = time * interval.den;
    assert(interval.instant(count) == count * step) by (nonlinear_arith)
        requires
            interval.instant(count) == count * interval.num * 1_000_000,
            step == interval.num * 1_000_000,
    ;
    assert(interval.instant(count - 1) == (count - 1) * step) by (nonlinear_arith)
        requires
            interval.instant(count - 1) == (count - 1) * interval.num * 1_000_000,
            step == interval.num * 1_000_000,
    ;
    assert(0 <= a) by (nonlinear_arith)
        requires
            a == time * interval.den,
            0 <= time,
    ;
    assert((a + step - 1) / step == count) by (nonlinear_arith)
        requires
            step > 0,
            0 <= a,
            a <= count * step,
            count > 0 ==> (count - 1) * step < a,
            count >= 0,
    ;
}

/// How far the instant of sample `index` is from `time`, and zero once it is
/// reached.
spec fn distance(interval: Interval, index: int, time: int) -> int {
    if reached(interval, index, time) {
        0
    } else {
        time * interval.den - interval.instant(index)
    }
}

/// Whether the instant of sample `index` is at or after `time` microseconds.
fn instant_reached(interval: Interval, index: usize, time: u128) -> (at_or_after: bool)
    requires
        interval.wf(),
    ensures
        at_or_after == reached(interval, index as int, time as int),
{
    assert(index * interval.num * 1_000_000 <= 0xffff_ffff_ffff_ffff * 0xffff_ffff * 1_000_000)
        by (nonlinear_arith)
        requires
            0 <= index <= 0xffff_ffff_ffff_ffff,
            0 <= interval.num <= 0xffff_ffff,
    ;
    let instant: u128 = (index as u128) * (interval.num as u128) * 1_000_000;
    let whole: u128 = instant / (interval.den as u128);
    assert((whole >= time) == (time * interval.den <= instant)) by (nonlinear_arith)
        requires
            whole == instant / (interval.den as u128),
            interval.den > 0,
            0 <= time,
            0 <= instant,
    ;
    whole >= time
}

impl RawUnpaddedTargetMelody {
    /// Resamples the state changes on the grid of `input`, holding each state
    /// until the next change: sample `i` is the state left by the last event
    /// that is not later than the instant of `i`, and silence before the
    /// first event. The samples end before the last event.
    pub fn zero_order_hold(self, input: &UnpaddedInputMelody) -> (target: UnpaddedTargetMelody)
        requires
            input.notes.wf(),
        ensures
            target.notes.wf(),
            target.notes.interval == input.notes.interval,
            target.notes@ == resampled(self@, input.notes.interval),
    {
        let interval: Interval = input.notes.interval();
        let events: &Vec<TimedNote> = self.note_events();
        let n: usize = events.len();
        let mut samples: Vec<NoteSample> = Vec::new();
        let mut state: NoteSample = None;
        let mut k: usize = 0;
        while k < n
            invariant
                0 <= k <= n,
                n == events@.len(),
                interval.wf(),
                times_non_decreasing(events@),
                state == held_state(events@, k as int),
                k > 0 ==> reached(interval, samples@.len() as int, events@[k - 1].time as int),
                samples@.len() > 0 ==> k > 0 && !reached(
                    interval,
                    samples@.len() - 1,
                    events@[k - 1].time as int,
                ),
                forall|i: int|
                    0 <= i < samples@.len() ==> #[trigger] samples@[i] == held(
                        events@,
                        interval,
                        i,
                        n as int,
                    ),
            decreases n - k,
        {
            let event: TimedNote = events[k];
            proof {
                lemma_reached_later(interval, samples@.len() as int, events@, k as int);
            }
            while !instant_reached(interval, samples.len(), event.time)
                invariant
                    0 <= k < n,
                    n == events@.len(),
                    interval.wf(),
                    times_non_decreasing(events@),
                    event == events@[k as int],
                    state == held_state(events@, k as int),
                    k > 0 ==> reached(interval, samples@.len() as int, events@[k - 1].time as int),
                    samples@.len() > 0 ==> !reached(
                        interval,
                        samples@.len() - 1,
                        events@[k as int].time as int,
                    ),
                    forall|i: int|
                        0 <= i < samples@.len() ==> #[trigger] samples@[i] == held(
                            events@,
                            interval,
                            i,
                            n as int,
                        ),
                decreases distance(interval, samples@.len() as int, event.time as int),
            {
                proof {
                    let index = samples@.len() as int;
                    assert forall|j: int| k <= j < n implies !reached(
                        interval,
                        index,
                        (#[trigger] events@[j]).time as int,
                    ) by {
                        assert(events@[k as int].time <= events@[j].time);
                        assert(events@[k as int].time * interval.den <= events@[j].time
                            * interval.den) by (nonlinear_arith)
                            requires
                                events@[k as int].time <= events@[j].time,
                                interval.den > 0,
                        ;
                    }
                    lemma_held_skips_later(events@, interval, index, k as int, n as int);
                    lemma_held_at_last(events@, interval, index, k as int);
                    assert(interval.instant(index + 1) == interval.instant(index) + interval.num
                        * 1_000_000) by (nonlinear_arith)
                        requires
                            interval.instant(index + 1) == (index + 1) * interval.num * 1_000_000,
                            interval.instant(index) == index * interval.num * 1_000_000,
                    ;
                }
                samples.push(state);
            }
            state = event.value;
            k = k + 1;
        }
        proof {
            if n > 0 {
                lemma_samples_before(interval, events@[n - 1].time as int, samples@.len() as int);
                assert(events@.last() == events@[n - 1]);
            }
            assert(samples@ =~= resampled(events@, interval));
        }
        UnpaddedTargetMelody { notes: UniformNoteTimeSeries::new(samples, interval) }
    }
}

/// The state after the first `k` events: the value of the last of them.
pub open spec fn held_state(events: Seq<TimedNote>, k: int) -> NoteSample {
    if k <= 0 {
        None
    } else {
        events[k - 1].value
    }
}

/// At an instant that the `k`-th event has reached, the first `k` events
/// leave the value of the `k`-th.
proof fn lemma_held_at_last(events: Seq<TimedNote>, interval: Interval, index: int, k: int)
    requires
        0 <= k <= events.len(),
        k > 0 ==> reached(interval, index, events[k - 1].time as int),
    ensures
        held(events, interval, index, k) == held_state(events, k),
{
}

/// A sample that the event before has not let pass is not let pass by the
/// next event either.
proof fn lemma_reached_later(interval: Interval, len: int, events: Seq<TimedNote>, k: int)
    requires
        interval.wf(),
        0 <= k < events.len(),
        times_non_decreasing(events),
        len > 0 ==> k > 0 && !reached(interval, len - 1, events[k - 1].time as int),
    ensures
        len > 0 ==> !reached(interval, len - 1, events[k].time as int),
{
    if len > 0 {
        assert(events[k - 1].time <= events[k].time);
        assert(events[k - 1].time * interval.den <= events[k].time * interval.den)
            by (nonlinear_arith)
            requires
                events[k - 1].time <= events[k].time,
                interval.den > 0,
        ;
    }
}

} // verus!
