//! The recording as a melody: windows of raw samples, and one observation for
//! each.

use crate::model::{DynNoteTimeSeries, Interval, NoteSample, UniformNoteTimeSeries};
use vstd::prelude::*;

verus! {

/// The number of raw samples in one window of the recording.
pub const WINDOW_SIZE: u32 = 1024;

/// The spacing of the observations of a recording with the given sample rate
/// and number of channels: the time that one window of raw samples takes.
/// The samples of several channels are counted as they come, interleaved, so
/// that a window of a recording with two channels spans half the time.
pub open spec fn sampling_interval(sample_rate: u32, channels: u16) -> Interval {
    Interval { num: 1024, den: (channels * sample_rate) as u64 }
}

/// The `k`-th window of `size` samples.
pub open spec fn window_at(samples: Seq<i16>, size: int, k: int) -> Seq<i16> {
    samples.subrange(k * size, (k + 1) * size)
}

/// Cuts raw samples into consecutive windows of `size` samples that do not
/// overlap. What is left after the last full window is dropped.
pub fn windows(samples: &Vec<i16>, size: usize) -> (frames: Vec<Vec<i16>>)
    requires
        size > 0,
    ensures
        frames@.len() == samples@.len() as int / size as int,
        forall|k: int|
            0 <= k < frames@.len() ==> (#[trigger] frames@[k])@ == window_at(
                samples@,
                size as int,
                k,
            ),
{
    let n: usize = samples.len();
    let count: usize = n / size;
    let mut frames: Vec<Vec<i16>> = Vec::new();
    let mut k: usize = 0;
    while k < count
        invariant
            0 <= k <= count,
            size > 0,
            n == samples@.len(),
            count == n / size,
            frames@.len() == k,
            forall|j: int|
                0 <= j < k ==> (#[trigger] frames@[j])@ == window_at(samples@, size as int, j),
        decreases count - k,
    {
        assert((k + 1) * size <= n && k * size + size == (k + 1) * size) by (nonlinear_arith)
            requires
                k < count,
                count == n / size,
                size > 0,
        ;
        let start: usize = k * size;
        let mut frame: Vec<i16> = Vec::with_capacity(size);
        let mut i: usize = 0;
        while i < size
            invariant
                0 <= i <= size,
                start + size <= n,
                n == samples@.len(),
                frame@ == samples@.subrange(start as int, start + i),
            decreases size - i,
        {
            frame.push(samples[start + i]);
            proof {
                assert(frame@ =~= samples@.subrange(start as int, start + i + 1));
            }
            i = i + 1;
        }
        frames.push(frame);
        k = k + 1;
    }
    frames
}

/// The recording as a melody: one observation for each window of raw
/// samples.
#[derive(Clone, Debug)]
pub struct UnpaddedInputMelody {
    pub notes: DynNoteTimeSeries,
}

impl UnpaddedInputMelody {
    /// Takes the pitches observed in the windows of a recording, in order,
    /// and gives them the spacing of the windows.
    pub fn new(pitches: Vec<NoteSample>, sample_rate: u32, channels: u16) -> (melody: Self)
        requires
            sample_rate > 0,
            channels > 0,
        ensures
            melody.notes.wf(),
            melody.notes@ == pitches@,
            melody.notes.interval == sampling_interval(sample_rate, channels),
    {
        assert(0 < channels * sample_rate <= 0xffff * 0xffff_ffff) by (nonlinear_arith)
            requires
                0 < channels <= 0xffff,
                0 < sample_rate <= 0xffff_ffff,
        ;
        let den: u64 = (channels as u64) * (sample_rate as u64);
        Self { notes: UniformNoteTimeSeries::new(pitches, Interval::new(WINDOW_SIZE, den)) }
    }
}

} // verus!
