//! The length equalizer: silence appended to the shorter of two melodies.

use crate::input::UnpaddedInputMelody;
use crate::interpolate::UnpaddedTargetMelody;
use crate::model::{DynNoteTimeSeries, NoteSample, NoteTimeSeries};
use vstd::prelude::*;

verus! {

/// The reference melody, as long as the recording.
#[derive(Clone, Debug)]
pub struct TargetMelody {
    pub notes: NoteTimeSeries,
}

impl TargetMelody {
    pub fn notes(&self) -> (notes: &NoteTimeSeries)
        ensures
            *notes == self.notes,
    {
        &self.notes
    }
}

/// The recording, as long as the reference melody.
#[derive(Clone, Debug)]
pub struct InputMelody {
    pub notes: NoteTimeSeries,
}

impl InputMelody {
    pub fn notes(&self) -> (notes: &NoteTimeSeries)
        ensures
            *notes == self.notes,
    {
        &self.notes
    }
}

/// `s` with silence appended until it has `len` samples; a sequence that is
/// as long or longer stays as it is.
pub open spec fn padded(s: Seq<NoteSample>, len: int) -> Seq<NoteSample> {
    if s.len() >= len {
        s
    } else {
        s + Seq::new((len - s.len()) as nat, |i: int| None::<crate::model::Note>)
    }
}

/// The greater of two lengths.
pub open spec fn longer(a: nat, b: nat) -> int {
    if a >= b {
        a as int
    } else {
        b as int
    }
}

/// Appends silence to `series` until it has `len` samples.
fn pad_to(series: &mut DynNoteTimeSeries, len: usize)
    ensures
        final(series)@ == padded(old(series)@, len as int),
        final(series).interval == old(series).interval,
{
    while series.len() < len
        invariant
            series.interval == old(series).interval,
            old(series)@.len() <= series@.len(),
            series@.len() <= len || series@.len() == old(series)@.len(),
            series@ == padded(old(series)@, series@.len() as int),
        decreases len - series@.len(),
    {
        series.push(None);
        proof {
            assert(series@ =~= padded(old(series)@, series@.len() as int));
        }
    }
}

/// Makes the two melodies equally long: silence is appended to the shorter
/// one. Nothing is cut off and nothing changes place.
pub fn zero_pad_shorter_series(target: UnpaddedTargetMelody, input: UnpaddedInputMelody) -> (
    padded_pair: (TargetMelody, InputMelody))
    ensures
        padded_pair.0.notes@ == padded(
            target.notes@,
            longer(target.notes@.len(), input.notes@.len()),
        ),
        padded_pair.1.notes@ == padded(
            input.notes@,
            longer(target.notes@.len(), input.notes@.len()),
        ),
        padded_pair.0.notes@.len() == padded_pair.1.notes@.len(),
        padded_pair.0.notes.interval == target.notes.interval,
        padded_pair.1.notes.interval == input.notes.interval,
{
    let mut target = target;
    let mut input = input;
    let target_len: usize = target.notes.len();
    let input_len: usize = input.notes.len();
    if target_len < input_len {
        pad_to(&mut target.notes, input_len);
    } else {
        pad_to(&mut input.notes, target_len);
    }
    (TargetMelody { notes: target.notes }, InputMelody { notes: input.notes })
}

} // verus!
