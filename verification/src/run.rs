//! A whole grading run, from a decoded reference and a recording to the
//! scores.

use crate::align::{
    align, aligned, alignment_error, lemma_identical_alignment, note_shift, room_for_shift,
    time_aligned, time_shift, Alignment,
};
use crate::error::RunError;
use crate::grade::{lemma_identical_scores, scored, Accuracy};
use crate::input::UnpaddedInputMelody;
use crate::interpolate::{held, resampled};
use crate::model::{
    pitch_range, pitches_within, Interval, Note, NoteSample, NoteSeries, TimedNote,
};
use crate::pad::{longer, padded, zero_pad_shorter_series, InputMelody};
use crate::target::{
    lemma_changes_pitches, pitches_of_keys, projected, rejection, ticks_per_quarter, MidiData,
    RawUnpaddedTargetMelody, HIGHEST_KEY_CENTS,
};
use vstd::prelude::*;

verus! {

/// Whether the pitches of a recording leave room for the pitch shift: none is
/// nearer to the ends of the range of pitches than a key can be high.
pub open spec fn recordable(input: Seq<NoteSample>) -> bool {
    pitches_within(input, i32::MIN + HIGHEST_KEY_CENTS, i32::MAX - HIGHEST_KEY_CENTS)
}

/// Whether the pitches of a recording leave room for the pitch shift.
pub fn is_recordable(input: &NoteSeries) -> (fits: bool)
    ensures
        fits == recordable(input@),
{
    match pitch_range(input) {
        Some((low, high)) => {
            let fits: bool = i32::MIN + HIGHEST_KEY_CENTS <= low && high <= i32::MAX
                - HIGHEST_KEY_CENTS;
            proof {
                if !fits {
                    let lowest = choose|i: int|
                        0 <= i < input@.len() && #[trigger] input@[i] == Some(Note { cents: low });
                    let highest = choose|i: int|
                        0 <= i < input@.len() && #[trigger] input@[i] == Some(
                            Note { cents: high },
                        );
                    assert(input@[lowest] matches Some(note) && note.cents == low);
                    assert(input@[highest] matches Some(note) && note.cents == high);
                }
            }
            fits
        },
        None => true,
    }
}

/// The reference on the grid of the recording, as long as the longer of the
/// two.
pub open spec fn padded_reference(midi: MidiData, input: UnpaddedInputMelody) -> Seq<NoteSample> {
    let reference = resampled(projected(midi, Note::VELOCITY_THRESHOLD), input.notes.interval);
    padded(reference, longer(reference.len(), input.notes@.len()))
}

/// The recording, as long as the longer of the reference and itself.
pub open spec fn padded_recording(midi: MidiData, input: UnpaddedInputMelody) -> Seq<NoteSample> {
    let reference = resampled(projected(midi, Note::VELOCITY_THRESHOLD), input.notes.interval);
    padded(input.notes@, longer(reference.len(), input.notes@.len()))
}

/// How a grading run ends for a decoded reference and a recording. The
/// reference is projected onto a time line, resampled on the grid of the
/// recording, and the shorter of the two is padded with silence. The
/// reference is then shifted in time to where it correlates best with the
/// recording, raised by the mean distance of the pitches, and the recording
/// is scored against it.
pub open spec fn outcome(midi: MidiData, input: UnpaddedInputMelody) -> Result<Accuracy, RunError> {
    match rejection(midi) {
        Some(error) => Err(RunError::NewRawUnpaddedInputMelody(error)),
        None => {
            let target = padded_reference(midi, input);
            let recorded = padded_recording(midi, input);
            match alignment_error(target, recorded) {
                Some(error) => Err(error),
                None => Ok(
                    scored(
                        aligned(target, recorded),
                        recorded,
                        input.notes.interval.span_micros(time_shift(target, recorded)),
                        note_shift(time_aligned(target, recorded), recorded),
                    ),
                ),
            }
        },
    }
}

/// A recording that is the reference itself, sample for sample, with a pitch
/// somewhere, scores the whole in every part.
pub proof fn lemma_identical_outcome(midi: MidiData, input: UnpaddedInputMelody)
    requires
        input.notes.wf(),
        rejection(midi) is None,
        padded_reference(midi, input) == padded_recording(midi, input),
        exists|i: int|
            0 <= i < padded_recording(midi, input).len() && padded_recording(midi, input)[i]
                is Some,
    ensures
        outcome(midi, input) == Ok::<Accuracy, RunError>(
            Accuracy {
                coverage: 1_000_000,
                timing: 1_000_000,
                pitch: 1_000_000,
                key: 1_000_000,
            },
        ),
{
    let x = padded_recording(midi, input);
    lemma_identical_alignment(x);
    lemma_identical_scores(x);
    let interval = input.notes.interval;
    assert(interval.span_micros(0) == 0) by (nonlinear_arith)
        requires
            interval.span_micros(0) == (0 * interval.num * 1_000_000) / (interval.den as int),
            interval.den > 0,
    ;
}

/// The scores of a run, together with what they were made from.
#[derive(Clone, Debug)]
pub struct Graded {
    pub accuracy: Accuracy,
    /// The aligned reference and the shifts that aligned it.
    pub alignment: Alignment,
    /// The recording, as long as the reference.
    pub input: InputMelody,
}

/// The state held at an instant is silence or the value of an event.
proof fn lemma_held_value(events: Seq<TimedNote>, interval: Interval, index: int, k: int)
    requires
        0 <= k <= events.len(),
    ensures
        held(events, interval, index, k) is None || exists|j: int|
            0 <= j < k && held(events, interval, index, k) == (#[trigger] events[j]).value,
    decreases k,
{
    if k > 0 {
        lemma_held_value(events, interval, index, k - 1);
        if held(events, interval, index, k) is Some {
            if held(events, interval, index, k) == events[k - 1].value {
                assert(events[k - 1].value == held(events, interval, index, k));
            } else {
                let j = choose|j: int|
                    0 <= j < k - 1 && held(events, interval, index, k - 1) == (
                    #[trigger] events[j]).value;
                assert(held(events, interval, index, k) == events[j].value);
            }
        }
    }
}

/// A melody resampled from the pitches of keys holds the pitches of keys.
proof fn lemma_resampled_pitches(events: Seq<TimedNote>, interval: Interval)
    requires
        pitches_of_keys(events),
    ensures
        pitches_within(resampled(events, interval), 0, HIGHEST_KEY_CENTS as int),
{
    let melody = resampled(events, interval);
    assert forall|i: int| 0 <= i < melody.len() implies (#[trigger] melody[i] matches Some(note)
        ==> 0 <= note.cents <= HIGHEST_KEY_CENTS) by {
        lemma_held_value(events, interval, i, events.len() as int);
        if melody[i] is Some {
            let j = choose|j: int|
                0 <= j < events.len() && held(events, interval, i, events.len() as int) == (
                #[trigger] events[j]).value;
            assert(events[j].value == melody[i]);
        }
    }
}

/// A reference of the pitches of keys has room for the shift to a
/// recording that keeps away from the ends of the range.
proof fn lemma_room_for_shift(target: Seq<NoteSample>, input: Seq<NoteSample>)
    requires
        pitches_within(target, 0, HIGHEST_KEY_CENTS as int),
        recordable(input),
    ensures
        room_for_shift(target, input),
{
}

/// Grades a recording against a decoded reference, and hands out the aligned
/// reference and the shifts with the scores. The reference is projected onto
/// a time line, resampled on the grid of the recording, and the shorter of
/// the two is padded with silence; the reference is aligned in time and
/// pitch, and the recording is scored against it. The run fails where the
/// reference is rejected, where both melodies are empty, and where the
/// aligned reference and the recording carry a pitch at no common place.
pub fn analyse(midi: &MidiData, input: UnpaddedInputMelody) -> (result: Result<Graded, RunError>)
    requires
        input.notes.wf(),
        recordable(input.notes@),
    ensures
        match result {
            Ok(graded) => {
                &&& outcome(*midi, input) == Ok::<Accuracy, RunError>(graded.accuracy)
                &&& graded.accuracy.wf()
                &&& graded.input.notes@ == padded_recording(*midi, input)
                &&& graded.input.notes.interval == input.notes.interval
                &&& graded.alignment.target@ == aligned(
                    padded_reference(*midi, input),
                    padded_recording(*midi, input),
                )
                &&& graded.alignment.time_shift == time_shift(
                    padded_reference(*midi, input),
                    padded_recording(*midi, input),
                )
                &&& graded.alignment.note_shift == note_shift(
                    time_aligned(padded_reference(*midi, input), padded_recording(*midi, input)),
                    padded_recording(*midi, input),
                )
            },
            Err(error) => outcome(*midi, input) == Err::<Accuracy, RunError>(error),
        },
{
    let raw = match RawUnpaddedTargetMelody::new(midi) {
        Ok(raw) => raw,
        Err(error) => {
            return Err(RunError::NewRawUnpaddedInputMelody(error));
        },
    };
    let interval: Interval = input.notes.interval();
    let ghost events = raw@;
    let unpadded = raw.zero_order_hold(&input);
    let (target_melody, input_melody) = zero_pad_shorter_series(unpadded, input);
    let target: NoteSeries = target_melody.notes.samples;
    proof {
        lemma_changes_pitches(
            midi.tracks[0].events@,
            ticks_per_quarter(*midi),
            Note::VELOCITY_THRESHOLD,
            midi.tracks[0].events@.len() as int,
        );
        lemma_resampled_pitches(events, interval);
        assert(pitches_within(target@, 0, HIGHEST_KEY_CENTS as int));
        assert(recordable(input_melody.notes@));
        lemma_room_for_shift(target@, input_melody.notes@);
    }
    let alignment = match align(target, input_melody.notes().samples()) {
        Ok(alignment) => alignment,
        Err(error) => {
            return Err(error);
        },
    };
    let time_shift_micros: i128 = interval.shift_micros(alignment.time_shift);
    let accuracy = Accuracy::new(
        &alignment.target,
        input_melody.notes().samples(),
        time_shift_micros,
        alignment.note_shift,
    );
    Ok(Graded { accuracy, alignment, input: input_melody })
}

/// Grades a recording against a decoded reference.
pub fn run(midi: &MidiData, input: UnpaddedInputMelody) -> (result: Result<Accuracy, RunError>)
    requires
        input.notes.wf(),
        recordable(input.notes@),
    ensures
        result == outcome(*midi, input),
        result matches Ok(accuracy) ==> accuracy.wf(),
{
    match analyse(midi, input) {
        Ok(graded) => Ok(graded.accuracy),
        Err(error) => Err(error),
    }
}

/// The name of the file for the plot of a run: the stems of the names of the
/// two files, joined by a plus sign, with the ending of a picture.
pub fn plot_target_file(midi_file_stem: &str, wav_file_stem: &str) -> (name: String)
    ensures
        name@ == midi_file_stem@ + "+"@ + wav_file_stem@ + ".png"@,
{
    String::from_str(midi_file_stem).concat("+").concat(wav_file_stem).concat(".png")
}

} // verus!
