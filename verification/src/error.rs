//! The ways in which a grading run can fail.

use vstd::prelude::*;

verus! {

/// Why a decoded note-event file cannot serve as a reference melody.
#[derive(Clone, Copy, Debug, PartialEq, Eq, Structural)]
pub enum NewRawUnpaddedTargetMelodyError {
    /// The file does not hold exactly one track; the count is given, capped
    /// at `u32::MAX`.
    MidiFileTracksLenNotOne(u32),
    /// The track names no key signature.
    UnknownKeySignature,
    /// The file's time base is not a positive number of ticks per quarter
    /// note.
    UnsupportedDivisionType,
}

/// Why a grading run ends without a score.
#[derive(Clone, Copy, Debug, PartialEq, Eq, Structural)]
pub enum RunError {
    /// The reference melody could not be built.
    NewRawUnpaddedInputMelody(NewRawUnpaddedTargetMelodyError),
    /// Both melodies are empty, so there is nothing to align.
    InputMelodyEmpty,
    /// At no position do the aligned reference and the recording both carry
    /// a pitch.
    InsufficientOverlap,
}

} // verus!
