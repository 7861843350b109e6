//! Grades a sung performance against a reference melody.
//!
//! A recording comes as one observation for each window of raw samples: a
//! pitch, or silence. The reference comes as the events of a track: notes
//! that start and end, and tempo changes. The library projects the events
//! onto a time line, resamples them on the grid of the recording, pads the
//! shorter melody with silence, shifts the reference in time and in pitch to
//! where it fits the recording best, and scores the recording against it for
//! coverage, timing, pitch and key.
//!
//! All quantities are whole numbers. Pitches are in cents, a hundredth of a
//! semitone, with 6900 for A4. Times are in microseconds, and the spacing of
//! the samples is a fraction of seconds. Scores are in parts per million.

pub mod align;
pub mod curve;
pub mod error;
pub mod grade;
pub mod input;
pub mod interpolate;
pub mod model;
pub mod pad;
pub mod run;
pub mod screen;
pub mod signal;
pub mod target;

pub use align::{
    align, apply_note_shift, apply_time_shift, compute_note_shift, compute_time_shift,
    has_room_for_shift, lag_from_peak, rotate_left, rotate_right, Alignment,
};
pub use curve::{grade_key, knot_value, FULL_SCORE};
pub use error::{NewRawUnpaddedTargetMelodyError, RunError};
pub use grade::{
    distance_to_nearest_octave, get_intersection, grade_coverage, grade_pitch, grade_timing,
    median, Accuracy,
};
pub use input::{windows, UnpaddedInputMelody, WINDOW_SIZE};
pub use interpolate::UnpaddedTargetMelody;
pub use model::{
    pitch_range, usize_to_isize, DynNonUniformNoteTimeSeries, DynNoteTimeSeries, Interval, Note,
    NoteSample, NoteSeries, NoteTimeSeries, Tempo, Timed, TimedNote, UniformNoteTimeSeries,
};
pub use pad::{zero_pad_shorter_series, InputMelody, TargetMelody};
pub use run::{analyse, is_recordable, plot_target_file, run, Graded};
pub use screen::{color_grade, handle_key, Action, CurrentScreen, GradeColor, Key, KeyEvent, Step};
pub use target::{
    Division, KeySignature, MidiData, RawUnpaddedTargetMelody, Track, TrackEvent, TrackEventKind,
};
