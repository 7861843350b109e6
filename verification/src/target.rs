//! The event projector: from the events of a track, timed in ticks, to the
//! state changes of a melody, timed in microseconds.

use crate::error::NewRawUnpaddedTargetMelodyError;
use crate::model::{Note, NoteSample, Tempo, Timed, TimedNote, times_non_decreasing};
use vstd::prelude::*;

verus! {

/// The meaning of the delta times of a file.
#[derive(Clone, Copy, Debug, PartialEq, Eq, Structural)]
pub enum Division {
    /// Ticks per quarter note.
    QuarterNote(u16),
    /// Time-code based: frames per second and ticks per frame.
    Smpte,
}

/// A key signature: the number of sharps (positive) or flats (negative), and
/// the mode.
#[derive(Clone, Copy, Debug, PartialEq, Eq, Structural)]
pub struct KeySignature {
    pub accidentals: i8,
    pub minor: bool,
}

/// What an event of a track says, as far as a melody is concerned.
#[derive(Clone, Copy, Debug, PartialEq, Eq, Structural)]
pub enum TrackEventKind {
    NoteOn { key: u8, velocity: u8 },
    NoteOff,
    /// A tempo change.
    SetTempo(Tempo),
    KeySignature(KeySignature),
    /// Any other message or meta event.
    Other,
}

/// An event of a track: the ticks since the event before it, and what it
/// says.
#[derive(Clone, Copy, Debug, PartialEq, Eq, Structural)]
pub struct TrackEvent {
    pub delta_time: u32,
    pub kind: TrackEventKind,
}

#[derive(Clone, Debug)]
pub struct Track {
    pub events: Vec<TrackEvent>,
}

/// A decoded note-event file: its time base and its tracks.
#[derive(Clone, Debug)]
pub struct MidiData {
    pub division: Division,
    pub tracks: Vec<Track>,
}

/// The tempo in effect after the first `k` events, in microseconds per
/// quarter note: that of the last tempo change among them, and the default
/// where there is none.
pub open spec fn tempo_after(events: Seq<TrackEvent>, k: int) -> int
    decreases k,
{
    if k <= 0 {
        Tempo::DEFAULT_MICROS as int
    } else {
        match events[k - 1].kind {
            TrackEventKind::SetTempo(tempo) => tempo.0 as int,
            _ => tempo_after(events, k - 1),
        }
    }
}

/// The time that has passed when the first `k` events have happened, in
/// microseconds times ticks per quarter note: each delta time counts with the
/// tempo in effect before its event.
pub open spec fn elapsed(events: Seq<TrackEvent>, k: int) -> int
    decreases k,
{
    if k <= 0 {
        0
    } else {
        elapsed(events, k - 1) + events[k - 1].delta_time * tempo_after(events, k - 1)
    }
}

/// The state change that an event brings: a note-on above the velocity
/// threshold starts its note, any other note-on and every note-off end the
/// sounding note, and other events change nothing.
pub open spec fn change_of(kind: TrackEventKind, threshold: u8) -> Option<NoteSample> {
    match kind {
        TrackEventKind::NoteOn { key, velocity } => if velocity > threshold {
            Some(Some(Note { cents: (key * 100) as i32 }))
        } else {
            Some(None)
        },
        TrackEventKind::NoteOff => Some(None),
        _ => None,
    }
}

/// The state changes of the first `k` events, each at the time at which its
/// event happens, in whole microseconds, rounded down.
pub open spec fn changes(events: Seq<TrackEvent>, tpqn: int, threshold: u8, k: int) -> Seq<
    TimedNote,
>
    decreases k,
{
    if k <= 0 {
        Seq::empty()
    } else {
        let before = changes(events, tpqn, threshold, k - 1);
        match change_of(events[k - 1].kind, threshold) {
            Some(value) => before.push(Timed { time: (elapsed(events, k) / tpqn) as u128, value }),
            None => before,
        }
    }
}

/// The key signatures among the first `k` events, in order.
pub open spec fn key_signatures(events: Seq<TrackEvent>, k: int) -> Seq<KeySignature>
    decreases k,
{
    if k <= 0 {
        Seq::empty()
    } else {
        let before = key_signatures(events, k - 1);
        match events[k - 1].kind {
            TrackEventKind::KeySignature(signature) => before.push(signature),
            _ => before,
        }
    }
}

/// The state changes of the single track of `midi`.
pub open spec fn projected(midi: MidiData, threshold: u8) -> Seq<TimedNote> {
    changes(
        midi.tracks[0].events@,
        ticks_per_quarter(midi),
        threshold,
        midi.tracks[0].events@.len() as int,
    )
}

/// The highest pitch that a key can have, in cents.
pub const HIGHEST_KEY_CENTS: i32 = 25_500;

/// Whether every pitch among the state changes is that of a key.
pub open spec fn pitches_of_keys(events: Seq<TimedNote>) -> bool {
    forall|i: int|
        0 <= i < events.len() ==> ((#[trigger] events[i]).value matches Some(note) ==> 0
            <= note.cents <= HIGHEST_KEY_CENTS)
}

/// The number of tracks as an error reports it.
pub open spec fn reported_tracks(len: nat) -> u32 {
    if len <= u32::MAX {
        len as u32
    } else {
        u32::MAX
    }
}

/// The reason, if any, for which `midi` is no reference melody: its time base
/// is looked at first, then the number of its tracks.
pub open spec fn rejection(midi: MidiData) -> Option<NewRawUnpaddedTargetMelodyError> {
    match midi.division {
        Division::QuarterNote(tpqn) => if tpqn == 0 {
            Some(NewRawUnpaddedTargetMelodyError::UnsupportedDivisionType)
        } else if midi.tracks.len() != 1 {
            Some(
                NewRawUnpaddedTargetMelodyError::MidiFileTracksLenNotOne(
                    reported_tracks(midi.tracks@.len()),
                ),
            )
        } else {
            None
        },
        Division::Smpte => Some(NewRawUnpaddedTargetMelodyError::UnsupportedDivisionType),
    }
}

/// The ticks per quarter note of a file with a metrical time base.
pub open spec fn ticks_per_quarter(midi: MidiData) -> int {
    match midi.division {
        Division::QuarterNote(tpqn) => tpqn as int,
        Division::Smpte => 0,
    }
}

proof fn lemma_elapsed_bounds(events: Seq<TrackEvent>, k: int)
    requires
        0 <= k <= events.len(),
    ensures
        0 <= tempo_after(events, k) <= 0xffff_ffff,
        0 <= elapsed(events, k) <= k * 0xffff_fffe_0000_0001,
    decreases k,
{
    if k > 0 {
        lemma_elapsed_bounds(events, k - 1);
        let delta = events[k - 1].delta_time as int;
        let tempo = tempo_after(events, k - 1);
        assert(0 <= delta * tempo <= 0xffff_fffe_0000_0001) by (nonlinear_arith)
            requires
                0 <= delta <= 0xffff_ffff,
                0 <= tempo <= 0xffff_ffff,
        ;
    }
}

/// Time never runs backwards: what has passed after `i` events has passed
/// after `j >= i` events too.
pub proof fn lemma_elapsed_monotonic(events: Seq<TrackEvent>, i: int, j: int)
    requires
        0 <= i <= j <= events.len(),
    ensures
        0 <= elapsed(events, i) <= elapsed(events, j),
    decreases j - i,
{
    lemma_elapsed_bounds(events, i);
    if i < j {
        lemma_elapsed_monotonic(events, i, j - 1);
        lemma_elapsed_bounds(events, j - 1);
        let delta = events[j - 1].delta_time as int;
        let tempo = tempo_after(events, j - 1);
        assert(0 <= delta * tempo) by (nonlinear_arith)
            requires
                0 <= delta,
                0 <= tempo,
        ;
    }
}

/// Every state change among the first `k` events is timed no later than the
/// `k`-th event, and the changes come in order of time.
pub proof fn lemma_changes_ordered(events: Seq<TrackEvent>, tpqn: int, threshold: u8, k: int)
    requires
        0 <= k <= events.len() <= usize::MAX,
        0 < tpqn,
    ensures
        times_non_decreasing(changes(events, tpqn, threshold, k)),
        forall|j: int|
            0 <= j < changes(events, tpqn, threshold, k).len() ==> (#[trigger] changes(
                events,
                tpqn,
                threshold,
                k,
            )[j]).time <= elapsed(events, k) / tpqn,
        elapsed(events, k) / tpqn <= u128::MAX,
    decreases k,
{
    lemma_elapsed_bounds(events, k);
    let total = elapsed(events, k);
    assert(0 <= total / tpqn <= total) by (nonlinear_arith)
        requires
            0 <= total,
            0 < tpqn,
    ;
    if k > 0 {
        lemma_changes_ordered(events, tpqn, threshold, k - 1);
        lemma_elapsed_monotonic(events, k - 1, k);
        let before = elapsed(events, k - 1);
        assert(before / tpqn <= total / tpqn) by (nonlinear_arith)
            requires
                0 <= before <= total,
                0 < tpqn,
        ;
        let earlier = changes(events, tpqn, threshold, k - 1);
        let all = changes(events, tpqn, threshold, k);
        assert forall|i: int, j: int| 0 <= i <= j < all.len() implies all[i].time
            <= all[j].time by {
            if j < earlier.len() {
                assert(all[i] == earlier[i] && all[j] == earlier[j]);
            } else if i < earlier.len() {
                assert(all[i] == earlier[i]);
                assert(earlier[i].time <= before / tpqn);
            }
        }
    }
}

/// The state changes of a track carry the pitches of keys only.
pub proof fn lemma_changes_pitches(events: Seq<TrackEvent>, tpqn: int, threshold: u8, k: int)
    requires
        0 <= k <= events.len(),
    ensures
        pitches_of_keys(changes(events, tpqn, threshold, k)),
    decreases k,
{
    if k > 0 {
        lemma_changes_pitches(events, tpqn, threshold, k - 1);
        let earlier = changes(events, tpqn, threshold, k - 1);
        let all = changes(events, tpqn, threshold, k);
        assert forall|i: int| 0 <= i < all.len() implies ((#[trigger] all[i]).value matches Some(
            note,
        ) ==> 0 <= note.cents <= HIGHEST_KEY_CENTS) by {
            if i < earlier.len() {
                assert(all[i] == earlier[i]);
            }
        }
    }
}

/// The reference melody as a sequence of state changes: which note starts to
/// sound, or that the sounding note ends, and when.
#[derive(Debug)]
pub struct RawUnpaddedTargetMelody {
    note_events: Vec<TimedNote>,
    key_signatures: Vec<KeySignature>,
}

impl View for RawUnpaddedTargetMelody {
    type V = Seq<TimedNote>;

    closed spec fn view(&self) -> Seq<TimedNote> {
        self.note_events@
    }
}

impl RawUnpaddedTargetMelody {
    #[verifier::type_invariant]
    spec fn ordered(self) -> bool {
        times_non_decreasing(self.note_events@)
    }

    /// The key signatures that the track names, in order.
    pub closed spec fn keys(&self) -> Seq<KeySignature> {
        self.key_signatures@
    }

    /// Projects the single track of `midi` onto a time line, with the
    /// velocity threshold `Note::VELOCITY_THRESHOLD`.
    pub fn new(midi: &MidiData) -> (result: Result<Self, NewRawUnpaddedTargetMelodyError>)
        ensures
            match result {
                Ok(melody) => {
                    &&& rejection(*midi) is None
                    &&& melody@ == projected(*midi, Note::VELOCITY_THRESHOLD)
                    &&& melody.keys() == key_signatures(
                        midi.tracks[0].events@,
                        midi.tracks[0].events@.len() as int,
                    )
                },
                Err(error) => rejection(*midi) == Some(error),
            },
    {
        Self::with_velocity_threshold(midi, Note::VELOCITY_THRESHOLD)
    }

    /// Projects the single track of `midi` onto a time line: the time of an
    /// event is the sum of the delta times up to it, each taken at the tempo
    /// in effect before its event. A note-on with a velocity above
    /// `threshold` starts its note; any other note-on, and every note-off,
    /// ends the sounding note.
    pub fn with_velocity_threshold(midi: &MidiData, threshold: u8) -> (result: Result<
        Self,
        NewRawUnpaddedTargetMelodyError,
    >)
        ensures
            match result {
                Ok(melody) => {
                    &&& rejection(*midi) is None
                    &&& melody@ == projected(*midi, threshold)
                    &&& melody.keys() == key_signatures(
                        midi.tracks[0].events@,
                        midi.tracks[0].events@.len() as int,
                    )
                },
                Err(error) => rejection(*midi) == Some(error),
            },
    {
        let tpqn: u16 = match midi.division {
            Division::QuarterNote(tpqn) => tpqn,
            Division::Smpte => {
                return Err(NewRawUnpaddedTargetMelodyError::UnsupportedDivisionType);
            },
        };
        if tpqn == 0 {
            return Err(NewRawUnpaddedTargetMelodyError::UnsupportedDivisionType);
        }
        let tracks_len: usize = midi.tracks.len();
        if tracks_len != 1 {
            let reported: u32 = if tracks_len <= u32::MAX as usize {
                tracks_len as u32
            } else {
                u32::MAX
            };
            return Err(NewRawUnpaddedTargetMelodyError::MidiFileTracksLenNotOne(reported));
        }
        let events: &Vec<TrackEvent> = &midi.tracks[0].events;
        let n: usize = events.len();
        let mut tempo: Tempo = Tempo::default();
        let mut ticks_micros: u128 = 0;
        let mut note_events: Vec<TimedNote> = Vec::new();
        let mut key_signatures: Vec<KeySignature> = Vec::new();
        let mut i: usize = 0;
        while i < n
            invariant
                0 <= i <= n,
                n == events@.len(),
                tpqn > 0,
                tempo.0 == tempo_after(events@, i as int),
                ticks_micros == elapsed(events@, i as int),
                note_events@ == changes(events@, tpqn as int, threshold, i as int),
                key_signatures@ == self::key_signatures(events@, i as int),
            decreases n - i,
        {
            let event: TrackEvent = events[i];
            proof {
                lemma_elapsed_bounds(events@, i as int);
                lemma_elapsed_bounds(events@, i + 1);
                lemma_changes_ordered(events@, tpqn as int, threshold, i + 1);
            }
            assert(event.delta_time * tempo.0 <= 0xffff_fffe_0000_0001) by (nonlinear_arith)
                requires
                    event.delta_time <= 0xffff_ffff,
                    tempo.0 <= 0xffff_ffff,
            ;
            ticks_micros = ticks_micros + (event.delta_time as u128) * (tempo.micros() as u128);
            let time: u128 = ticks_micros / (tpqn as u128);
            match event.kind {
                TrackEventKind::NoteOn { key, velocity } => {
                    if velocity > threshold {
                        note_events.push(Timed::new(time, Some(Note::from_key(key))));
                    } else {
                        note_events.push(Timed::new(time, None));
                    }
                },
                TrackEventKind::NoteOff => {
                    note_events.push(Timed::new(time, None));
                },
                TrackEventKind::SetTempo(changed) => {
                    tempo = changed;
                },
                TrackEventKind::KeySignature(signature) => {
                    key_signatures.push(signature);
                },
                TrackEventKind::Other => {},
            }
            i = i + 1;
        }
        proof {
            lemma_changes_ordered(events@, tpqn as int, threshold, n as int);
        }
        Ok(Self { note_events, key_signatures })
    }

    /// The state changes, in order of time.
    pub fn note_events(&self) -> (events: &Vec<TimedNote>)
        ensures
            events@ == self@,
            times_non_decreasing(events@),
    {
        proof {
            use_type_invariant(self);
        }
        &self.note_events
    }

    /// The key of the melody: the first key signature of the track.
    pub fn key_signature(&self) -> (result: Result<KeySignature, NewRawUnpaddedTargetMelodyError>)
        ensures
            match result {
                Ok(signature) => self.keys().len() > 0 && signature == self.keys()[0],
                Err(error) => self.keys().len() == 0
                    && error == NewRawUnpaddedTargetMelodyError::UnknownKeySignature,
            },
    {
        if self.key_signatures.len() > 0 {
            Ok(self.key_signatures[0])
        } else {
            Err(NewRawUnpaddedTargetMelodyError::UnknownKeySignature)
        }
    }
}

} // verus!
