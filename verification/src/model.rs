//! The values that the stages hand on: pitches, timed events, intervals and
//! sampled melodies.

use vstd::prelude::*;

verus! {

/// Number of cents in one semitone. Every pitch in this crate is a whole
/// number of cents on the equal-tempered scale.
pub const CENTS_PER_SEMITONE: i32 = 100;

/// Number of microseconds in one second.
pub const MICROS_PER_SECOND: u32 = 1_000_000;

/// A pitch on the equal-tempered scale, in cents: 6900 is A4 (440 Hz) and
/// 100 is one semitone.
#[derive(Clone, Copy, Debug, PartialEq, Eq, Structural)]
pub struct Note {
    pub cents: i32,
}

impl Note {
    /// A note-on whose velocity is not above this ends the sounding note.
    pub const VELOCITY_THRESHOLD: u8 = 0;

    pub fn new(cents: i32) -> (note: Self)
        ensures
            note.cents == cents,
    {
        Self { cents }
    }

    /// The pitch of a key of the keyboard, counted in semitones.
    pub fn from_key(key: u8) -> (note: Self)
        ensures
            note.cents == key * 100,
    {
        Self { cents: (key as i32) * CENTS_PER_SEMITONE }
    }
}

/// One observation of a melody: a pitch, or `None` for silence.
pub type NoteSample = Option<Note>;

/// The value that an observation contributes to a signal: its pitch in cents,
/// and zero for silence.
pub open spec fn sample_value(sample: NoteSample) -> int {
    match sample {
        Some(note) => note.cents as int,
        None => 0,
    }
}

/// Whether every pitch of `s` lies between `low` and `high` cents.
pub open spec fn pitches_within(s: Seq<NoteSample>, low: int, high: int) -> bool {
    forall|i: int|
        0 <= i < s.len() ==> (#[trigger] s[i] matches Some(note) ==> low <= note.cents <= high)
}

/// Whether some sample of `s` carries the pitch of `cents`.
pub open spec fn has_pitch(s: Seq<NoteSample>, cents: int) -> bool {
    exists|i: int| 0 <= i < s.len() && #[trigger] s[i] == Some(Note { cents: cents as i32 })
}

/// The lowest and the highest pitch of a melody, and `None` for a melody
/// that is silent throughout.
pub fn pitch_range(notes: &Vec<NoteSample>) -> (range: Option<(i32, i32)>)
    ensures
        match range {
            Some((low, high)) => {
                &&& pitches_within(notes@, low as int, high as int)
                &&& has_pitch(notes@, low as int)
                &&& has_pitch(notes@, high as int)
            },
            None => forall|i: int| 0 <= i < notes@.len() ==> (#[trigger] notes@[i]) is None,
        },
{
    let n: usize = notes.len();
    let mut range: Option<(i32, i32)> = None;
    let mut i: usize = 0;
    while i < n
        invariant
            0 <= i <= n,
            n == notes.len(),
            match range {
                Some((low, high)) => {
                    &&& pitches_within(notes@.subrange(0, i as int), low as int, high as int)
                    &&& has_pitch(notes@, low as int)
                    &&& has_pitch(notes@, high as int)
                },
                None => forall|j: int| 0 <= j < i ==> (#[trigger] notes@[j]) is None,
            },
        decreases n - i,
    {
        let ghost seen = notes@.subrange(0, i as int);
        let ghost more = notes@.subrange(0, i + 1);
        if let Some(note) = notes[i] {
            let (low, high): (i32, i32) = match range {
                Some((low, high)) => (
                    if note.cents < low {
                        note.cents
                    } else {
                        low
                    },
                    if note.cents > high {
                        note.cents
                    } else {
                        high
                    },
                ),
                None => (note.cents, note.cents),
            };
            proof {
                assert(notes@[i as int] == Some(Note { cents: note.cents }));
                assert forall|j: int| 0 <= j < more.len() implies (#[trigger] more[j] matches Some(
                    other,
                ) ==> low <= other.cents <= high) by {
                    if j < i {
                        assert(seen[j] == more[j]);
                        if range is None {
                            assert(notes@[j] is None);
                        }
                    }
                }
            }
            range = Some((low, high));
        } else {
            proof {
                if let Some((low, high)) = range {
                    assert forall|j: int| 0 <= j < more.len() implies (
                    #[trigger] more[j] matches Some(other) ==> low <= other.cents <= high) by {
                        if j < i {
                            assert(seen[j] == more[j]);
                        }
                    }
                }
            }
        }
        i = i + 1;
    }
    proof {
        assert(notes@.subrange(0, n as int) =~= notes@);
    }
    range
}

/// A value together with the time at which it takes effect, in whole
/// microseconds from the start.
#[derive(Clone, Copy, Debug)]
pub struct Timed<T> {
    pub time: u128,
    pub value: T,
}

impl<T> From<(u128, T)> for Timed<T> {
    fn from(value: (u128, T)) -> (timed: Self) {
        Self { time: value.0, value: value.1 }
    }
}

impl<T> vstd::std_specs::convert::FromSpecImpl<(u128, T)> for Timed<T> {
    open spec fn obeys_from_spec() -> bool {
        true
    }

    open spec fn from_spec(value: (u128, T)) -> Self {
        Timed { time: value.0, value: value.1 }
    }
}

impl<T> Timed<T> {
    pub fn new(time: u128, value: T) -> (timed: Self)
        ensures
            timed.time == time,
            timed.value == value,
    {
        Self { time, value }
    }
}

pub type TimedNote = Timed<NoteSample>;

/// A sequence of state changes at non-uniform times.
pub type DynNonUniformNoteTimeSeries = Vec<TimedNote>;

/// Whether the times of `events` never decrease.
pub open spec fn times_non_decreasing(events: Seq<TimedNote>) -> bool {
    forall|i: int, j: int| 0 <= i <= j < events.len() ==> events[i].time <= events[j].time
}

/// The spacing of the samples of a fixed-rate sequence: `num / den` seconds.
#[derive(Clone, Copy, Debug, PartialEq, Eq, Structural)]
pub struct Interval {
    pub num: u32,
    pub den: u64,
}

impl Interval {
    /// An interval is a positive span of time.
    pub open spec fn wf(self) -> bool {
        self.num > 0 && self.den > 0
    }

    /// The instant of sample `index`, as the numerator of a fraction of
    /// microseconds whose denominator is `self.den`.
    pub open spec fn instant(self, index: int) -> int {
        index * self.num * 1_000_000
    }

    /// `shift` samples as a span of whole microseconds, rounded towards zero.
    pub open spec fn span_micros(self, shift: int) -> int {
        if shift >= 0 {
            (shift * self.num * 1_000_000) / (self.den as int)
        } else {
            -((-shift * self.num * 1_000_000) / (self.den as int))
        }
    }

    pub fn new(num: u32, den: u64) -> (interval: Self)
        ensures
            interval.num == num,
            interval.den == den,
    {
        Self { num, den }
    }

    /// The span of `shift` samples in whole microseconds, rounded towards
    /// zero.
    pub fn shift_micros(&self, shift: isize) -> (micros: i128)
        requires
            self.wf(),
        ensures
            micros == self.span_micros(shift as int),
    {
        let magnitude: u128 = if shift >= 0 {
            shift as u128
        } else {
            (-(shift as i128)) as u128
        };
        assert(magnitude * self.num * 1_000_000 <= 0x8000_0000_0000_0000 * 0xffff_ffff * 1_000_000)
            by (nonlinear_arith)
            requires
                magnitude <= 0x8000_0000_0000_0000,
                self.num <= 0xffff_ffff,
        ;
        let scaled: u128 = magnitude * (self.num as u128) * (MICROS_PER_SECOND as u128);
        let quotient: u128 = scaled / (self.den as u128);
        assert(quotient <= scaled) by (nonlinear_arith)
            requires
                quotient == scaled / (self.den as u128),
                self.den > 0,
        ;
        if shift >= 0 {
            quotient as i128
        } else {
            -(quotient as i128)
        }
    }
}

/// A melody sampled at a constant interval, starting at time zero: sample `i`
/// is the state over the `i`-th interval.
#[derive(Clone, Debug)]
pub struct UniformNoteTimeSeries {
    pub samples: Vec<NoteSample>,
    pub interval: Interval,
}

impl View for UniformNoteTimeSeries {
    type V = Seq<NoteSample>;

    open spec fn view(&self) -> Seq<NoteSample> {
        self.samples@
    }
}

impl UniformNoteTimeSeries {
    /// A series has a positive interval.
    pub open spec fn wf(&self) -> bool {
        self.interval.wf()
    }

    pub fn new(samples: Vec<NoteSample>, interval: Interval) -> (series: Self)
        requires
            interval.wf(),
        ensures
            series.wf(),
            series@ == samples@,
            series.interval == interval,
    {
        Self { samples, interval }
    }

    pub fn samples(&self) -> (samples: &Vec<NoteSample>)
        ensures
            samples@ == self@,
    {
        &self.samples
    }

    pub fn interval(&self) -> (interval: Interval)
        ensures
            interval == self.interval,
    {
        self.interval
    }

    pub fn len(&self) -> (len: usize)
        ensures
            len == self@.len(),
    {
        self.samples.len()
    }

    /// The samples, from the first to the last.
    pub fn iter(&self) -> (samples: std::slice::Iter<'_, NoteSample>)
        ensures
            vstd::std_specs::slice::into_iter_elts(samples) == self@,
    {
        self.samples.as_slice().iter()
    }

    /// Appends one sample at the end.
    pub fn push(&mut self, value: NoteSample)
        ensures
            final(self)@ == old(self)@.push(value),
            final(self).interval == old(self).interval,
    {
        self.samples.push(value);
    }
}

pub type DynNoteTimeSeries = UniformNoteTimeSeries;

pub type NoteTimeSeries = UniformNoteTimeSeries;

pub type NoteSeries = Vec<NoteSample>;

/// Microseconds per quarter note.
#[derive(Clone, Copy, Debug, PartialEq, Eq, Structural)]
pub struct Tempo(pub u32);

impl Tempo {
    /// The tempo in effect before any tempo change: 120 quarter notes per
    /// minute.
    pub const DEFAULT_MICROS: u32 = 500_000;

    pub fn micros(&self) -> (micros: u32)
        ensures
            micros == self.0,
    {
        self.0
    }
}

impl Default for Tempo {
    fn default() -> (tempo: Self)
        ensures
            tempo.0 == Tempo::DEFAULT_MICROS,
    {
        Tempo(Tempo::DEFAULT_MICROS)
    }
}

/// Reinterprets an unsigned size as a signed one of the same width: values up
/// to `isize::MAX` are kept, larger ones wrap into the negative range.
pub fn usize_to_isize(value: usize) -> (result: isize)
    ensures
        value <= isize::MAX ==> result == value,
        value > isize::MAX ==> result == value - usize::MAX - 1,
{
    if value <= isize::MAX as usize {
        value as isize
    } else {
        let low: usize = value - (isize::MAX as usize) - 1;
        (low as isize) + isize::MIN
    }
}

} // verus!
