use cantometria::{
    pitch_range, usize_to_isize, Interval, Note, Tempo, Timed, UniformNoteTimeSeries,
};

#[test]
fn usize_to_isize_keeps_small_values() {
    assert_eq!(usize_to_isize(0), 0);
    assert_eq!(usize_to_isize(17), 17);
    assert_eq!(usize_to_isize(isize::MAX as usize), isize::MAX);
}

#[test]
fn usize_to_isize_wraps_large_values() {
    assert_eq!(usize_to_isize(usize::MAX), -1);
    assert_eq!(usize_to_isize(isize::MAX as usize + 1), isize::MIN);
}

#[test]
fn note_holds_cents() {
    assert_eq!(Note::new(6900).cents, 6900);
    assert_eq!(Note::new(-250).cents, -250);
}

#[test]
fn note_from_key_counts_semitones() {
    assert_eq!(Note::from_key(69), Note::new(6900));
    assert_eq!(Note::from_key(0).cents, 0);
    assert_eq!(Note::from_key(255).cents, 25_500);
}

#[test]
fn velocity_threshold_is_zero() {
    assert_eq!(Note::VELOCITY_THRESHOLD, 0);
}

#[test]
fn timed_keeps_time_and_value() {
    let timed = Timed::new(1_500_000, Some(Note::new(6000)));
    assert_eq!(timed.time, 1_500_000);
    assert_eq!(timed.value, Some(Note::new(6000)));
}

#[test]
fn default_tempo_is_120_quarters_per_minute() {
    assert_eq!(Tempo::default().micros(), 500_000);
    assert_eq!(Tempo::DEFAULT_MICROS, 500_000);
    assert_eq!(Tempo(250_000).micros(), 250_000);
}

#[test]
fn interval_shift_micros_is_exact_for_whole_results() {
    // 1024 samples at 10240 per second: a tenth of a second.
    let interval = Interval::new(1024, 10_240);
    assert_eq!(interval.shift_micros(0), 0);
    assert_eq!(interval.shift_micros(1), 100_000);
    assert_eq!(interval.shift_micros(-1), -100_000);
    assert_eq!(interval.shift_micros(25), 2_500_000);
}

#[test]
fn interval_shift_micros_rounds_towards_zero() {
    // 1024 / 44100 s = 23219.954... microseconds
    let interval = Interval::new(1024, 44_100);
    assert_eq!(interval.shift_micros(1), 23_219);
    assert_eq!(interval.shift_micros(-1), -23_219);
    assert_eq!(interval.shift_micros(3), 69_659);
    assert_eq!(interval.shift_micros(-3), -69_659);
}

#[test]
fn interval_shift_micros_takes_the_extremes() {
    let interval = Interval::new(u32::MAX, 1);
    let most = (isize::MAX as i128) * (u32::MAX as i128) * 1_000_000;
    assert_eq!(interval.shift_micros(isize::MAX), most);
    let least = (isize::MIN as i128) * (u32::MAX as i128) * 1_000_000;
    assert_eq!(interval.shift_micros(isize::MIN), least);
}

#[test]
fn series_keeps_samples_and_interval() {
    let samples = vec![Some(Note::new(6000)), None, Some(Note::new(6200))];
    let interval = Interval::new(1024, 44_100);
    let mut series = UniformNoteTimeSeries::new(samples.clone(), interval);
    assert_eq!(series.len(), 3);
    assert_eq!(series.samples(), &samples);
    assert_eq!(series.interval(), interval);
    series.push(None);
    series.push(Some(Note::new(100)));
    assert_eq!(series.len(), 5);
    assert_eq!(series.samples()[3], None);
    assert_eq!(series.samples()[4], Some(Note::new(100)));
    assert_eq!(series.samples()[0], Some(Note::new(6000)));
    assert_eq!(series.interval(), interval);
}

#[test]
fn timed_from_a_pair() {
    let timed: Timed<Option<Note>> = Timed::from((250_000, Some(Note::new(6100))));
    assert_eq!(timed.time, 250_000);
    assert_eq!(timed.value, Some(Note::new(6100)));
    let timed: Timed<u8> = (7, 3).into();
    assert_eq!((timed.time, timed.value), (7, 3));
}

#[test]
fn series_iterates_over_its_samples() {
    let samples = vec![Some(Note::new(6000)), None, Some(Note::new(6200))];
    let series = UniformNoteTimeSeries::new(samples.clone(), Interval::new(1, 10));
    let seen: Vec<Option<Note>> = series.iter().copied().collect();
    assert_eq!(seen, samples);
    let empty = UniformNoteTimeSeries::new(vec![], Interval::new(1, 10));
    assert_eq!(empty.iter().count(), 0);
}

#[test]
fn pitch_range_is_the_lowest_and_the_highest_pitch() {
    let note = |cents| Some(Note::new(cents));
    assert_eq!(pitch_range(&vec![]), None);
    assert_eq!(pitch_range(&vec![None, None]), None);
    assert_eq!(pitch_range(&vec![None, note(6000)]), Some((6000, 6000)));
    assert_eq!(pitch_range(&vec![note(6200), None, note(-5), note(7000), None]), Some((-5, 7000)));
    assert_eq!(pitch_range(&vec![note(3), note(2), note(1)]), Some((1, 3)));
    assert_eq!(
        pitch_range(&vec![note(i32::MAX), note(0), note(i32::MIN)]),
        Some((i32::MIN, i32::MAX))
    );
}
