use cantometria::{
    align, analyse, apply_note_shift, apply_time_shift, compute_note_shift, compute_time_shift,
    get_intersection, grade_coverage, grade_timing, is_recordable, plot_target_file, run,
    Accuracy, Division, Interval, MidiData, NewRawUnpaddedTargetMelodyError, Note, RunError,
    Track, TrackEvent, TrackEventKind, UnpaddedInputMelody,
};

fn note_on(delta_time: u32, key: u8) -> TrackEvent {
    TrackEvent { delta_time, kind: TrackEventKind::NoteOn { key, velocity: 100 } }
}

fn note_off(delta_time: u32) -> TrackEvent {
    TrackEvent { delta_time, kind: TrackEventKind::NoteOff }
}

/// Three notes of half a second each: C4, D4, E4.
fn reference() -> MidiData {
    MidiData {
        division: Division::QuarterNote(480),
        tracks: vec![Track {
            events: vec![note_on(0, 60), note_on(480, 62), note_on(480, 64), note_off(480)],
        }],
    }
}

/// The reference on a grid of a tenth of a second, raised by `raise` cents.
fn sung(raise: i32) -> Vec<Option<Note>> {
    let mut pitches = Vec::new();
    for key in [60, 62, 64] {
        for _ in 0..5 {
            pitches.push(Some(Note::new(key * 100 + raise)));
        }
    }
    pitches
}

/// A recording whose windows are a tenth of a second apart.
fn recording(pitches: Vec<Option<Note>>) -> UnpaddedInputMelody {
    UnpaddedInputMelody::new(pitches, 10_240, 1)
}

const WHOLE: Accuracy =
    Accuracy { coverage: 1_000_000, timing: 1_000_000, pitch: 1_000_000, key: 1_000_000 };

#[test]
fn identical_melodies_score_the_whole() {
    let accuracy = run(&reference(), recording(sung(0))).unwrap();
    assert_eq!(accuracy, WHOLE);
    assert_eq!(accuracy.total_accuracy(), 1_000_000);
}

#[test]
fn delay_of_100_ms_is_found_and_undone() {
    let target = {
        let mut target = sung(0);
        target.push(None);
        target
    };
    let mut input = vec![None];
    input.extend(sung(0));
    let interval = Interval::new(1024, 10_240);

    let shift = compute_time_shift(&target, &input).unwrap();
    assert_eq!(shift, -1);
    assert_eq!(interval.shift_micros(shift).abs(), 100_000);

    let mut aligned = target.clone();
    apply_time_shift(&mut aligned, shift);
    let raise = compute_note_shift(&aligned, &input).unwrap();
    assert_eq!(raise, 0);
    apply_note_shift(&mut aligned, raise);
    assert_eq!(aligned, input);

    // Once aligned, no shift is left, and every pitch is met.
    let left = compute_time_shift(&aligned, &input).unwrap();
    assert_eq!(left, 0);
    let accuracy = Accuracy::new(&aligned, &input, interval.shift_micros(left), raise);
    assert_eq!(accuracy.timing, 1_000_000);
    assert_eq!(accuracy.pitch, 1_000_000);
}

#[test]
fn delay_of_100_ms_costs_a_quarter_of_the_timing() {
    let mut pitches = vec![None];
    pitches.extend(sung(0));
    let accuracy = run(&reference(), recording(pitches)).unwrap();
    assert_eq!(
        accuracy,
        Accuracy { coverage: 1_000_000, timing: 750_000, pitch: 1_000_000, key: 1_000_000 }
    );
    assert_eq!(accuracy.timing, grade_timing(-100_000));
    assert_eq!(accuracy.total_accuracy(), 750_000);
}

#[test]
fn an_octave_up_keeps_the_key() {
    let target = sung(0);
    let input = sung(1200);
    let (pairs, _) = get_intersection(&target, &input);
    assert!(pairs.iter().all(|&(reference, recorded)| recorded - reference == 1200));
    let accuracy = run(&reference(), recording(input)).unwrap();
    assert_eq!(accuracy.key, 1_000_000);
    assert_eq!(accuracy, WHOLE);
}

#[test]
fn a_silent_recording_covers_nothing() {
    let target = sung(0);
    let input = vec![None; 15];
    let (pairs, misses) = get_intersection(&target, &input);
    assert!(pairs.is_empty());
    assert_eq!(misses, target.len());
    assert_eq!(grade_coverage(misses, target.len()), 0);
}

#[test]
fn a_silent_recording_has_no_overlap() {
    assert_eq!(run(&reference(), recording(vec![None; 15])), Err(RunError::InsufficientOverlap));
    assert_eq!(run(&reference(), recording(vec![])), Err(RunError::InsufficientOverlap));
}

#[test]
fn empty_melodies_are_an_error() {
    let midi = MidiData {
        division: Division::QuarterNote(480),
        tracks: vec![Track { events: vec![] }],
    };
    assert_eq!(run(&midi, recording(vec![])), Err(RunError::InputMelodyEmpty));
    // A single event at time zero gives no sample either.
    let midi = MidiData {
        division: Division::QuarterNote(480),
        tracks: vec![Track { events: vec![note_on(0, 60)] }],
    };
    assert_eq!(run(&midi, recording(vec![])), Err(RunError::InputMelodyEmpty));
}

#[test]
fn a_rejected_reference_is_an_error() {
    let midi = MidiData { division: Division::Smpte, tracks: vec![Track { events: vec![] }] };
    assert_eq!(
        run(&midi, recording(sung(0))),
        Err(RunError::NewRawUnpaddedInputMelody(
            NewRawUnpaddedTargetMelodyError::UnsupportedDivisionType
        ))
    );
    let midi = MidiData { division: Division::QuarterNote(480), tracks: vec![] };
    assert_eq!(
        run(&midi, recording(sung(0))),
        Err(RunError::NewRawUnpaddedInputMelody(
            NewRawUnpaddedTargetMelodyError::MidiFileTracksLenNotOne(0)
        ))
    );
}

/// Three notes of four tenths of a second each, with rests of a tenth of a
/// second between them, after two tenths of a second of silence.
fn phrased_reference() -> MidiData {
    MidiData {
        division: Division::QuarterNote(480),
        tracks: vec![Track {
            events: vec![
                note_on(192, 60),
                note_off(384),
                note_on(96, 62),
                note_off(384),
                note_on(96, 64),
                note_off(384),
            ],
        }],
    }
}

/// The phrased reference on a grid of a tenth of a second, raised by `raise`
/// cents.
fn phrased(raise: i32) -> Vec<Option<Note>> {
    let mut pitches = vec![None, None];
    for key in [60, 62, 64] {
        for _ in 0..4 {
            pitches.push(Some(Note::new(key * 100 + raise)));
        }
        pitches.push(None);
    }
    pitches.pop();
    pitches
}

#[test]
fn sharp_singing_with_gaps() {
    let mut pitches = phrased(30);
    pitches[3] = None;
    pitches[9] = None;
    let accuracy = run(&phrased_reference(), recording(pitches)).unwrap();
    assert_eq!(
        accuracy,
        Accuracy { coverage: 956_465, timing: 1_000_000, pitch: 1_000_000, key: 970_000 }
    );
    assert_eq!(accuracy.total_accuracy(), 949_291);
}

#[test]
fn flat_and_late_singing() {
    let mut pitches = vec![None];
    pitches.extend(phrased(-40));
    let accuracy = run(&phrased_reference(), recording(pitches)).unwrap();
    assert_eq!(
        accuracy,
        Accuracy { coverage: 1_000_000, timing: 750_000, pitch: 1_000_000, key: 880_000 }
    );
    assert_eq!(accuracy.total_accuracy(), 727_500);
}

#[test]
fn singing_half_an_octave_off_keeps_half_of_the_key() {
    let accuracy = run(&phrased_reference(), recording(phrased(630))).unwrap();
    assert_eq!(
        accuracy,
        Accuracy { coverage: 1_000_000, timing: 1_000_000, pitch: 1_000_000, key: 472_752 }
    );
    assert_eq!(accuracy.total_accuracy(), 868_188);
}

#[test]
fn a_longer_recording_draws_the_reference_to_its_highest_pitches() {
    // The recording goes on for half a second after the reference has ended.
    // The correlation is greatest where the reference lies half a second
    // later, on the higher pitches of the recording.
    let mut pitches = sung(0);
    pitches.extend(vec![Some(Note::new(6500)); 5]);
    let accuracy = run(&reference(), recording(pitches)).unwrap();
    assert_eq!(
        accuracy,
        Accuracy { coverage: 1_000_000, timing: 0, pitch: 947_200, key: 245_361 }
    );
    assert_eq!(accuracy.total_accuracy(), 0);
}

#[test]
fn a_shorter_recording_misses_the_rest() {
    // The first two notes of three are sung: the correlation is greatest
    // where the second and third note of the reference lie on them.
    let mut pitches = sung(0);
    pitches.truncate(10);
    let accuracy = run(&reference(), recording(pitches)).unwrap();
    assert_eq!(accuracy.coverage, grade_coverage(5, 15));
    assert_eq!(
        accuracy,
        Accuracy { coverage: 873_580, timing: 0, pitch: 1_000_000, key: 169_721 }
    );
}

#[test]
fn pitches_near_the_ends_of_the_range_are_taken() {
    let high = i32::MAX - 25_500;
    let accuracy = run(&reference(), recording(vec![Some(Note::new(high)); 15])).unwrap();
    assert_eq!(accuracy.coverage, 1_000_000);
    let low = i32::MIN + 25_500;
    let accuracy = run(&reference(), recording(vec![Some(Note::new(low)); 15])).unwrap();
    assert_eq!(accuracy.coverage, 1_000_000);
}

#[test]
fn plot_file_is_named_after_both_files() {
    assert_eq!(plot_target_file("bite", "bite-cn"), "bite+bite-cn.png");
    assert_eq!(plot_target_file("", ""), "+.png");
    assert_eq!(plot_target_file("tetris", "tetris-2"), "tetris+tetris-2.png");
}

#[test]
fn align_shifts_in_time_and_pitch() {
    let target = phrased(0);
    let mut input = phrased(-40);
    input.rotate_right(1);
    let alignment = align(target, &input).unwrap();
    assert_eq!(alignment.time_shift, -1);
    assert_eq!(alignment.note_shift, -40);
    assert_eq!(alignment.target, input);
}

#[test]
fn align_fails_on_empty_melodies() {
    assert_eq!(align(vec![], &vec![]).unwrap_err(), RunError::InputMelodyEmpty);
}

#[test]
fn align_fails_without_a_common_pitched_place() {
    let target = vec![Some(Note::new(6000)), None, None, None];
    let input = vec![None, None, None, None];
    assert_eq!(align(target, &input).unwrap_err(), RunError::InsufficientOverlap);
    let target = vec![None, None];
    let input = vec![Some(Note::new(6000)), Some(Note::new(6100))];
    assert_eq!(align(target, &input).unwrap_err(), RunError::InsufficientOverlap);
}

#[test]
fn analyse_hands_out_what_the_scores_were_made_from() {
    let mut pitches = vec![None];
    pitches.extend(phrased(-40));
    let graded = analyse(&phrased_reference(), recording(pitches.clone())).unwrap();
    assert_eq!(
        graded.accuracy,
        Accuracy { coverage: 1_000_000, timing: 750_000, pitch: 1_000_000, key: 880_000 }
    );
    assert_eq!(graded.alignment.time_shift, -1);
    assert_eq!(graded.alignment.note_shift, -40);
    assert_eq!(graded.alignment.target, pitches);
    assert_eq!(graded.input.notes().samples(), &pitches);
    assert_eq!(graded.input.notes().interval(), Interval::new(1024, 10_240));
}

#[test]
fn analyse_pads_the_recording() {
    let mut pitches = sung(0);
    pitches.truncate(10);
    let graded = analyse(&reference(), recording(pitches.clone())).unwrap();
    pitches.extend(vec![None; 5]);
    assert_eq!(graded.input.notes().samples(), &pitches);
    assert_eq!(graded.alignment.time_shift, 5);
    assert_eq!(graded.alignment.note_shift, -200);
    assert_eq!(graded.alignment.target.len(), 15);
}

#[test]
fn analyse_fails_as_run_does() {
    assert_eq!(
        analyse(&reference(), recording(vec![None; 15])).unwrap_err(),
        RunError::InsufficientOverlap
    );
    let midi = MidiData { division: Division::QuarterNote(0), tracks: vec![] };
    assert_eq!(
        analyse(&midi, recording(sung(0))).unwrap_err(),
        RunError::NewRawUnpaddedInputMelody(
            NewRawUnpaddedTargetMelodyError::UnsupportedDivisionType
        )
    );
}

#[test]
fn recordable_pitches_keep_away_from_the_ends() {
    assert!(is_recordable(&vec![]));
    assert!(is_recordable(&vec![None, Some(Note::new(0)), Some(Note::new(-1_000_000))]));
    assert!(is_recordable(&vec![Some(Note::new(i32::MAX - 25_500))]));
    assert!(is_recordable(&vec![Some(Note::new(i32::MIN + 25_500))]));
    assert!(!is_recordable(&vec![None, Some(Note::new(i32::MAX - 25_499))]));
    assert!(!is_recordable(&vec![Some(Note::new(6000)), Some(Note::new(i32::MIN + 25_499)), None]));
    assert!(!is_recordable(&vec![Some(Note::new(i32::MIN))]));
}
