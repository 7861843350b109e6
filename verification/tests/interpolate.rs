use cantometria::{
    Division, MidiData, Note, RawUnpaddedTargetMelody, Tempo, Track, TrackEvent,
    TrackEventKind, UnpaddedInputMelody,
};

fn note_on(delta_time: u32, key: u8) -> TrackEvent {
    TrackEvent { delta_time, kind: TrackEventKind::NoteOn { key, velocity: 100 } }
}

fn note_off(delta_time: u32) -> TrackEvent {
    TrackEvent { delta_time, kind: TrackEventKind::NoteOff }
}

/// A melody whose events happen at the given microseconds: one tick is one
/// microsecond.
fn melody(events: Vec<TrackEvent>) -> RawUnpaddedTargetMelody {
    let mut all = vec![TrackEvent { delta_time: 0, kind: TrackEventKind::SetTempo(Tempo(1)) }];
    all.extend(events);
    let midi = MidiData { division: Division::QuarterNote(1), tracks: vec![Track { events: all }] };
    RawUnpaddedTargetMelody::new(&midi).unwrap()
}

/// A recording without samples whose windows are a tenth of a second apart.
fn tenth_of_a_second_grid() -> UnpaddedInputMelody {
    UnpaddedInputMelody::new(vec![], 10_240, 1)
}

fn cents(samples: &[Option<Note>]) -> Vec<Option<i32>> {
    samples.iter().map(|s| s.map(|n| n.cents)).collect()
}

#[test]
fn holds_each_state_until_the_next_change() {
    let raw = melody(vec![note_on(0, 60), note_on(250_000, 62), note_off(250_000)]);
    let held = raw.zero_order_hold(&tenth_of_a_second_grid());
    // instants 0, 0.1, 0.2, 0.3, 0.4 lie before the last event at 0.5 s
    assert_eq!(
        cents(held.notes.samples()),
        vec![Some(6000), Some(6000), Some(6000), Some(6200), Some(6200)]
    );
}

#[test]
fn is_silent_before_the_first_event() {
    let raw = melody(vec![note_on(150_000, 60), note_off(200_000)]);
    let held = raw.zero_order_hold(&tenth_of_a_second_grid());
    assert_eq!(cents(held.notes.samples()), vec![None, None, Some(6000), Some(6000)]);
}

#[test]
fn an_event_at_an_instant_counts_for_it() {
    let raw = melody(vec![
        note_on(0, 60),
        note_on(100_000, 61),
        note_on(100_000, 62),
        note_off(100_000),
    ]);
    let held = raw.zero_order_hold(&tenth_of_a_second_grid());
    assert_eq!(cents(held.notes.samples()), vec![Some(6000), Some(6100), Some(6200)]);
}

#[test]
fn of_events_at_one_time_the_last_is_held() {
    let raw = melody(vec![note_on(0, 60), note_off(0), note_on(0, 64), note_off(250_000)]);
    let held = raw.zero_order_hold(&tenth_of_a_second_grid());
    assert_eq!(cents(held.notes.samples()), vec![Some(6400), Some(6400), Some(6400)]);
}

#[test]
fn length_is_the_last_time_over_the_interval_rounded_up() {
    let grid = tenth_of_a_second_grid();
    assert_eq!(melody(vec![note_on(0, 60)]).zero_order_hold(&grid).notes.len(), 0);
    assert_eq!(melody(vec![note_on(1, 60)]).zero_order_hold(&grid).notes.len(), 1);
    assert_eq!(melody(vec![note_on(100_000, 60)]).zero_order_hold(&grid).notes.len(), 1);
    assert_eq!(melody(vec![note_on(100_001, 60)]).zero_order_hold(&grid).notes.len(), 2);
    assert_eq!(melody(vec![note_on(1_000_000, 60)]).zero_order_hold(&grid).notes.len(), 10);
}

#[test]
fn no_events_give_no_samples() {
    let held = melody(vec![]).zero_order_hold(&tenth_of_a_second_grid());
    assert_eq!(held.notes.len(), 0);
}

#[test]
fn takes_the_interval_of_the_recording() {
    let input = UnpaddedInputMelody::new(vec![None, None], 44_100, 2);
    let held = melody(vec![note_on(0, 60), note_off(50_000)]).zero_order_hold(&input);
    assert_eq!(held.notes.interval(), input.notes.interval());
    // 1024 / 88200 s = 11609.97.. microseconds: instants 0, 11609.., 23219.., 34829.., 46439..
    assert_eq!(held.notes.len(), 5);
}

#[test]
fn instants_are_not_rounded() {
    // The second instant is 1024 / 44100 s = 23219.95.. microseconds: an
    // event at 23219 is before it, one at 23220 is after it.
    let input = UnpaddedInputMelody::new(vec![], 44_100, 1);
    let raw = melody(vec![note_on(0, 60), note_on(23_219, 61), note_off(0)]);
    let held = raw.zero_order_hold(&input);
    assert_eq!(cents(held.notes.samples()), vec![Some(6000)]);
    let raw = melody(vec![note_on(0, 60), note_on(23_219, 61), note_off(1)]);
    let held = raw.zero_order_hold(&input);
    assert_eq!(cents(held.notes.samples()), vec![Some(6000), Some(6100)]);
    let raw = melody(vec![note_on(0, 60), note_on(23_219, 61), note_off(30_000)]);
    let held = raw.zero_order_hold(&input);
    assert_eq!(cents(held.notes.samples()), vec![Some(6000), Some(6100), Some(6100)]);
    let raw = melody(vec![note_on(0, 60), note_on(23_220, 61), note_off(30_000)]);
    let held = raw.zero_order_hold(&input);
    assert_eq!(cents(held.notes.samples()), vec![Some(6000), Some(6000), Some(6100)]);
}
