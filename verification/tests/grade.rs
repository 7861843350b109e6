use cantometria::{
    distance_to_nearest_octave, get_intersection, grade_coverage, grade_key, grade_pitch,
    grade_timing, knot_value, median, Accuracy, Note, FULL_SCORE,
};

fn melody(cents: &[i32]) -> Vec<Option<Note>> {
    cents.iter().map(|&c| if c == 0 { None } else { Some(Note::new(c)) }).collect()
}

#[test]
fn curve_marks() {
    assert_eq!(FULL_SCORE, 1_000_000);
    assert_eq!(grade_key(0), 1_000_000);
    assert_eq!(grade_key(300), 0);
    assert_eq!(grade_key(600), 500_000);
}

#[test]
fn curve_is_a_capped_parabola_up_to_half_a_semitone() {
    assert_eq!(grade_key(10), 1_000_000);
    assert_eq!(grade_key(25), 1_000_000);
    assert_eq!(grade_key(26), 994_800);
    assert_eq!(grade_key(30), 970_000);
    assert_eq!(grade_key(49), 764_800);
}

#[test]
fn curve_runs_from_knot_to_knot() {
    assert_eq!(grade_key(50), 750_000);
    assert_eq!(grade_key(55), 711_841);
    assert_eq!(grade_key(59), 681_314);
    assert_eq!(grade_key(100), 459_860);
    assert_eq!(grade_key(150), 290_140);
    assert_eq!(grade_key(200), 169_721);
    assert_eq!(grade_key(295), 7_095);
    assert_eq!(grade_key(299), 1_419);
    assert_eq!(grade_key(405), 1_539);
    assert_eq!(grade_key(450), 73_223);
    assert_eq!(grade_key(500), 250_000);
    assert_eq!(grade_key(550), 426_777);
    assert_eq!(grade_key(599), 499_692);
}

#[test]
fn curve_is_nothing_between_three_and_four_semitones_and_beyond_six() {
    for d in 300..=400 {
        assert_eq!(grade_key(d), 0);
    }
    assert_eq!(grade_key(601), 0);
    assert_eq!(grade_key(1200), 0);
    assert_eq!(grade_key(u64::MAX), 0);
}

#[test]
fn curve_stays_between_nothing_and_the_whole() {
    for d in 0..=700 {
        assert!(grade_key(d) <= 1_000_000);
    }
}

#[test]
fn knots_are_the_curve_at_every_tenth_cent() {
    for k in 0..=55 {
        assert_eq!(knot_value(k), grade_key(50 + 10 * k));
    }
    assert_eq!(knot_value(0), 750_000);
    assert_eq!(knot_value(5), 459_860);
    assert_eq!(knot_value(25), 0);
    assert_eq!(knot_value(45), 250_000);
    assert_eq!(knot_value(55), 500_000);
    assert_eq!(knot_value(56), 0);
}

#[test]
fn curve_follows_its_formulas() {
    for d in 0..=600u64 {
        let x = d as f64 / 100.0;
        let expected = if x < 0.5 {
            (1.0 + 0.5 * x - 2.0 * x * x).min(1.0)
        } else if x < 3.0 {
            0.75 * (3.0 / x).ln() / 6f64.ln()
        } else if x < 4.0 {
            0.0
        } else {
            0.25 * (1.0 - (std::f64::consts::PI * (x - 4.0) / 2.0).cos())
        };
        let got = grade_key(d) as f64 / 1e6;
        assert!((got - expected).abs() < 0.002, "at {} cents: {} for {}", d, got, expected);
    }
}

#[test]
fn octave_distance_folds_octaves() {
    assert_eq!(distance_to_nearest_octave(0), 0);
    assert_eq!(distance_to_nearest_octave(1200), 0);
    assert_eq!(distance_to_nearest_octave(-1200), 0);
    assert_eq!(distance_to_nearest_octave(2400), 0);
    assert_eq!(distance_to_nearest_octave(100), 100);
    assert_eq!(distance_to_nearest_octave(-100), 100);
    assert_eq!(distance_to_nearest_octave(600), 600);
    assert_eq!(distance_to_nearest_octave(-600), 600);
    assert_eq!(distance_to_nearest_octave(601), 599);
    assert_eq!(distance_to_nearest_octave(-601), 599);
    assert_eq!(distance_to_nearest_octave(1150), 50);
    assert_eq!(distance_to_nearest_octave(1250), 50);
    assert_eq!(distance_to_nearest_octave(-1150), 50);
    assert_eq!(distance_to_nearest_octave(-3650), 50);
    // i64::MAX is 607 cents above a whole number of octaves, i64::MIN 592
    assert_eq!(distance_to_nearest_octave(i64::MAX), 593);
    assert_eq!(distance_to_nearest_octave(i64::MIN), 592);
}

#[test]
fn intersection_pairs_and_misses() {
    let target = melody(&[6000, 6200, 0, 6400, 0, 6500]);
    let input = melody(&[6100, 0, 7000, 6300, 0, 0]);
    let (pairs, misses) = get_intersection(&target, &input);
    assert_eq!(pairs, vec![(6000, 6100), (6400, 6300)]);
    assert_eq!(misses, 2);
    let (pairs, misses) = get_intersection(&vec![], &vec![]);
    assert!(pairs.is_empty());
    assert_eq!(misses, 0);
}

#[test]
fn coverage_is_the_cube_root_of_the_part_not_missed() {
    assert_eq!(grade_coverage(0, 10), 1_000_000);
    assert_eq!(grade_coverage(1, 10), 965_489);
    assert_eq!(grade_coverage(5, 10), 793_700);
    assert_eq!(grade_coverage(9, 10), 464_158);
    assert_eq!(grade_coverage(10, 10), 0);
    assert_eq!(grade_coverage(1, 8), 956_465);
    assert_eq!(grade_coverage(7, 8), 500_000);
    assert_eq!(grade_coverage(1, 3), 873_580);
    assert_eq!(grade_coverage(1, 1000), 999_666);
    assert_eq!(grade_coverage(999, 1000), 100_000);
}

#[test]
fn coverage_at_the_edges() {
    assert_eq!(grade_coverage(0, 0), 1_000_000);
    assert_eq!(grade_coverage(1, 0), 0);
    assert_eq!(grade_coverage(11, 10), 0);
    assert_eq!(grade_coverage(0, usize::MAX), 1_000_000);
    assert_eq!(grade_coverage(usize::MAX, usize::MAX), 0);
    assert_eq!(grade_coverage(usize::MAX, 0), 0);
}

#[test]
fn coverage_never_grows_with_the_misses() {
    let len = 200;
    let mut last = grade_coverage(0, len);
    assert_eq!(last, 1_000_000);
    for misses in 1..=len + 3 {
        let next = grade_coverage(misses, len);
        assert!(next <= last);
        last = next;
    }
    assert_eq!(last, 0);
}

#[test]
fn timing_marks() {
    assert_eq!(grade_timing(0), 1_000_000);
    assert_eq!(grade_timing(300_000), 0);
    assert_eq!(grade_timing(150_000), 500_000);
}

#[test]
fn timing_ramps_between_50_and_250_milliseconds() {
    assert_eq!(grade_timing(49_999), 1_000_000);
    assert_eq!(grade_timing(50_000), 1_000_000);
    assert_eq!(grade_timing(50_001), 999_995);
    assert_eq!(grade_timing(100_000), 750_000);
    assert_eq!(grade_timing(200_000), 250_000);
    assert_eq!(grade_timing(249_999), 5);
    assert_eq!(grade_timing(250_000), 0);
}

#[test]
fn timing_counts_early_as_late() {
    assert_eq!(grade_timing(-49_999), 1_000_000);
    assert_eq!(grade_timing(-100_000), 750_000);
    assert_eq!(grade_timing(-150_000), 500_000);
    assert_eq!(grade_timing(-250_000), 0);
    assert_eq!(grade_timing(i128::MIN), 0);
    assert_eq!(grade_timing(i128::MAX), 0);
}

#[test]
fn median_of_sorted_scores() {
    assert_eq!(median(&vec![7]), 7);
    assert_eq!(median(&vec![1, 9]), 5);
    assert_eq!(median(&vec![1, 2]), 1);
    assert_eq!(median(&vec![1, 5, 9]), 5);
    assert_eq!(median(&vec![1, 5, 7, 100]), 6);
    assert_eq!(median(&vec![u32::MAX, u32::MAX]), u32::MAX);
}

#[test]
fn pitch_is_the_median_credit() {
    // credits 1_000_000, 0, 1_000_000: the median is found after sorting
    assert_eq!(grade_pitch(&vec![(6000, 6000), (6000, 6300), (6100, 6100)]), 1_000_000);
    // credits 0, 1_000_000, 0
    assert_eq!(grade_pitch(&vec![(6000, 6300), (6000, 6000), (6100, 6400)]), 0);
    // credits 750_000, 0, 1_000_000, 500_000 in order 0, 500_000, 750_000, 1_000_000
    assert_eq!(
        grade_pitch(&vec![(6000, 6050), (6000, 5700), (6000, 6010), (6600, 6000)]),
        625_000
    );
    assert_eq!(grade_pitch(&vec![(i32::MIN, i32::MAX)]), 0);
    assert_eq!(grade_pitch(&vec![(-50, 50)]), 459_860);
}

#[test]
fn pitch_resists_single_outliers() {
    let mut pairs = vec![(6000, 6000); 9];
    pairs.insert(2, (6000, 7200));
    pairs.insert(7, (6000, 4800));
    assert_eq!(grade_pitch(&pairs), 1_000_000);
}

#[test]
fn total_is_coverage_times_timing_times_weighted_pitch_and_key() {
    let all = Accuracy { coverage: 1_000_000, timing: 1_000_000, pitch: 1_000_000, key: 1_000_000 };
    assert_eq!(all.total_accuracy(), 1_000_000);
    let some = Accuracy { coverage: 500_000, timing: 750_000, pitch: 800_000, key: 400_000 };
    assert_eq!(some.total_accuracy(), 262_500);
    let odd = Accuracy { coverage: 333_333, timing: 999_999, pitch: 123_456, key: 654_321 };
    assert_eq!(odd.total_accuracy(), 85_390);
    let pitch_only = Accuracy { coverage: 1_000_000, timing: 1_000_000, pitch: 1_000_000, key: 0 };
    assert_eq!(pitch_only.total_accuracy(), 750_000);
    let key_only = Accuracy { coverage: 1_000_000, timing: 1_000_000, pitch: 0, key: 1_000_000 };
    assert_eq!(key_only.total_accuracy(), 250_000);
    assert_eq!(Accuracy::PITCH_WEIGHT, 3);
}

#[test]
fn total_is_nothing_without_coverage_or_timing() {
    let a = Accuracy { coverage: 0, timing: 1_000_000, pitch: 1_000_000, key: 1_000_000 };
    assert_eq!(a.total_accuracy(), 0);
    let a = Accuracy { coverage: 1_000_000, timing: 0, pitch: 1_000_000, key: 1_000_000 };
    assert_eq!(a.total_accuracy(), 0);
}

#[test]
fn total_of_scores_beyond_the_whole_does_not_overflow() {
    let a = Accuracy { coverage: u32::MAX, timing: u32::MAX, pitch: u32::MAX, key: u32::MAX };
    assert_eq!(a.total_accuracy(), 79_228_162_458_924_105);
}

#[test]
fn total_stays_within_the_whole() {
    let steps = [0u32, 1, 250_000, 500_000, 999_999, 1_000_000];
    for &coverage in &steps {
        for &timing in &steps {
            for &pitch in &steps {
                for &key in &steps {
                    let a = Accuracy { coverage, timing, pitch, key };
                    assert!(a.total_accuracy() <= 1_000_000);
                }
            }
        }
    }
}

#[test]
fn accuracy_of_an_aligned_reference() {
    // 6 samples; one miss; pairs at distances 0, 10, 100, 0
    let target = melody(&[6000, 6200, 6400, 6500, 0, 6700]);
    let input = melody(&[6000, 6210, 6300, 0, 6900, 6700]);
    let accuracy = Accuracy::new(&target, &input, 100_000, 1_250);
    assert_eq!(accuracy.coverage, grade_coverage(1, 6));
    assert_eq!(accuracy.coverage, 941_036);
    assert_eq!(accuracy.timing, 750_000);
    // credits 1_000_000, 1_000_000, 459_860, 1_000_000
    assert_eq!(accuracy.pitch, 1_000_000);
    // 50 cents from an octave
    assert_eq!(accuracy.key, 750_000);
}
