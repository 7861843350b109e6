use cantometria::{compute_time_shift, Note};
use rustfft::num_complex::Complex;
use rustfft::FftPlanner;

/// The time shift as the frequency-domain transform gives it: the place of
/// the greatest real part of the inverse transform of the product of the
/// conjugate spectrum of the recording and the spectrum of the reference.
fn transformed_time_shift(target: &[Option<Note>], input: &[Option<Note>]) -> isize {
    let n = target.len();
    let mut planner = FftPlanner::new();
    let fft = planner.plan_fft_forward(n);
    let ifft = planner.plan_fft_inverse(n);
    let signal = |melody: &[Option<Note>]| -> Vec<Complex<f64>> {
        melody
            .iter()
            .map(|v| Complex::new(v.map_or(0., |x| f64::from(x.cents) / 100.), 0.))
            .collect()
    };
    let mut target_fft = signal(target);
    let mut input_fft = signal(input);
    fft.process(&mut target_fft);
    fft.process(&mut input_fft);
    for i in 0..n {
        input_fft[i] = input_fft[i].conj() * target_fft[i];
    }
    ifft.process(&mut input_fft);
    let (max_shift, _) = input_fft
        .iter()
        .enumerate()
        .max_by(|(_, a), (_, b)| a.re.total_cmp(&b.re))
        .expect("input_fft must not be empty");
    if 2 * max_shift < n {
        max_shift as isize
    } else {
        max_shift as isize - n as isize
    }
}

/// A melody without repetition: pitches from a fixed sequence of numbers,
/// with a rest now and then.
fn melody(len: usize, seed: u64) -> Vec<Option<Note>> {
    let mut state = seed;
    (0..len)
        .map(|_| {
            state = state.wrapping_mul(6364136223846793005).wrapping_add(1442695040888963407);
            let draw = (state >> 33) as i32;
            if draw % 5 == 0 {
                None
            } else {
                Some(Note::new(4800 + draw % 2400))
            }
        })
        .collect()
}

#[test]
fn correlation_agrees_with_the_transform_on_shifted_melodies() {
    for (len, seed) in [(8, 1), (15, 2), (16, 3), (31, 4), (64, 5), (100, 6), (257, 7)] {
        let target = melody(len, seed);
        for shift in [0, 1, 2, len / 3, len / 2, len - 1] {
            let mut input = target.clone();
            input.rotate_right(shift % len);
            assert_eq!(
                compute_time_shift(&target, &input),
                Some(transformed_time_shift(&target, &input)),
                "length {}, shift {}",
                len,
                shift
            );
        }
    }
}

#[test]
fn correlation_agrees_with_the_transform_on_unlike_melodies() {
    for (len, seed) in [(8, 11), (15, 12), (16, 13), (31, 14), (64, 15), (100, 16), (257, 17)] {
        let target = melody(len, seed);
        let input = melody(len, seed + 100);
        assert_eq!(
            compute_time_shift(&target, &input),
            Some(transformed_time_shift(&target, &input)),
            "length {}",
            len
        );
    }
}

#[test]
fn correlation_agrees_with_the_transform_on_sharp_and_gapped_singing() {
    for (len, seed) in [(16, 21), (50, 22), (128, 23), (300, 24)] {
        let target = melody(len, seed);
        let mut input: Vec<Option<Note>> =
            target.iter().map(|s| s.map(|n| Note::new(n.cents + 37))).collect();
        for gap in (0..len).step_by(7) {
            input[gap] = None;
        }
        input.rotate_left(len / 5);
        assert_eq!(
            compute_time_shift(&target, &input),
            Some(transformed_time_shift(&target, &input)),
            "length {}",
            len
        );
    }
}
