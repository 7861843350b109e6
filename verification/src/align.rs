//! The aligner: the time shift and the pitch shift that fit the reference to the
//! recording best, and their application to the reference.

use crate::error::RunError;
use crate::model::{
    pitch_range, sample_value, usize_to_isize, Note, NoteSample, NoteSeries,
};
use crate::signal::{
    correlation, dot_prefix, lag_behind, lemma_autocorrelation_peak,
    lemma_correlation_of_turned, lemma_dot_prefix_bounds, lemma_rotate_left_then_right,
    lemma_rotate_right_then_left, lemma_rotated_left_index, rotated_left, rotated_right, signal,
};
use vstd::prelude::*;

verus! {

/// Whether `m` is the place of the peak of the correlation of a recording
/// with a reference: no lag correlates better, and no smaller lag as well.
pub open spec fn is_peak(target: Seq<NoteSample>, input: Seq<NoteSample>, m: int) -> bool {
    &&& 0 <= m < target.len()
    &&& forall|j: int|
        0 <= j < m ==> #[trigger] correlation(target, input, j) < correlation(target, input, m)
    &&& forall|j: int|
        m <= j < target.len() ==> #[trigger] correlation(target, input, j) <= correlation(
            target,
            input,
            m,
        )
}

/// The place of the peak of the correlation.
pub open spec fn peak(target: Seq<NoteSample>, input: Seq<NoteSample>) -> int {
    choose|m: int| is_peak(target, input, m)
}

/// The signed lag for a peak at place `m` of `n`: places before the middle
/// are shifts to the left, the others shifts to the right, so that the lag
/// is the one of least size that the place can stand for, and the one to the
/// right where two are of one size.
pub open spec fn lag_of_peak(m: int, n: int) -> int {
    if 2 * m < n {
        m
    } else {
        m - n
    }
}

/// The number of samples by which the reference leads the recording.
pub open spec fn time_shift(target: Seq<NoteSample>, input: Seq<NoteSample>) -> int {
    lag_of_peak(peak(target, input), target.len() as int)
}

/// The reference after a time shift: a positive shift turns it left, a
/// negative one right, and the samples that leave at one end come back at the
/// other.
pub open spec fn time_shifted(target: Seq<NoteSample>, shift: int) -> Seq<NoteSample> {
    if shift > 0 {
        rotated_left(target, shift)
    } else if shift < 0 {
        rotated_right(target, -shift)
    } else {
        target
    }
}

/// A time shift is undone by the shift of the same size the other way.
pub proof fn lemma_time_shift_undone(target: Seq<NoteSample>, shift: int)
    requires
        -target.len() <= shift <= target.len(),
    ensures
        time_shifted(time_shifted(target, shift), -shift) == target,
{
    if shift > 0 {
        lemma_rotate_left_then_right(target, shift);
    } else if shift < 0 {
        lemma_rotate_right_then_left(target, -shift);
    }
}

/// The correlation has one peak only.
pub proof fn lemma_peak_unique(target: Seq<NoteSample>, input: Seq<NoteSample>, m1: int, m2: int)
    requires
        is_peak(target, input, m1),
        is_peak(target, input, m2),
    ensures
        m1 == m2,
{
    if m1 < m2 {
        assert(correlation(target, input, m1) < correlation(target, input, m2));
        assert(correlation(target, input, m2) <= correlation(target, input, m1));
    } else if m2 < m1 {
        assert(correlation(target, input, m2) < correlation(target, input, m1));
        assert(correlation(target, input, m1) <= correlation(target, input, m2));
    }
}

/// A melody that is not empty is aligned with itself as it stands: the
/// correlation peaks at lag zero, and the time shift is zero.
pub proof fn lemma_self_alignment(x: Seq<NoteSample>)
    requires
        x.len() > 0,
    ensures
        is_peak(x, x, 0),
        time_shift(x, x) == 0,
{
    assert forall|j: int| 0 <= j < x.len() implies #[trigger] correlation(x, x, j) <= correlation(
        x,
        x,
        0,
    ) by {
        lemma_autocorrelation_peak(x, j);
    }
    assert(is_peak(x, x, 0));
    lemma_peak_unique(x, x, 0, peak(x, x));
}

fn sample_cents(sample: &NoteSample) -> (cents: i64)
    ensures
        cents == sample_value(*sample),
{
    match sample {
        Some(note) => note.cents as i64,
        None => 0,
    }
}

/// The correlation of the recording with the reference at one lag.
fn correlation_at(target: &NoteSeries, input: &NoteSeries, lag: usize) -> (sum: i128)
    requires
        target.len() == input.len(),
        lag < target.len(),
    ensures
        sum == correlation(target@, input@, lag as int),
{
    let n: usize = target.len();
    let ghost a = signal(input@);
    let ghost b = signal(rotated_left(target@, lag as int));
    let mut sum: i128 = 0;
    let mut i: usize = 0;
    while i < n
        invariant
            0 <= i <= n,
            n == target.len(),
            n == input.len(),
            lag < n,
            a == signal(input@),
            b == signal(rotated_left(target@, lag as int)),
            a.len() == n,
            b.len() == n,
            sum == dot_prefix(a, b, i as int),
        decreases n - i,
    {
        let j: usize = if i < n - lag {
            i + lag
        } else {
            i - (n - lag)
        };
        let x: i64 = sample_cents(&input[i]);
        let y: i64 = sample_cents(&target[j]);
        proof {
            lemma_rotated_left_index(target@, lag as int, i as int);
            assert(b[i as int] == y);
            assert(a[i as int] == x);
            lemma_dot_prefix_bounds(a, b, i as int);
            lemma_dot_prefix_bounds(a, b, i + 1);
            assert(-0x4000_0000_0000_0000 <= x * y <= 0x4000_0000_0000_0000) by (nonlinear_arith)
                requires
                    -0x8000_0000 <= x <= 0x7fff_ffff,
                    -0x8000_0000 <= y <= 0x7fff_ffff,
            ;
        }
        sum = sum + (x * y) as i128;
        i = i + 1;
    }
    sum
}

/// The signed lag for a peak found at place `peak` of `n`.
pub fn lag_from_peak(peak: usize, n: usize) -> (lag: isize)
    requires
        peak < n,
    ensures
        lag == lag_of_peak(peak as int, n as int),
        -(n / 2) <= lag <= (n - 1) / 2,
{
    let back: usize = n - peak;
    if peak < back {
        usize_to_isize(peak)
    } else {
        -(back as isize)
    }
}

/// Estimates by how many samples the reference leads the recording: the lag
/// at which their circular cross-correlation is greatest, and the smallest
/// such place where several are. There is no estimate for empty melodies.
/// Every lag is correlated in full and in whole numbers, which takes time in
/// the square of the length.
pub fn compute_time_shift(target: &NoteSeries, input: &NoteSeries) -> (result: Option<isize>)
    requires
        target.len() == input.len(),
    ensures
        match result {
            Some(shift) => {
                &&& target.len() > 0
                &&& shift == time_shift(target@, input@)
                &&& -(target.len() / 2) <= shift <= (target.len() - 1) / 2
            },
            None => target.len() == 0,
        },
{
    let n: usize = target.len();
    if n == 0 {
        return None;
    }
    let mut best: usize = 0;
    let mut best_value: i128 = correlation_at(target, input, 0);
    let mut m: usize = 1;
    while m < n
        invariant
            1 <= m <= n,
            n == target.len(),
            n == input.len(),
            0 <= best < m,
            best_value == correlation(target@, input@, best as int),
            forall|j: int|
                0 <= j < best ==> #[trigger] correlation(target@, input@, j) < correlation(
                    target@,
                    input@,
                    best as int,
                ),
            forall|j: int|
                best <= j < m ==> #[trigger] correlation(target@, input@, j) <= correlation(
                    target@,
                    input@,
                    best as int,
                ),
        decreases n - m,
    {
        let value: i128 = correlation_at(target, input, m);
        if value > best_value {
            best = m;
            best_value = value;
        }
        m = m + 1;
    }
    proof {
        assert(is_peak(target@, input@, best as int));
        lemma_peak_unique(target@, input@, best as int, peak(target@, input@));
    }
    Some(lag_from_peak(best, n))
}

/// Turns `v` left by `k` places in place: what was at place `k` comes first,
/// and the first `k` items follow the last.
pub fn rotate_left<T: Copy>(v: &mut Vec<T>, k: usize)
    requires
        k <= old(v).len(),
    ensures
        final(v)@ == rotated_left(old(v)@, k as int),
{
    let n: usize = v.len();
    let mut turned: Vec<T> = Vec::with_capacity(n);
    let mut i: usize = k;
    while i < n
        invariant
            k <= i <= n,
            n == v.len(),
            turned@ == v@.subrange(k as int, i as int),
        decreases n - i,
    {
        turned.push(v[i]);
        proof {
            assert(turned@ =~= v@.subrange(k as int, i + 1));
        }
        i = i + 1;
    }
    let mut j: usize = 0;
    while j < k
        invariant
            0 <= j <= k <= n,
            n == v.len(),
            turned@ == v@.subrange(k as int, n as int) + v@.subrange(0, j as int),
        decreases k - j,
    {
        turned.push(v[j]);
        proof {
            assert(turned@ =~= v@.subrange(k as int, n as int) + v@.subrange(0, j + 1));
        }
        j = j + 1;
    }
    *v = turned;
}

/// Turns `v` right by `k` places in place: the last `k` items come first.
pub fn rotate_right<T: Copy>(v: &mut Vec<T>, k: usize)
    requires
        k <= old(v).len(),
    ensures
        final(v)@ == rotated_right(old(v)@, k as int),
{
    let n: usize = v.len();
    proof {
        assert(rotated_right(v@, k as int) =~= rotated_left(v@, n - k));
    }
    rotate_left(v, n - k);
}

/// Applies a time shift to the reference: a positive shift turns it left, a
/// negative one right.
pub fn apply_time_shift(target: &mut NoteSeries, shift: isize)
    requires
        -old(target).len() <= shift <= old(target).len(),
    ensures
        final(target)@ == time_shifted(old(target)@, shift as int),
{
    if shift > 0 {
        rotate_left(target, shift as usize);
    } else if shift < 0 {
        let places: usize = if shift == isize::MIN {
            (isize::MAX as usize) + 1
        } else {
            (-shift) as usize
        };
        rotate_right(target, places);
    }
}

/// The number of places before `k` at which both melodies carry a pitch.
pub open spec fn overlap_count(target: Seq<NoteSample>, input: Seq<NoteSample>, k: int) -> int
    decreases k,
{
    if k <= 0 {
        0
    } else {
        overlap_count(target, input, k - 1) + if target[k - 1] is Some && input[k - 1] is Some {
            1int
        } else {
            0int
        }
    }
}

/// The sum, over the places before `k` at which both melodies carry a pitch,
/// of the recorded pitch less the reference pitch.
pub open spec fn difference_sum(target: Seq<NoteSample>, input: Seq<NoteSample>, k: int) -> int
    decreases k,
{
    if k <= 0 {
        0
    } else {
        difference_sum(target, input, k - 1) + if target[k - 1] is Some && input[k - 1] is Some {
            sample_value(input[k - 1]) - sample_value(target[k - 1])
        } else {
            0
        }
    }
}

/// Whether both melodies carry a pitch at some place.
pub open spec fn has_overlap(target: Seq<NoteSample>, input: Seq<NoteSample>) -> bool {
    exists|i: int| 0 <= i < target.len() && target[i] is Some && input[i] is Some
}

/// The mean `sum / count`, rounded to the nearest whole number, and upwards
/// from the middle between two.
pub open spec fn rounded_mean(sum: int, count: int) -> int {
    (2 * sum + count) / (2 * count)
}

/// The pitch shift of a recording against a reference: the mean of the
/// recorded pitch less the reference pitch over the places at which both
/// carry one, in whole cents.
pub open spec fn note_shift(target: Seq<NoteSample>, input: Seq<NoteSample>) -> int {
    rounded_mean(
        difference_sum(target, input, target.len() as int),
        overlap_count(target, input, target.len() as int),
    )
}

/// There are places counted exactly where there is an overlap.
pub proof fn lemma_overlap_count_positive(target: Seq<NoteSample>, input: Seq<NoteSample>, k: int)
    requires
        0 <= k <= target.len(),
    ensures
        0 <= overlap_count(target, input, k) <= k,
        overlap_count(target, input, k) > 0 <==> exists|i: int|
            0 <= i < k && target[i] is Some && input[i] is Some,
        -overlap_count(target, input, k) * 0xffff_ffff <= difference_sum(target, input, k)
            <= overlap_count(target, input, k) * 0xffff_ffff,
    decreases k,
{
    if k > 0 {
        lemma_overlap_count_positive(target, input, k - 1);
        if target[k - 1] is Some && input[k - 1] is Some {
        } else if overlap_count(target, input, k) > 0 {
            let i = choose|i: int| 0 <= i < k - 1 && target[i] is Some && input[i] is Some;
            assert(0 <= i < k && target[i] is Some && input[i] is Some);
        } else {
            assert forall|i: int| 0 <= i < k implies !(target[i] is Some && input[i] is Some) by {
                if i < k - 1 {
                }
            }
        }
    }
}

/// The floor of `numerator / denominator`.
fn floor_div(numerator: i128, denominator: u128) -> (quotient: i128)
    requires
        0 < denominator <= 0x4000_0000_0000_0000_0000_0000_0000_0000,
        -0x4000_0000_0000_0000_0000_0000_0000_0000 <= numerator
            <= 0x4000_0000_0000_0000_0000_0000_0000_0000,
    ensures
        quotient == numerator as int / denominator as int,
{
    if numerator >= 0 {
        let q: u128 = (numerator as u128) / denominator;
        assert(q <= numerator) by (nonlinear_arith)
            requires
                q == (numerator as int) / (denominator as int),
                numerator >= 0,
                denominator > 0,
        ;
        q as i128
    } else {
        let magnitude: u128 = (-numerator) as u128;
        let q: u128 = (magnitude + denominator - 1) / denominator;
        assert(q <= magnitude && -(q as int) == (numerator as int) / (denominator as int))
            by (nonlinear_arith)
            requires
                q == (magnitude + denominator - 1) / (denominator as int),
                magnitude == -numerator,
                magnitude > 0,
                denominator > 0,
        ;
        -(q as i128)
    }
}

/// Estimates the pitch shift of the recording against the reference: the
/// mean of the recorded pitch less the reference pitch over the places at
/// which both carry one, in whole cents. There is no estimate where no place
/// has both.
pub fn compute_note_shift(target: &NoteSeries, input: &NoteSeries) -> (result: Option<i64>)
    requires
        target.len() == input.len(),
    ensures
        match result {
            Some(shift) => has_overlap(target@, input@) && shift == note_shift(target@, input@),
            None => !has_overlap(target@, input@),
        },
{
    let n: usize = target.len();
    let mut sum: i128 = 0;
    let mut count: u64 = 0;
    let mut i: usize = 0;
    while i < n
        invariant
            0 <= i <= n,
            n == target.len(),
            n == input.len(),
            count == overlap_count(target@, input@, i as int),
            sum == difference_sum(target@, input@, i as int),
        decreases n - i,
    {
        proof {
            lemma_overlap_count_positive(target@, input@, i as int);
            lemma_overlap_count_positive(target@, input@, i + 1);
        }
        match (&target[i], &input[i]) {
            (Some(reference), Some(recorded)) => {
                sum = sum + ((recorded.cents as i128) - (reference.cents as i128));
                count = count + 1;
            },
            _ => {},
        }
        i = i + 1;
    }
    proof {
        lemma_overlap_count_positive(target@, input@, n as int);
    }
    if count == 0 {
        return None;
    }
    let doubled: u128 = 2 * (count as u128);
    let mean: i128 = floor_div(2 * sum + (count as i128), doubled);
    assert(-0x1_0000_0000 <= mean <= 0x1_0000_0000) by (nonlinear_arith)
        requires
            mean == (2 * sum + count) / (2 * count),
            count > 0,
            -count * 0xffff_ffff <= sum <= count * 0xffff_ffff,
    ;
    Some(mean as i64)
}

/// Whether every pitch of `target`, raised by `shift` cents, is a pitch
/// still.
pub open spec fn shift_fits(target: Seq<NoteSample>, shift: int) -> bool {
    forall|i: int|
        0 <= i < target.len() && (#[trigger] target[i]) is Some ==> i32::MIN <= sample_value(
            target[i],
        ) + shift <= i32::MAX
}

/// One observation with its pitch, if it has one, raised by `shift` cents.
pub open spec fn transposed_sample(sample: NoteSample, shift: int) -> NoteSample {
    match sample {
        Some(note) => Some(Note { cents: (note.cents + shift) as i32 }),
        None => None,
    }
}

/// The melody with every pitch raised by `shift` cents; silence stays
/// silence.
pub open spec fn transposed(target: Seq<NoteSample>, shift: int) -> Seq<NoteSample> {
    Seq::new(target.len(), |i: int| transposed_sample(target[i], shift))
}

/// Raises every pitch of the reference by `shift` cents.
pub fn apply_note_shift(target: &mut NoteSeries, shift: i64)
    requires
        shift_fits(old(target)@, shift as int),
    ensures
        final(target)@ == transposed(old(target)@, shift as int),
{
    let n: usize = target.len();
    let mut i: usize = 0;
    while i < n
        invariant
            0 <= i <= n,
            n == target.len(),
            n == old(target).len(),
            shift_fits(old(target)@, shift as int),
            forall|j: int|
                0 <= j < i ==> target@[j] == transposed_sample(old(target)@[j], shift as int),
            forall|j: int| i <= j < n ==> target@[j] == old(target)@[j],
        decreases n - i,
    {
        if let Some(note) = target[i] {
            assert(old(target)@[i as int] is Some);
            assert(i32::MIN <= sample_value(old(target)@[i as int]) + shift <= i32::MAX);
            let raised: i64 = (note.cents as i64) + shift;
            target.set(i, Some(Note::new(raised as i32)));
        }
        i = i + 1;
    }
    proof {
        assert(target@ =~= transposed(old(target)@, shift as int));
    }
}

/// Whether the melody correlates with itself at no lag but zero as well as
/// at zero: it does not repeat when it is turned.
pub open spec fn peaks_once(x: Seq<NoteSample>) -> bool {
    forall|j: int| 0 < j < x.len() ==> #[trigger] correlation(x, x, j) < correlation(x, x, 0)
}

/// The place of the peak for a time shift: the shift itself where it is to
/// the left, and as far before the end as it is to the right.
pub open spec fn peak_of_lag(shift: int, n: int) -> int {
    if shift >= 0 {
        shift
    } else {
        shift + n
    }
}

/// A recording that is the reference shifted in time is found to be shifted
/// by just that, where the reference does not repeat when it is turned and
/// the shift is one that a peak can stand for. The shift that is found
/// brings the reference onto the recording.
pub proof fn lemma_shifted_recording_found(target: Seq<NoteSample>, shift: int)
    requires
        target.len() > 0,
        peaks_once(target),
        -(target.len() / 2) <= shift <= (target.len() - 1) / 2,
    ensures
        time_shift(target, time_shifted(target, shift)) == shift,
        time_aligned(target, time_shifted(target, shift)) == time_shifted(target, shift),
{
    let n = target.len() as int;
    let p = peak_of_lag(shift, n);
    let recording = time_shifted(target, shift);
    assert(recording =~= rotated_left(target, p));
    assert forall|j: int| 0 <= j < n && j != p implies #[trigger] correlation(
        target,
        recording,
        j,
    ) < correlation(target, recording, p) by {
        lemma_correlation_of_turned(target, p, j);
        lemma_correlation_of_turned(target, p, p);
        assert(0 < lag_behind(j, p, n) < n);
    }
    assert(is_peak(target, recording, p));
    lemma_peak_unique(target, recording, p, peak(target, recording));
}

/// Against a recording that is the melody itself, raised by some cents, the
/// sum of the distances is as many times the raise as there are pitches.
proof fn lemma_difference_sum_transposed(target: Seq<NoteSample>, raise: int, k: int)
    requires
        0 <= k <= target.len(),
        shift_fits(target, raise),
    ensures
        difference_sum(target, transposed(target, raise), k) == overlap_count(
            target,
            transposed(target, raise),
            k,
        ) * raise,
    decreases k,
{
    if k > 0 {
        lemma_difference_sum_transposed(target, raise, k - 1);
        let before = overlap_count(target, transposed(target, raise), k - 1);
        assert((before + 1) * raise == before * raise + raise) by (nonlinear_arith);
        if target[k - 1] is Some {
            assert(i32::MIN <= sample_value(target[k - 1]) + raise <= i32::MAX);
        }
    } else {
        assert(0 * raise == 0) by (nonlinear_arith);
    }
}

/// A recording that is the reference itself, raised by some cents, has that
/// raise as its pitch shift.
pub proof fn lemma_note_shift_of_transposed(target: Seq<NoteSample>, raise: int)
    requires
        exists|i: int| 0 <= i < target.len() && target[i] is Some,
        shift_fits(target, raise),
    ensures
        has_overlap(target, transposed(target, raise)),
        note_shift(target, transposed(target, raise)) == raise,
        transposed(target, note_shift(target, transposed(target, raise))) == transposed(
            target,
            raise,
        ),
{
    let n = target.len() as int;
    let input = transposed(target, raise);
    let i = choose|i: int| 0 <= i < target.len() && target[i] is Some;
    assert(input[i] is Some);
    lemma_difference_sum_transposed(target, raise, n);
    lemma_overlap_count_positive(target, input, n);
    let count = overlap_count(target, input, n);
    assert((2 * (count * raise) + count) / (2 * count) == raise) by (nonlinear_arith)
        requires
            count > 0,
    ;
}

/// Raising a melody by nothing leaves it as it is.
pub proof fn lemma_transposed_by_nothing(target: Seq<NoteSample>)
    ensures
        transposed(target, 0) == target,
        shift_fits(target, 0),
{
    assert(transposed(target, 0) =~= target);
}

/// The outcome of an alignment: the aligned reference, and the two shifts
/// that were found and applied to it.
#[derive(Clone, Debug)]
pub struct Alignment {
    /// The reference, shifted in time and raised in pitch.
    pub target: NoteSeries,
    /// The number of samples by which the reference led the recording.
    pub time_shift: isize,
    /// The number of cents by which the recording lay above the reference.
    pub note_shift: i64,
}

/// Whether every pitch of the reference is a pitch still when it is raised
/// by the distance from any pitch of the reference to any pitch of the
/// recording.
pub open spec fn room_for_shift(target: Seq<NoteSample>, input: Seq<NoteSample>) -> bool {
    forall|i: int, j: int, k: int|
        0 <= i < target.len() && 0 <= j < input.len() && 0 <= k < target.len() && (
        #[trigger] target[i]) is Some && (#[trigger] input[j]) is Some && (
        #[trigger] target[k]) is Some ==> i32::MIN <= sample_value(target[k]) + sample_value(
            input[j],
        ) - sample_value(target[i]) <= i32::MAX
}

/// Whether the reference has room for the shift to the recording.
pub fn has_room_for_shift(target: &NoteSeries, input: &NoteSeries) -> (room: bool)
    ensures
        room == room_for_shift(target@, input@),
{
    let (target_low, target_high): (i32, i32) = match pitch_range(target) {
        Some(range) => range,
        None => {
            return true;
        },
    };
    let (input_low, input_high): (i32, i32) = match pitch_range(input) {
        Some(range) => range,
        None => {
            return true;
        },
    };
    let least: i64 = (target_low as i64) + (input_low as i64) - (target_high as i64);
    let most: i64 = (target_high as i64) + (input_high as i64) - (target_low as i64);
    let room: bool = (i32::MIN as i64) <= least && most <= (i32::MAX as i64);
    proof {
        if room {
            assert forall|i: int, j: int, k: int|
                0 <= i < target@.len() && 0 <= j < input@.len() && 0 <= k < target@.len() && (
                #[trigger] target@[i]) is Some && (#[trigger] input@[j]) is Some && (
                #[trigger] target@[k]) is Some implies i32::MIN <= sample_value(target@[k])
                + sample_value(input@[j]) - sample_value(target@[i]) <= i32::MAX by {
                assert(target@[i] matches Some(note) ==> target_low <= note.cents <= target_high);
                assert(target@[k] matches Some(note) ==> target_low <= note.cents <= target_high);
                assert(input@[j] matches Some(note) ==> input_low <= note.cents <= input_high);
            }
        } else {
            let lowest = choose|i: int|
                0 <= i < target@.len() && #[trigger] target@[i] == Some(
                    Note { cents: target_low },
                );
            let highest = choose|i: int|
                0 <= i < target@.len() && #[trigger] target@[i] == Some(
                    Note { cents: target_high },
                );
            let below = choose|j: int|
                0 <= j < input@.len() && #[trigger] input@[j] == Some(Note { cents: input_low });
            let above = choose|j: int|
                0 <= j < input@.len() && #[trigger] input@[j] == Some(
                    Note { cents: input_high },
                );
            if least < i32::MIN {
                assert(target@[highest] is Some && input@[below] is Some
                    && target@[lowest] is Some);
                assert(sample_value(target@[lowest]) + sample_value(input@[below])
                    - sample_value(target@[highest]) < i32::MIN);
            } else {
                assert(target@[lowest] is Some && input@[above] is Some
                    && target@[highest] is Some);
                assert(sample_value(target@[highest]) + sample_value(input@[above])
                    - sample_value(target@[lowest]) > i32::MAX);
            }
        }
    }
    room
}

/// The reference after the time shift that aligns it with the recording.
pub open spec fn time_aligned(target: Seq<NoteSample>, input: Seq<NoteSample>) -> Seq<NoteSample> {
    time_shifted(target, time_shift(target, input))
}

/// The reference aligned with the recording in time and in pitch.
pub open spec fn aligned(target: Seq<NoteSample>, input: Seq<NoteSample>) -> Seq<NoteSample> {
    transposed(time_aligned(target, input), note_shift(time_aligned(target, input), input))
}

/// Why two melodies of one length cannot be aligned, if they cannot: they
/// are empty, or the reference, shifted in time, carries a pitch at no place
/// at which the recording carries one.
pub open spec fn alignment_error(target: Seq<NoteSample>, input: Seq<NoteSample>) -> Option<
    RunError,
> {
    if target.len() == 0 {
        Some(RunError::InputMelodyEmpty)
    } else if !has_overlap(time_aligned(target, input), input) {
        Some(RunError::InsufficientOverlap)
    } else {
        None
    }
}

/// Each sample of a shifted melody is a sample of the melody.
pub proof fn lemma_time_shifted_index(s: Seq<NoteSample>, shift: int, i: int) -> (from: int)
    requires
        -s.len() <= shift <= s.len(),
        0 <= i < s.len(),
    ensures
        time_shifted(s, shift).len() == s.len(),
        0 <= from < s.len(),
        time_shifted(s, shift)[i] == s[from],
{
    if shift > 0 {
        if i < s.len() - shift {
            i + shift
        } else {
            i + shift - s.len()
        }
    } else if shift < 0 {
        if i < -shift {
            s.len() + shift + i
        } else {
            i + shift
        }
    } else {
        i
    }
}

/// The sum of distances that all lie between `low` and `high` lies between
/// as many times `low` and `high`.
proof fn lemma_difference_sum_between(
    target: Seq<NoteSample>,
    input: Seq<NoteSample>,
    low: int,
    high: int,
    k: int,
)
    requires
        0 <= k <= target.len(),
        target.len() == input.len(),
        forall|i: int|
            0 <= i < target.len() && (#[trigger] target[i]) is Some && input[i] is Some ==> low
                <= sample_value(input[i]) - sample_value(target[i]) <= high,
    ensures
        overlap_count(target, input, k) * low <= difference_sum(target, input, k)
            <= overlap_count(target, input, k) * high,
    decreases k,
{
    if k > 0 {
        lemma_difference_sum_between(target, input, low, high, k - 1);
        let before = overlap_count(target, input, k - 1);
        assert((before + 1) * low == before * low + low && (before + 1) * high == before * high
            + high) by (nonlinear_arith);
        if target[k - 1] is Some && input[k - 1] is Some {
            assert(low <= sample_value(input[k - 1]) - sample_value(target[k - 1]) <= high);
        }
    } else {
        assert(0 * low == 0 && 0 * high == 0) by (nonlinear_arith);
    }
}

/// The pitch shift is no less than the least and no more than the greatest
/// distance between the pitches of a common place.
pub proof fn lemma_note_shift_between(
    target: Seq<NoteSample>,
    input: Seq<NoteSample>,
    low: int,
    high: int,
)
    requires
        target.len() == input.len(),
        has_overlap(target, input),
        forall|i: int|
            0 <= i < target.len() && (#[trigger] target[i]) is Some && input[i] is Some ==> low
                <= sample_value(input[i]) - sample_value(target[i]) <= high,
    ensures
        low <= note_shift(target, input) <= high,
{
    let n = target.len() as int;
    lemma_difference_sum_between(target, input, low, high, n);
    lemma_overlap_count_positive(target, input, n);
    let count = overlap_count(target, input, n);
    let sum = difference_sum(target, input, n);
    assert(low <= (2 * sum + count) / (2 * count) <= high) by (nonlinear_arith)
        requires
            count > 0,
            count * low <= sum <= count * high,
    ;
}

/// Aligns the reference with the recording: shifts it in time to where the
/// two correlate best, and raises it by the mean distance of the recorded
/// pitches from its own. Empty melodies cannot be aligned, nor melodies that
/// share no pitched place once the reference is shifted in time.
pub fn align(target: NoteSeries, input: &NoteSeries) -> (result: Result<Alignment, RunError>)
    requires
        target.len() == input.len(),
        room_for_shift(target@, input@),
    ensures
        match result {
            Ok(alignment) => {
                &&& alignment_error(target@, input@) is None
                &&& alignment.time_shift == time_shift(target@, input@)
                &&& alignment.note_shift == note_shift(time_aligned(target@, input@), input@)
                &&& alignment.target@ == aligned(target@, input@)
                &&& alignment.target@.len() == target@.len()
                &&& has_overlap(alignment.target@, input@)
                &&& -(target@.len() / 2) <= alignment.time_shift <= (target@.len() - 1) / 2
            },
            Err(error) => alignment_error(target@, input@) == Some(error),
        },
{
    let ghost unshifted = target@;
    let mut target = target;
    let time_shift: isize = match compute_time_shift(&target, input) {
        Some(shift) => shift,
        None => {
            return Err(RunError::InputMelodyEmpty);
        },
    };
    apply_time_shift(&mut target, time_shift);
    let note_shift: i64 = match compute_note_shift(&target, input) {
        Some(shift) => shift,
        None => {
            return Err(RunError::InsufficientOverlap);
        },
    };
    proof {
        let shifted = target@;
        assert(shifted == time_aligned(unshifted, input@));
        assert forall|k: int|
            0 <= k < shifted.len() && (#[trigger] shifted[k]) is Some implies i32::MIN
            <= sample_value(shifted[k]) + note_shift <= i32::MAX by {
            let from_k = lemma_time_shifted_index(unshifted, time_shift as int, k);
            let low = i32::MIN - sample_value(shifted[k]);
            let high = i32::MAX - sample_value(shifted[k]);
            assert forall|i: int|
                0 <= i < shifted.len() && (#[trigger] shifted[i]) is Some
                    && input@[i] is Some implies low <= sample_value(input@[i]) - sample_value(
                shifted[i],
            ) <= high by {
                let from_i = lemma_time_shifted_index(unshifted, time_shift as int, i);
                assert(unshifted[from_i] is Some && input@[i] is Some && unshifted[from_k] is Some);
            }
            lemma_note_shift_between(shifted, input@, low, high);
        }
        let witness = choose|i: int|
            0 <= i < shifted.len() && shifted[i] is Some && input@[i] is Some;
        assert(transposed(shifted, note_shift as int)[witness] is Some);
    }
    apply_note_shift(&mut target, note_shift);
    Ok(Alignment { target, time_shift, note_shift })
}

/// A melody that carries a pitch is aligned with itself as it stands: no
/// shift in time, no shift in pitch.
pub proof fn lemma_identical_alignment(x: Seq<NoteSample>)
    requires
        exists|i: int| 0 <= i < x.len() && x[i] is Some,
    ensures
        alignment_error(x, x) is None,
        time_shift(x, x) == 0,
        note_shift(time_aligned(x, x), x) == 0,
        aligned(x, x) == x,
{
    lemma_self_alignment(x);
    lemma_transposed_by_nothing(x);
    lemma_note_shift_of_transposed(x, 0);
}

} // verus!
