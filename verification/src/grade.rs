//! The scorer: coverage, timing, pitch and key of a recording against the
//! aligned reference, and their combination.

use crate::align::has_overlap;
use crate::curve::{grade_curve, grade_key, lemma_grade_curve_range, FULL_SCORE};
use crate::model::{NoteSample, NoteSeries};
use vstd::prelude::*;
use vstd::relations::{sorted_by, total_ordering};
use vstd::seq_lib::lemma_sorted_unique;

verus! {

/// The number of cents in an octave.
pub const OCTAVE: u64 = 1200;

/// The distance of `x` cents from the nearest whole number of octaves.
pub open spec fn octave_distance(x: int) -> int {
    let above = x % 1200;
    if above <= 600 {
        above
    } else {
        1200 - above
    }
}

/// The distance of a pitch shift from the nearest whole number of octaves, in
/// cents.
pub fn distance_to_nearest_octave(x: i64) -> (distance: u64)
    ensures
        distance == octave_distance(x as int),
        distance <= 600,
{
    let above: u64 = if x >= 0 {
        (x as u64) % OCTAVE
    } else {
        let below: u64 = ((-(x as i128)) as u64) % OCTAVE;
        assert((x as int) % 1200 == if below == 0 {
            0
        } else {
            1200 - below
        }) by (nonlinear_arith)
            requires
                x < 0,
                below == (-(x as int)) % 1200,
        ;
        if below == 0 {
            0
        } else {
            OCTAVE - below
        }
    };
    if above <= 600 {
        above
    } else {
        OCTAVE - above
    }
}

/// The distance between two pitches, in cents.
pub open spec fn pitch_distance(a: int, b: int) -> int {
    if a >= b {
        a - b
    } else {
        b - a
    }
}

/// The pairs of pitches, reference first, at the places before `k` at which
/// both melodies carry one, in order.
pub open spec fn intersection(target: Seq<NoteSample>, input: Seq<NoteSample>, k: int) -> Seq<
    (i32, i32),
>
    decreases k,
{
    if k <= 0 {
        Seq::empty()
    } else {
        let before = intersection(target, input, k - 1);
        match (target[k - 1], input[k - 1]) {
            (Some(reference), Some(recorded)) => before.push((reference.cents, recorded.cents)),
            _ => before,
        }
    }
}

/// The number of places before `k` at which the reference carries a pitch
/// and the recording is silent.
pub open spec fn miss_count(target: Seq<NoteSample>, input: Seq<NoteSample>, k: int) -> int
    decreases k,
{
    if k <= 0 {
        0
    } else {
        miss_count(target, input, k - 1) + if target[k - 1] is Some && input[k - 1] is None {
            1int
        } else {
            0int
        }
    }
}

/// The credit for each pair of pitches, by their distance.
pub open spec fn pair_grades(pairs: Seq<(i32, i32)>) -> Seq<u32> {
    Seq::new(
        pairs.len(),
        |i: int| grade_curve(pitch_distance(pairs[i].0 as int, pairs[i].1 as int)) as u32,
    )
}

/// The order of scores: from the least to the greatest.
pub open spec fn ascending() -> spec_fn(u32, u32) -> bool {
    |a: u32, b: u32| a <= b
}

/// The median of scores that stand in order: the middle one, or the mean of
/// the two in the middle, rounded down.
pub open spec fn median_of(sorted: Seq<u32>) -> int {
    let half = sorted.len() / 2;
    if sorted.len() % 2 == 1 {
        sorted[half as int] as int
    } else {
        (sorted[half - 1] + sorted[half as int]) / 2
    }
}

/// Whether the cube of `c` parts per million is at most
/// `numerator / denominator`.
pub open spec fn cube_fits(c: int, numerator: int, denominator: int) -> bool {
    c * c * c * denominator <= numerator * 1_000_000_000_000_000_000
}

/// The cube root of `numerator / denominator` in parts per million, as far
/// as `c` goes: the greatest value up to `c` whose cube fits, and zero where
/// none does.
pub open spec fn cube_root_floor(numerator: int, denominator: int, c: int) -> int
    decreases c,
{
    if c <= 0 {
        0
    } else if cube_fits(c, numerator, denominator) {
        c
    } else {
        cube_root_floor(numerator, denominator, c - 1)
    }
}

/// The coverage score, in parts per million: the cube root of the part of
/// the reference's samples that are no misses. It is the whole where nothing
/// is missed, and nothing where the misses are as many as the samples or
/// more.
pub open spec fn coverage(misses: int, len: int) -> int {
    if misses > len {
        0
    } else {
        cube_root_floor(len - misses, len, 1_000_000)
    }
}

/// The timing score, in parts per million, for a time shift in microseconds:
/// the whole below 50 ms, nothing from 250 ms on, and a straight ramp
/// between.
pub open spec fn timing(shift_micros: int) -> int {
    let late = if shift_micros >= 0 {
        shift_micros
    } else {
        -shift_micros
    };
    if late < 50_000 {
        1_000_000
    } else if late < 250_000 {
        (250_000 - late) * 5
    } else {
        0
    }
}

/// The combined score of four sub-scores, in parts per million: coverage
/// times timing times the mean of pitch and key, weighted three to one.
pub open spec fn total(coverage: int, timing: int, pitch: int, key: int) -> int {
    (coverage * timing * (3 * pitch + key)) / 4_000_000_000_000
}

/// What `cube_root_floor` finds: a value in range whose cube is small
/// enough, and which is followed by none such up to `c`.
pub proof fn lemma_cube_root_floor(numerator: int, denominator: int, c: int)
    requires
        0 <= numerator,
        0 <= denominator,
        0 <= c,
    ensures
        0 <= cube_root_floor(numerator, denominator, c) <= c,
        cube_fits(cube_root_floor(numerator, denominator, c), numerator, denominator),
        forall|b: int|
            cube_root_floor(numerator, denominator, c) < b <= c ==> !#[trigger] cube_fits(
                b,
                numerator,
                denominator,
            ),
    decreases c,
{
    if c > 0 {
        if cube_fits(c, numerator, denominator) {
        } else {
            lemma_cube_root_floor(numerator, denominator, c - 1);
        }
    } else {
        assert(cube_fits(0, numerator, denominator)) by (nonlinear_arith)
            requires
                0 <= numerator,
        ;
    }
}

/// Cubes grow with their roots.
pub proof fn lemma_cube_monotonic(a: int, b: int, denominator: int)
    requires
        0 <= a <= b,
        0 <= denominator,
    ensures
        a * a * a * denominator <= b * b * b * denominator,
{
    assert(a * a <= b * b) by (nonlinear_arith)
        requires
            0 <= a <= b,
    ;
    assert(a * a * a <= b * b * b) by (nonlinear_arith)
        requires
            0 <= a <= b,
            a * a <= b * b,
    ;
    assert(a * a * a * denominator <= b * b * b * denominator) by (nonlinear_arith)
        requires
            a * a * a <= b * b * b,
            0 <= denominator,
    ;
}

/// Nothing missed is full coverage.
pub proof fn lemma_coverage_full(len: int)
    requires
        0 <= len,
    ensures
        coverage(0, len) == 1_000_000,
{
    assert(1_000_000int * 1_000_000 * 1_000_000 * len == len * 1_000_000_000_000_000_000)
        by (nonlinear_arith);
}

/// More misses never give a better coverage.
pub proof fn lemma_coverage_monotonic(fewer: int, more: int, len: int)
    requires
        0 <= fewer <= more,
        0 <= len,
    ensures
        0 <= coverage(more, len) <= coverage(fewer, len) <= 1_000_000,
{
    if fewer > len {
    } else if more > len {
        lemma_cube_root_floor(len - fewer, len, 1_000_000);
    } else {
        lemma_cube_root_floor(len - fewer, len, 1_000_000);
        lemma_cube_root_floor(len - more, len, 1_000_000);
        let high = coverage(fewer, len);
        let low = coverage(more, len);
        if low > high {
            assert(!cube_fits(low, len - fewer, len));
            assert(cube_fits(low, len - more, len));
        }
    }
}

/// The combined score of sub-scores that are at most the whole is at most
/// the whole.
pub proof fn lemma_total_range(coverage: int, timing: int, pitch: int, key: int)
    requires
        0 <= coverage <= 1_000_000,
        0 <= timing <= 1_000_000,
        0 <= pitch <= 1_000_000,
        0 <= key <= 1_000_000,
    ensures
        0 <= total(coverage, timing, pitch, key) <= 1_000_000,
{
    let weighted = 3 * pitch + key;
    assert(0 <= coverage * timing <= 1_000_000_000_000) by (nonlinear_arith)
        requires
            0 <= coverage <= 1_000_000,
            0 <= timing <= 1_000_000,
    ;
    let product = coverage * timing;
    assert(0 <= product * weighted <= 4_000_000_000_000_000_000) by (nonlinear_arith)
        requires
            0 <= product <= 1_000_000_000_000,
            0 <= weighted <= 4_000_000,
    ;
}

/// The pairs of pitches at the places at which both melodies carry one, and
/// the number of places at which only the reference does.
pub fn get_intersection(target: &NoteSeries, input: &NoteSeries) -> (found: (
    Vec<(i32, i32)>,
    usize,
))
    requires
        target.len() == input.len(),
    ensures
        found.0@ == intersection(target@, input@, target.len() as int),
        found.1 == miss_count(target@, input@, target.len() as int),
{
    let n: usize = target.len();
    let mut misses: usize = 0;
    let mut pairs: Vec<(i32, i32)> = Vec::new();
    let mut i: usize = 0;
    while i < n
        invariant
            0 <= i <= n,
            n == target.len(),
            n == input.len(),
            pairs@ == intersection(target@, input@, i as int),
            misses == miss_count(target@, input@, i as int),
            misses <= i,
        decreases n - i,
    {
        match (&target[i], &input[i]) {
            (Some(reference), Some(recorded)) => {
                pairs.push((reference.cents, recorded.cents));
            },
            (Some(_), None) => {
                misses = misses + 1;
            },
            _ => {},
        }
        i = i + 1;
    }
    (pairs, misses)
}

/// The coverage score for `misses` missed samples of `len`.
pub fn grade_coverage(misses: usize, len: usize) -> (score: u32)
    ensures
        score == coverage(misses as int, len as int),
        score <= 1_000_000,
{
    if misses > len {
        return 0;
    }
    let kept: u128 = (len - misses) as u128;
    let bound: u128 = kept * 1_000_000_000_000_000_000;
    let ghost denominator = len as int;
    let ghost limit = (len - misses) * 1_000_000_000_000_000_000;
    let mut low: u32 = 0;
    let mut high: u32 = FULL_SCORE + 1;
    proof {
        assert(0 * 0 * 0 * denominator == 0) by (nonlinear_arith);
    }
    while high - low > 1
        invariant
            0 <= low < high <= 1_000_001,
            bound == limit,
            limit == (len - misses) * 1_000_000_000_000_000_000,
            denominator == len,
            misses <= len,
            low * low * low * denominator <= limit,
            high <= 1_000_000 ==> high * high * high * denominator > limit,
        decreases high - low,
    {
        let middle: u32 = low + (high - low) / 2;
        assert(middle * middle * middle <= 1_000_000_000_000_000_000 && middle * middle
            <= 1_000_000_000_000) by (nonlinear_arith)
            requires
                0 <= middle <= 1_000_000,
        ;
        let cube: u128 = (middle as u128) * (middle as u128) * (middle as u128);
        assert(cube * len <= 1_000_000_000_000_000_000 * 0xffff_ffff_ffff_ffff)
            by (nonlinear_arith)
            requires
                0 <= cube <= 1_000_000_000_000_000_000,
                0 <= len <= 0xffff_ffff_ffff_ffff,
        ;
        if cube * (len as u128) <= bound {
            low = middle;
        } else {
            high = middle;
        }
    }
    proof {
        lemma_cube_root_floor(len - misses, denominator, 1_000_000);
        let found = cube_root_floor(len - misses, denominator, 1_000_000);
        assert(cube_fits(low as int, len - misses, denominator));
        if found < low {
            assert(!cube_fits(low as int, len - misses, denominator));
        } else if found > low {
            lemma_cube_monotonic(high as int, found, denominator);
        }
    }
    low
}

/// The timing score for a time shift in microseconds.
pub fn grade_timing(time_shift_micros: i128) -> (score: u32)
    ensures
        score == timing(time_shift_micros as int),
        score <= 1_000_000,
{
    if time_shift_micros <= -250_000 || time_shift_micros >= 250_000 {
        return 0;
    }
    let late: i128 = if time_shift_micros >= 0 {
        time_shift_micros
    } else {
        -time_shift_micros
    };
    if late < 50_000 {
        FULL_SCORE
    } else {
        ((250_000 - late) * 5) as u32
    }
}

/// The median of scores that stand in order.
pub fn median(arr: &[u32]) -> (middle: u32)
    requires
        arr.len() > 0,
    ensures
        middle == median_of(arr@),
{
    let half: usize = arr.len() / 2;
    if arr.len() % 2 == 1 {
        arr[half]
    } else {
        (((arr[half - 1] as u64) + (arr[half] as u64)) / 2) as u32
    }
}

/// `sort_unstable` of std's slices: afterwards the scores stand in ascending
/// order, and they are the scores that were there before, each as often.
#[verifier::external_body]
fn sort_scores(scores: &mut Vec<u32>)
    ensures
        sorted_by(final(scores)@, ascending()),
        final(scores)@.to_multiset() == old(scores)@.to_multiset(),
{
    scores.sort_unstable();
}

/// The pitch score of the pairs: the median of their credits.
pub open spec fn pitch_score(pairs: Seq<(i32, i32)>) -> int {
    median_of(pair_grades(pairs).sort_by(ascending()))
}

/// The scores of a recording against the aligned reference, for a time
/// shift in microseconds and a pitch shift in cents.
pub open spec fn scored(
    target: Seq<NoteSample>,
    input: Seq<NoteSample>,
    time_shift_micros: int,
    note_shift: int,
) -> Accuracy {
    Accuracy {
        coverage: coverage(
            miss_count(target, input, target.len() as int),
            target.len() as int,
        ) as u32,
        timing: timing(time_shift_micros) as u32,
        pitch: pitch_score(intersection(target, input, target.len() as int)) as u32,
        key: grade_curve(octave_distance(note_shift)) as u32,
    }
}

/// The four sub-scores of a performance, each in parts per million.
#[derive(Clone, Copy, Debug, PartialEq, Eq, Structural)]
pub struct Accuracy {
    pub coverage: u32,
    pub timing: u32,
    pub pitch: u32,
    pub key: u32,
}

impl Accuracy {
    /// The weight of the pitch score in the combined score, in quarters; the
    /// key score has the rest.
    pub const PITCH_WEIGHT: u32 = 3;

    /// Whether no sub-score is more than the whole.
    pub open spec fn wf(self) -> bool {
        &&& self.coverage <= 1_000_000
        &&& self.timing <= 1_000_000
        &&& self.pitch <= 1_000_000
        &&& self.key <= 1_000_000
    }

    /// The combined score, in parts per million.
    pub fn total_accuracy(&self) -> (score: u64)
        ensures
            score == total(
                self.coverage as int,
                self.timing as int,
                self.pitch as int,
                self.key as int,
            ),
            self.wf() ==> score <= 1_000_000,
    {
        assert(Self::PITCH_WEIGHT * self.pitch == 3 * self.pitch) by (nonlinear_arith)
            requires
                Self::PITCH_WEIGHT == 3,
        ;
        let weighted: u128 = (Self::PITCH_WEIGHT as u128) * (self.pitch as u128) + (
        self.key as u128);
        assert(self.coverage * self.timing <= 0x1_0000_0000_0000_0000) by (nonlinear_arith)
            requires
                self.coverage <= 0xffff_ffff,
                self.timing <= 0xffff_ffff,
        ;
        let product: u128 = (self.coverage as u128) * (self.timing as u128);
        assert(product * weighted <= 0x4_0000_0000_0000_0000_0000_0000) by (nonlinear_arith)
            requires
                product <= 0x1_0000_0000_0000_0000,
                weighted <= 0x4_0000_0000,
        ;
        let score: u128 = (product * weighted) / 4_000_000_000_000;
        assert(score <= 0xffff_ffff_ffff_ffff) by (nonlinear_arith)
            requires
                score == (product * weighted) / 4_000_000_000_000,
                0 <= product * weighted <= 0x4_0000_0000_0000_0000_0000_0000,
        ;
        proof {
            if self.wf() {
                lemma_total_range(
                    self.coverage as int,
                    self.timing as int,
                    self.pitch as int,
                    self.key as int,
                );
            }
        }
        score as u64
    }

    /// Scores a recording against the aligned reference. Coverage comes from
    /// the places at which the reference carries a pitch and the recording is
    /// silent, timing from the time shift, pitch from the median credit of
    /// the places at which both carry a pitch, and key from the distance of
    /// the pitch shift from a whole number of octaves. A score needs a place
    /// at which both carry a pitch.
    pub fn new(
        target: &NoteSeries,
        input: &NoteSeries,
        time_shift_micros: i128,
        note_shift: i64,
    ) -> (accuracy: Self)
        requires
            target.len() == input.len(),
            has_overlap(target@, input@),
        ensures
            accuracy.wf(),
            accuracy == scored(target@, input@, time_shift_micros as int, note_shift as int),
            accuracy.coverage == coverage(
                miss_count(target@, input@, target.len() as int),
                target.len() as int,
            ),
            accuracy.timing == timing(time_shift_micros as int),
            accuracy.pitch == pitch_score(intersection(target@, input@, target.len() as int)),
            accuracy.key == grade_curve(octave_distance(note_shift as int)),
    {
        let (pairs, misses) = get_intersection(target, input);
        proof {
            lemma_intersection_len(target@, input@, target.len() as int);
        }
        let pitch: u32 = grade_pitch(&pairs);
        Self {
            coverage: grade_coverage(misses, target.len()),
            timing: grade_timing(time_shift_micros),
            pitch,
            key: grade_key(distance_to_nearest_octave(note_shift)),
        }
    }
}

/// There are pairs exactly where there is an overlap.
pub proof fn lemma_intersection_len(target: Seq<NoteSample>, input: Seq<NoteSample>, k: int)
    requires
        0 <= k <= target.len(),
    ensures
        intersection(target, input, k).len() > 0 <==> exists|i: int|
            0 <= i < k && target[i] is Some && input[i] is Some,
    decreases k,
{
    if k > 0 {
        lemma_intersection_len(target, input, k - 1);
        if target[k - 1] is Some && input[k - 1] is Some {
        } else if intersection(target, input, k).len() > 0 {
            let i = choose|i: int| 0 <= i < k - 1 && target[i] is Some && input[i] is Some;
            assert(0 <= i < k && target[i] is Some && input[i] is Some);
        } else {
            assert forall|i: int| 0 <= i < k implies !(target[i] is Some && input[i] is Some) by {
                if i < k - 1 {
                }
            }
        }
    }
}

/// The pitch score of pairs of pitches: the median of their credits.
pub fn grade_pitch(pairs: &Vec<(i32, i32)>) -> (score: u32)
    requires
        pairs.len() > 0,
    ensures
        score == pitch_score(pairs@),
        score <= 1_000_000,
{
    let n: usize = pairs.len();
    let mut grades: Vec<u32> = Vec::with_capacity(n);
    let mut i: usize = 0;
    while i < n
        invariant
            0 <= i <= n,
            n == pairs.len(),
            grades@ == pair_grades(pairs@).subrange(0, i as int),
        decreases n - i,
    {
        let (reference, recorded) = pairs[i];
        let distance: u64 = if reference >= recorded {
            ((reference as i64) - (recorded as i64)) as u64
        } else {
            ((recorded as i64) - (reference as i64)) as u64
        };
        grades.push(grade_key(distance));
        proof {
            assert(grades@ =~= pair_grades(pairs@).subrange(0, i + 1));
        }
        i = i + 1;
    }
    let ghost unsorted = grades@;
    proof {
        assert(unsorted =~= pair_grades(pairs@));
    }
    sort_scores(&mut grades);
    proof {
        unsorted.lemma_sort_by_ensures(ascending());
        assert(total_ordering(ascending()));
        lemma_sorted_unique(grades@, unsorted.sort_by(ascending()), ascending());
        unsorted.to_multiset_ensures();
        grades@.to_multiset_ensures();
        assert(grades@.len() == n);
        assert forall|j: int| 0 <= j < n implies (#[trigger] grades@[j]) <= 1_000_000 by {
            assert(grades@.to_multiset().count(grades@[j]) > 0);
            assert(unsorted.to_multiset().count(grades@[j]) > 0);
            assert(unsorted.contains(grades@[j]));
            let at = choose|at: int| 0 <= at < unsorted.len() && unsorted[at] == grades@[j];
            lemma_grade_curve_range(pitch_distance(pairs@[at].0 as int, pairs@[at].1 as int));
        }
    }
    median(grades.as_slice())
}

/// Pairs of equal pitches have the whole as their pitch score.
pub proof fn lemma_pitch_score_of_equal_pairs(pairs: Seq<(i32, i32)>)
    requires
        pairs.len() > 0,
        forall|i: int| 0 <= i < pairs.len() ==> (#[trigger] pairs[i]).0 == pairs[i].1,
    ensures
        pitch_score(pairs) == 1_000_000,
{
    let grades = pair_grades(pairs);
    let sorted = grades.sort_by(ascending());
    grades.lemma_sort_by_ensures(ascending());
    grades.to_multiset_ensures();
    sorted.to_multiset_ensures();
    assert forall|j: int| 0 <= j < sorted.len() implies #[trigger] sorted[j] == 1_000_000 by {
        assert(sorted.contains(sorted[j]));
        assert(grades.contains(sorted[j]));
        let at = choose|at: int| 0 <= at < grades.len() && grades[at] == sorted[j];
        assert(pairs[at].0 == pairs[at].1);
    }
    assert(sorted.len() == pairs.len());
}

/// A melody misses nothing of itself, and the pitches of its pairs with
/// itself are equal.
pub proof fn lemma_intersection_of_identical(x: Seq<NoteSample>, k: int)
    requires
        0 <= k <= x.len(),
    ensures
        miss_count(x, x, k) == 0,
        forall|i: int|
            0 <= i < intersection(x, x, k).len() ==> (#[trigger] intersection(x, x, k)[i]).0
                == intersection(x, x, k)[i].1,
    decreases k,
{
    if k > 0 {
        lemma_intersection_of_identical(x, k - 1);
        let before = intersection(x, x, k - 1);
        let all = intersection(x, x, k);
        assert forall|i: int| 0 <= i < all.len() implies (#[trigger] all[i]).0 == all[i].1 by {
            if i < before.len() {
                assert(all[i] == before[i]);
            }
        }
    }
}

/// A recording that is the reference as it stands, with a pitch somewhere,
/// scores the whole in coverage, timing, pitch and key, and in total.
pub proof fn lemma_identical_scores(x: Seq<NoteSample>)
    requires
        exists|i: int| 0 <= i < x.len() && x[i] is Some,
    ensures
        scored(x, x, 0, 0) == (Accuracy {
            coverage: 1_000_000,
            timing: 1_000_000,
            pitch: 1_000_000,
            key: 1_000_000,
        }),
        total(1_000_000, 1_000_000, 1_000_000, 1_000_000) == 1_000_000,
{
    let n = x.len() as int;
    lemma_intersection_of_identical(x, n);
    lemma_intersection_len(x, x, n);
    lemma_pitch_score_of_equal_pairs(intersection(x, x, n));
    lemma_coverage_full(n);
}

/// A pitch shift of whole octaves has the whole as its key score.
pub proof fn lemma_octaves_keep_the_key(octaves: int)
    ensures
        octave_distance(1200 * octaves) == 0,
        grade_curve(octave_distance(1200 * octaves)) == 1_000_000,
{
    assert(grade_curve(0) == 1_000_000);
}

/// A silent recording misses every sample of a reference that carries a
/// pitch throughout, and covers nothing of it.
pub proof fn lemma_silent_recording(target: Seq<NoteSample>, input: Seq<NoteSample>, k: int)
    requires
        0 <= k <= target.len(),
        target.len() == input.len(),
        forall|i: int| 0 <= i < target.len() ==> (#[trigger] target[i]) is Some,
        forall|i: int| 0 <= i < input.len() ==> (#[trigger] input[i]) is None,
    ensures
        miss_count(target, input, k) == k,
        k > 0 ==> coverage(k, k) == 0,
    decreases k,
{
    if k > 0 {
        lemma_silent_recording(target, input, k - 1);
        lemma_cube_root_floor(0, k, 1_000_000);
        let found = cube_root_floor(0, k, 1_000_000);
        if found > 0 {
            assert(cube_fits(found, 0, k));
            assert(found * found * found * k > 0) by (nonlinear_arith)
                requires
                    found > 0,
                    k > 0,
            ;
        }
    }
}

} // verus!
