//! The distance-compensation curve: the credit for a pitch by its distance
//! from where it should be.

use vstd::prelude::*;

verus! {

/// The greatest score: the whole, in parts per million.
pub const FULL_SCORE: u32 = 1_000_000;

/// The distance, in cents, up to which the curve is a parabola.
pub const PARABOLA_END: u64 = 50;

/// The distance, in cents, of the last knot of the curve: half an octave.
pub const CURVE_END: u64 = 600;

/// The spacing of the knots of the curve, in cents.
pub const KNOT_STEP: u64 = 10;

/// The knots of the curve: its value, in parts per million, at the distance
/// of `50 + 10 * k` cents. From half a semitone to three semitones the knots
/// lie on `3/4 * log6(300 / d)`, a logarithmic decay from three quarters to
/// nothing; up to four semitones they are zero; from four to six semitones
/// they lie on `1/4 * (1 - cos(pi * (d - 400) / 200))`, a recovery that ends
/// at one half.
pub open spec fn knot(k: int) -> int {
    if k == 0 {
        750_000
    } else if k == 1 {
        673_683
    } else if k == 2 {
        609_158
    } else if k == 3 {
        553_264
    } else if k == 4 {
        503_963
    } else if k == 5 {
        459_860
    } else if k == 6 {
        419_965
    } else if k == 7 {
        383_544
    } else if k == 8 {
        350_039
    } else if k == 9 {
        319_019
    } else if k == 10 {
        290_140
    } else if k == 11 {
        263_125
    } else if k == 12 {
        237_748
    } else if k == 13 {
        213_823
    } else if k == 14 {
        191_191
    } else if k == 15 {
        169_721
    } else if k == 16 {
        149_298
    } else if k == 17 {
        129_826
    } else if k == 18 {
        111_219
    } else if k == 19 {
        93_404
    } else if k == 20 {
        76_317
    } else if k == 21 {
        59_900
    } else if k == 22 {
        44_102
    } else if k == 23 {
        28_879
    } else if k == 24 {
        14_191
    } else if k == 36 {
        3_078
    } else if k == 37 {
        12_236
    } else if k == 38 {
        27_248
    } else if k == 39 {
        47_746
    } else if k == 40 {
        73_223
    } else if k == 41 {
        103_054
    } else if k == 42 {
        136_502
    } else if k == 43 {
        172_746
    } else if k == 44 {
        210_891
    } else if k == 45 {
        250_000
    } else if k == 46 {
        289_109
    } else if k == 47 {
        327_254
    } else if k == 48 {
        363_498
    } else if k == 49 {
        396_946
    } else if k == 50 {
        426_777
    } else if k == 51 {
        452_254
    } else if k == 52 {
        472_752
    } else if k == 53 {
        487_764
    } else if k == 54 {
        496_922
    } else if k == 55 {
        500_000
    } else {
        0
    }
}

/// The value of the curve at the `k`-th knot.
pub fn knot_value(k: u64) -> (value: u32)
    ensures
        value == knot(k as int),
{
    match k {
        0 => 750_000,
        1 => 673_683,
        2 => 609_158,
        3 => 553_264,
        4 => 503_963,
        5 => 459_860,
        6 => 419_965,
        7 => 383_544,
        8 => 350_039,
        9 => 319_019,
        10 => 290_140,
        11 => 263_125,
        12 => 237_748,
        13 => 213_823,
        14 => 191_191,
        15 => 169_721,
        16 => 149_298,
        17 => 129_826,
        18 => 111_219,
        19 => 93_404,
        20 => 76_317,
        21 => 59_900,
        22 => 44_102,
        23 => 28_879,
        24 => 14_191,
        36 => 3_078,
        37 => 12_236,
        38 => 27_248,
        39 => 47_746,
        40 => 73_223,
        41 => 103_054,
        42 => 136_502,
        43 => 172_746,
        44 => 210_891,
        45 => 250_000,
        46 => 289_109,
        47 => 327_254,
        48 => 363_498,
        49 => 396_946,
        50 => 426_777,
        51 => 452_254,
        52 => 472_752,
        53 => 487_764,
        54 => 496_922,
        55 => 500_000,
        _ => 0,
    }
}

/// The distance-compensation curve: the credit, in parts per million, for a
/// pitch that is `d` cents away from where it should be. Up to half a
/// semitone it is the parabola `1 + d/200 - 2 * (d/100)^2`, capped at the
/// whole; from there to six semitones it runs straight from knot to knot;
/// beyond six semitones, and for a negative `d`, it is nothing.
pub open spec fn grade_curve(d: int) -> int {
    if d < 0 {
        0
    } else if d < 50 {
        let parabola = (10_000 + 50 * d - 2 * d * d) * 100;
        if parabola < 1_000_000 {
            parabola
        } else {
            1_000_000
        }
    } else if d < 600 {
        let k = (d - 50) / 10;
        let r = (d - 50) % 10;
        (knot(k) * (10 - r) + knot(k + 1) * r) / 10
    } else if d == 600 {
        knot(55)
    } else {
        0
    }
}

/// Every knot is a credit between nothing and three quarters.
pub proof fn lemma_knot_range(k: int)
    ensures
        0 <= knot(k) <= 750_000,
{
}

/// The curve gives a credit between nothing and the whole, whatever the
/// distance.
pub proof fn lemma_grade_curve_range(d: int)
    ensures
        0 <= grade_curve(d) <= 1_000_000,
{
    if 0 <= d < 50 {
        assert(0 <= 10_000 + 50 * d - 2 * d * d) by (nonlinear_arith)
            requires
                0 <= d < 50,
        ;
    } else if 50 <= d < 600 {
        let k = (d - 50) / 10;
        let r = (d - 50) % 10;
        lemma_knot_range(k);
        lemma_knot_range(k + 1);
        let a = knot(k);
        let b = knot(k + 1);
        assert(0 <= a * (10 - r) + b * r <= 7_500_000) by (nonlinear_arith)
            requires
                0 <= a <= 750_000,
                0 <= b <= 750_000,
                0 <= r < 10,
        ;
    }
}

/// The credit for a pitch that is `d` cents away from where it should be.
pub fn grade_key(d: u64) -> (grade: u32)
    ensures
        grade == grade_curve(d as int),
        grade <= 1_000_000,
{
    proof {
        lemma_grade_curve_range(d as int);
    }
    if d < PARABOLA_END {
        assert(0 <= 10_000 + 50 * d - 2 * d * d <= 10_313) by (nonlinear_arith)
            requires
                0 <= d < 50,
        ;
        assert(2 * d * d <= 4_802) by (nonlinear_arith)
            requires
                0 <= d < 50,
        ;
        let parabola: u64 = (10_000 + 50 * d - 2 * d * d) * 100;
        if parabola < FULL_SCORE as u64 {
            parabola as u32
        } else {
            FULL_SCORE
        }
    } else if d < CURVE_END {
        let k: u64 = (d - PARABOLA_END) / KNOT_STEP;
        let r: u64 = (d - PARABOLA_END) % KNOT_STEP;
        let a: u64 = knot_value(k) as u64;
        let b: u64 = knot_value(k + 1) as u64;
        proof {
            lemma_knot_range(k as int);
            lemma_knot_range(k + 1);
        }
        assert(0 <= a * (10 - r) + b * r <= 7_500_000) by (nonlinear_arith)
            requires
                0 <= a <= 750_000,
                0 <= b <= 750_000,
                0 <= r < 10,
        ;
        ((a * (KNOT_STEP - r) + b * r) / KNOT_STEP) as u32
    } else if d == CURVE_END {
        knot_value(55)
    } else {
        0
    }
}

} // verus!
