//! Melodies as signals: turns of a sequence, dot products, and the circular
//! cross-correlation of two melodies.

use crate::model::{NoteSample, sample_value};
use vstd::prelude::*;

verus! {

/// `s` turned left by `k` places: sample `i` of the result is sample `i + k`
/// of `s`, and the first `k` samples follow the last.
pub open spec fn rotated_left<A>(s: Seq<A>, k: int) -> Seq<A> {
    s.subrange(k, s.len() as int) + s.subrange(0, k)
}

/// `s` turned right by `k` places: the last `k` samples come first.
pub open spec fn rotated_right<A>(s: Seq<A>, k: int) -> Seq<A> {
    s.subrange(s.len() - k, s.len() as int) + s.subrange(0, s.len() - k)
}

/// The signal of a melody: each pitch in cents, and zero for silence.
pub open spec fn signal(s: Seq<NoteSample>) -> Seq<int> {
    Seq::new(s.len(), |i: int| sample_value(s[i]))
}

/// The sum of the products `a[i] * b[i]` over the first `k` places.
pub open spec fn dot_prefix(a: Seq<int>, b: Seq<int>, k: int) -> int
    decreases k,
{
    if k <= 0 {
        0
    } else {
        dot_prefix(a, b, k - 1) + a[k - 1] * b[k - 1]
    }
}

/// The dot product of two signals of one length.
pub open spec fn dot(a: Seq<int>, b: Seq<int>) -> int {
    dot_prefix(a, b, a.len() as int)
}

/// The circular cross-correlation of a recording with a reference at `lag`:
/// the dot product of the recording with the reference turned left by `lag`.
pub open spec fn correlation(target: Seq<NoteSample>, input: Seq<NoteSample>, lag: int) -> int {
    dot(signal(input), signal(rotated_left(target, lag)))
}

/// Turning left and then right by the same amount gives the sequence back.
pub proof fn lemma_rotate_left_then_right<A>(s: Seq<A>, k: int)
    requires
        0 <= k <= s.len(),
    ensures
        rotated_right(rotated_left(s, k), k) == s,
{
    assert(rotated_right(rotated_left(s, k), k) =~= s);
}

/// Turning right and then left by the same amount gives the sequence back.
pub proof fn lemma_rotate_right_then_left<A>(s: Seq<A>, k: int)
    requires
        0 <= k <= s.len(),
    ensures
        rotated_left(rotated_right(s, k), k) == s,
{
    assert(rotated_left(rotated_right(s, k), k) =~= s);
}

/// A turn keeps the length, and sample `i` of the result is the sample of
/// `s` found `k` places further on, counting round the end.
pub proof fn lemma_rotated_left_index<A>(s: Seq<A>, k: int, i: int)
    requires
        0 <= k <= s.len(),
        0 <= i < s.len(),
    ensures
        rotated_left(s, k).len() == s.len(),
        i < s.len() - k ==> rotated_left(s, k)[i] == s[i + k],
        i >= s.len() - k ==> rotated_left(s, k)[i] == s[i + k - s.len()],
{
}

/// Only the places before `k` count in a prefix of a dot product.
pub proof fn lemma_dot_prefix_agrees(a: Seq<int>, b: Seq<int>, c: Seq<int>, d: Seq<int>, k: int)
    requires
        0 <= k <= a.len(),
        k <= b.len(),
        k <= c.len(),
        k <= d.len(),
        forall|i: int| 0 <= i < k ==> a[i] == c[i] && b[i] == d[i],
    ensures
        dot_prefix(a, b, k) == dot_prefix(c, d, k),
    decreases k,
{
    if k > 0 {
        lemma_dot_prefix_agrees(a, b, c, d, k - 1);
    }
}

/// A dot product over two joined signals is the sum of the dot products of
/// the parts.
pub proof fn lemma_dot_concat(a1: Seq<int>, a2: Seq<int>, b1: Seq<int>, b2: Seq<int>, k: int)
    requires
        a1.len() == b1.len(),
        0 <= k <= a2.len(),
        k <= b2.len(),
    ensures
        dot_prefix(a1 + a2, b1 + b2, a1.len() + k) == dot(a1, b1) + dot_prefix(a2, b2, k),
    decreases k,
{
    if k == 0 {
        lemma_dot_prefix_agrees(a1 + a2, b1 + b2, a1, b1, a1.len() as int);
    } else {
        lemma_dot_concat(a1, a2, b1, b2, k - 1);
        assert((a1 + a2)[a1.len() + k - 1] == a2[k - 1]);
        assert((b1 + b2)[a1.len() + k - 1] == b2[k - 1]);
    }
}

/// The sum of the squares of a signal does not change when it is turned.
pub proof fn lemma_energy_rotated(target: Seq<NoteSample>, k: int)
    requires
        0 <= k <= target.len(),
    ensures
        dot(signal(rotated_left(target, k)), signal(rotated_left(target, k))) == dot(
            signal(target),
            signal(target),
        ),
{
    let n = target.len() as int;
    let head = signal(target.subrange(0, k));
    let tail = signal(target.subrange(k, n));
    assert(signal(target) =~= head + tail);
    assert(signal(rotated_left(target, k)) =~= tail + head);
    lemma_dot_concat(head, tail, head, tail, tail.len() as int);
    lemma_dot_concat(tail, head, tail, head, head.len() as int);
}

/// Twice a dot product is at most the sum of the squares of both signals.
pub proof fn lemma_dot_below_energy(a: Seq<int>, b: Seq<int>, k: int)
    requires
        0 <= k <= a.len(),
        k <= b.len(),
    ensures
        2 * dot_prefix(a, b, k) <= dot_prefix(a, a, k) + dot_prefix(b, b, k),
    decreases k,
{
    if k > 0 {
        lemma_dot_below_energy(a, b, k - 1);
        let x = a[k - 1];
        let y = b[k - 1];
        assert(2 * (x * y) <= x * x + y * y) by (nonlinear_arith) {
            assert((x - y) * (x - y) >= 0);
            assert((x - y) * (x - y) == x * x - 2 * (x * y) + y * y);
        }
    }
}

/// No lag correlates a melody with itself better than lag zero does.
pub proof fn lemma_autocorrelation_peak(x: Seq<NoteSample>, lag: int)
    requires
        0 <= lag <= x.len(),
    ensures
        correlation(x, x, lag) <= correlation(x, x, 0),
{
    let n = x.len() as int;
    let a = signal(x);
    let b = signal(rotated_left(x, lag));
    assert(rotated_left(x, 0) =~= x);
    lemma_dot_below_energy(a, b, n);
    lemma_energy_rotated(x, lag);
}

/// A prefix of a dot product of signals of pitches stays within the range
/// that the number of its terms allows.
pub proof fn lemma_dot_prefix_bounds(a: Seq<int>, b: Seq<int>, k: int)
    requires
        0 <= k <= a.len(),
        k <= b.len(),
        forall|i: int| 0 <= i < k ==> -0x8000_0000 <= #[trigger] a[i] <= 0x7fff_ffff,
        forall|i: int| 0 <= i < k ==> -0x8000_0000 <= #[trigger] b[i] <= 0x7fff_ffff,
    ensures
        -k * 0x4000_0000_0000_0000 <= dot_prefix(a, b, k) <= k * 0x4000_0000_0000_0000,
    decreases k,
{
    if k > 0 {
        lemma_dot_prefix_bounds(a, b, k - 1);
        let x = a[k - 1];
        let y = b[k - 1];
        assert(-0x4000_0000_0000_0000 <= x * y <= 0x4000_0000_0000_0000) by (nonlinear_arith)
            requires
                -0x8000_0000 <= x <= 0x7fff_ffff,
                -0x8000_0000 <= y <= 0x7fff_ffff,
        ;
    }
}

/// The signal of a turned melody is the turned signal of the melody.
pub proof fn lemma_signal_rotated(s: Seq<NoteSample>, k: int)
    requires
        0 <= k <= s.len(),
    ensures
        signal(rotated_left(s, k)) == rotated_left(signal(s), k),
{
    assert(signal(rotated_left(s, k)) =~= rotated_left(signal(s), k));
}

/// Two turns to the left are one turn by their sum, counted round the end.
pub proof fn lemma_rotated_left_twice<A>(s: Seq<A>, a: int, b: int)
    requires
        0 <= a <= s.len(),
        0 <= b <= s.len(),
    ensures
        a + b <= s.len() ==> rotated_left(rotated_left(s, a), b) == rotated_left(s, a + b),
        a + b > s.len() ==> rotated_left(rotated_left(s, a), b) == rotated_left(
            s,
            a + b - s.len(),
        ),
{
    if a + b <= s.len() {
        assert(rotated_left(rotated_left(s, a), b) =~= rotated_left(s, a + b));
    } else {
        assert(rotated_left(rotated_left(s, a), b) =~= rotated_left(s, a + b - s.len()));
    }
}

/// A dot product does not change when both signals are turned alike.
pub proof fn lemma_dot_rotated(a: Seq<int>, b: Seq<int>, k: int)
    requires
        a.len() == b.len(),
        0 <= k <= a.len(),
    ensures
        dot(rotated_left(a, k), rotated_left(b, k)) == dot(a, b),
{
    let n = a.len() as int;
    let a_head = a.subrange(0, k);
    let a_tail = a.subrange(k, n);
    let b_head = b.subrange(0, k);
    let b_tail = b.subrange(k, n);
    assert(a =~= a_head + a_tail);
    assert(b =~= b_head + b_tail);
    lemma_dot_concat(a_head, a_tail, b_head, b_tail, a_tail.len() as int);
    lemma_dot_concat(a_tail, a_head, b_tail, b_head, a_head.len() as int);
}

/// How far lag `m` lies behind lag `p`, counted round the end of `n` lags.
pub open spec fn lag_behind(m: int, p: int, n: int) -> int {
    if m >= p {
        m - p
    } else {
        m - p + n
    }
}

/// A recording that is the reference turned left by `p` correlates with the
/// reference at lag `m` as the reference does with itself at the lag by
/// which `m` lies behind `p`.
pub proof fn lemma_correlation_of_turned(target: Seq<NoteSample>, p: int, m: int)
    requires
        0 <= p < target.len(),
        0 <= m < target.len(),
    ensures
        correlation(target, rotated_left(target, p), m) == correlation(
            target,
            target,
            lag_behind(m, p, target.len() as int),
        ),
{
    let n = target.len() as int;
    let recording = rotated_left(target, p);
    let a = signal(recording);
    let b = signal(rotated_left(target, m));
    lemma_dot_rotated(a, b, n - p);
    lemma_signal_rotated(recording, n - p);
    lemma_signal_rotated(rotated_left(target, m), n - p);
    lemma_rotated_left_twice(target, p, n - p);
    lemma_rotated_left_twice(target, m, n - p);
    assert(rotated_left(target, n) =~= target);
    assert(rotated_left(target, 0) =~= target);
}

} // verus!
