//! How much traffic there is at what time of day.

use vstd::prelude::*;

verus! {

/// Number of points at which the traffic is given.
pub const FRAMES: usize = 14;

/// The hour, in millionths, and the traffic at it, in millionths of the usual rate.
pub open spec fn keyframe(i: int) -> (int, int) {
    if i <= 0 {
        (0, 50_000)
    } else if i == 1 {
        (6_000_000, 300_000)
    } else if i == 2 {
        (7_000_000, 1_500_000)
    } else if i == 3 {
        (8_000_000, 3_000_000)
    } else if i == 4 {
        (9_000_000, 2_000_000)
    } else if i == 5 {
        (12_000_000, 1_500_000)
    } else if i == 6 {
        (13_000_000, 1_800_000)
    } else if i == 7 {
        (14_000_000, 1_300_000)
    } else if i == 8 {
        (16_000_000, 1_500_000)
    } else if i == 9 {
        (17_000_000, 3_000_000)
    } else if i == 10 {
        (18_000_000, 2_500_000)
    } else if i == 11 {
        (20_000_000, 1_200_000)
    } else if i == 12 {
        (22_000_000, 400_000)
    } else {
        (24_000_000, 50_000)
    }
}

fn frame(i: usize) -> (r: (i64, i64))
    ensures
        (r.0 as int, r.1 as int) == keyframe(i as int),
{
    if i == 0 {
        (0, 50_000)
    } else if i == 1 {
        (6_000_000, 300_000)
    } else if i == 2 {
        (7_000_000, 1_500_000)
    } else if i == 3 {
        (8_000_000, 3_000_000)
    } else if i == 4 {
        (9_000_000, 2_000_000)
    } else if i == 5 {
        (12_000_000, 1_500_000)
    } else if i == 6 {
        (13_000_000, 1_800_000)
    } else if i == 7 {
        (14_000_000, 1_300_000)
    } else if i == 8 {
        (16_000_000, 1_500_000)
    } else if i == 9 {
        (17_000_000, 3_000_000)
    } else if i == 10 {
        (18_000_000, 2_500_000)
    } else if i == 11 {
        (20_000_000, 1_200_000)
    } else if i == 12 {
        (22_000_000, 400_000)
    } else {
        (24_000_000, 50_000)
    }
}

/// A smooth step from `a` to `b`, at `x` of `n`: with t = x / n it is a + (b - a) (3 t^2 - 2 t^3),
/// rounded down.
pub open spec fn smooth(a: int, b: int, x: int, n: int) -> int {
    a + (b - a) * (x * x * (3 * n - 2 * x)) / (n * n * n)
}

/// The first span of keyframes from `k` on that an hour lies in.
pub open spec fn span_of(hour: int, k: int) -> int
    decreases FRAMES - k,
{
    if k >= FRAMES - 2 || keyframe(k).0 <= hour <= keyframe(k + 1).0 {
        k
    } else {
        span_of(hour, k + 1)
    }
}

/// The traffic at an hour of the day.
pub open spec fn traffic_at(hour: int) -> int {
    let h = hour % 24_000_000;
    let k = span_of(h, 0);
    smooth(
        keyframe(k).1,
        keyframe(k + 1).1,
        h - keyframe(k).0,
        keyframe(k + 1).0 - keyframe(k).0,
    )
}

/// The course of the day.
pub struct DayCycle;

impl DayCycle {
    /// The traffic at an hour of the day, in millionths of the usual rate.
    pub fn spawn_multiplier(game_hour: i64) -> (r: i64)
        ensures
            r == traffic_at(game_hour as int),
            50_000 <= r <= 3_000_000,
    {
        let day: i128 = crate::units::floor_div(game_hour as i128, 24_000_000);
        let h: i64 = (game_hour as i128 - day * 24_000_000) as i64;
        assert(h == game_hour as int % 24_000_000);
        let mut k: usize = 0;
        while k < FRAMES - 2 && !(frame(k).0 <= h && h <= frame(k + 1).0)
            invariant
                k <= FRAMES - 2,
                0 <= h < 24_000_000,
                keyframe(k as int).0 <= h,
                span_of(h as int, 0) == span_of(h as int, k as int),
            decreases FRAMES - k,
        {
            k = k + 1;
        }
        let lo: (i64, i64) = frame(k);
        let hi: (i64, i64) = frame(k + 1);
        let x: i128 = h as i128 - lo.0 as i128;
        let n: i128 = hi.0 as i128 - lo.0 as i128;
        let d: i128 = hi.1 as i128 - lo.1 as i128;
        proof {
            assert(0 <= x <= n && 0 < n <= 6_000_000);
            lemma_smooth(lo.1 as int, hi.1 as int, x as int, n as int);
            lemma_smooth_fits(d as int, x as int, n as int);
        }
        let rise: i128 = crate::units::floor_div(d * (x * x * (3 * n - 2 * x)), n * n * n);
        (lo.1 as i128 + rise) as i64
    }
}

proof fn lemma_smooth_fits(d: int, x: int, n: int)
    requires
        0 <= x <= n,
        0 < n <= 6_000_000,
        -3_000_000 <= d <= 3_000_000,
    ensures
        0 <= x * x <= 36_000_000_000_000,
        0 <= x * x * (3 * n - 2 * x) <= 648_000_000_000_000_000_000,
        -0x1000_0000_0000_0000_0000_0000 <= d * (x * x * (3 * n - 2 * x))
            <= 0x1000_0000_0000_0000_0000_0000,
        0 < n * n <= 36_000_000_000_000,
        0 < n * n * n <= 216_000_000_000_000_000_000,
{
    assert(0 <= x * x <= 36_000_000_000_000) by (nonlinear_arith)
        requires
            0 <= x <= 6_000_000,
    ;
    let q = x * x;
    let w = 3 * n - 2 * x;
    assert(0 <= q * w <= 648_000_000_000_000_000_000) by (nonlinear_arith)
        requires
            0 <= q <= 36_000_000_000_000,
            0 <= w <= 18_000_000,
    ;
    let r = q * w;
    assert(-0x1000_0000_0000_0000_0000_0000 <= d * r <= 0x1000_0000_0000_0000_0000_0000)
        by (nonlinear_arith)
        requires
            0 <= r <= 648_000_000_000_000_000_000,
            -3_000_000 <= d <= 3_000_000,
    ;
    assert(0 < n * n <= 36_000_000_000_000) by (nonlinear_arith)
        requires
            0 < n <= 6_000_000,
    ;
    let m = n * n;
    assert(0 < m * n <= 216_000_000_000_000_000_000) by (nonlinear_arith)
        requires
            0 < n <= 6_000_000,
            0 < m <= 36_000_000_000_000,
    ;
}

/// A smooth step stays between its ends.
proof fn lemma_smooth(a: int, b: int, x: int, n: int)
    requires
        0 <= x <= n,
        0 < n,
    ensures
        a <= b ==> a <= smooth(a, b, x, n) <= b,
        b <= a ==> b <= smooth(a, b, x, n) <= a,
        smooth(a, b, n, n) == b,
        smooth(a, b, 0, n) == a,
{
    let w = 3 * n - 2 * x;
    let r = x * x * w;
    let c = n * n * n;
    assert(c > 0) by (nonlinear_arith)
        requires
            n > 0,
            c == n * n * n,
    ;
    assert(0 <= r <= c) by (nonlinear_arith)
        requires
            0 <= x <= n,
            0 < n,
            w == 3 * n - 2 * x,
            r == x * x * w,
            c == n * n * n,
    ;
    let d = b - a;
    assert(d >= 0 ==> 0 <= d * r / c <= d) by (nonlinear_arith)
        requires
            0 <= r <= c,
            c > 0,
    ;
    assert(d <= 0 ==> d <= d * r / c <= 0) by (nonlinear_arith)
        requires
            0 <= r <= c,
            c > 0,
    ;
    assert(d * (n * n * (3 * n - 2 * n)) / (n * n * n) == d) by (nonlinear_arith)
        requires
            n > 0,
    ;
    assert(d * (0 * 0 * (3 * n - 2 * 0)) / (n * n * n) == 0) by (nonlinear_arith)
        requires
            n > 0,
    ;
}

/// At every keyframe the traffic is the one given there, and it is the same at the same hour of
/// every day.
pub proof fn law_traffic_at_keyframes(i: int, hour: int)
    requires
        0 <= i < FRAMES - 1,
    ensures
        traffic_at(keyframe(i).0) == keyframe(i).1,
        traffic_at(hour + 24_000_000) == traffic_at(hour),
{
    let h = keyframe(i).0;
    assert(h % 24_000_000 == h);
    reveal_with_fuel(span_of, 14);
    let k = span_of(h, 0);
    let n = keyframe(k + 1).0 - keyframe(k).0;
    lemma_smooth(keyframe(k).1, keyframe(k + 1).1, 0, n);
    assert((hour + 24_000_000) % 24_000_000 == hour % 24_000_000);
}

/// At no hour is there more traffic than at eight in the morning and at five in the afternoon, three
/// times the usual, nor less than at midnight, a twentieth of the usual.
pub proof fn law_rush_hours_are_busiest(hour: int)
    ensures
        traffic_at(8_000_000) == 3_000_000,
        traffic_at(17_000_000) == 3_000_000,
        traffic_at(0) == 50_000,
        50_000 <= traffic_at(hour) <= 3_000_000,
{
    law_traffic_at_keyframes(0, 0);
    law_traffic_at_keyframes(3, 0);
    law_traffic_at_keyframes(9, 0);
    let h = hour % 24_000_000;
    lemma_span(h, 0);
    let k = span_of(h, 0);
    lemma_smooth_between(
        keyframe(k).1,
        keyframe(k + 1).1,
        h - keyframe(k).0,
        keyframe(k + 1).0 - keyframe(k).0,
    );
}

proof fn lemma_span(h: int, k: int)
    requires
        0 <= k <= FRAMES - 2,
        keyframe(k).0 <= h < 24_000_000,
    ensures
        ({
            let s = span_of(h, k);
            k <= s <= FRAMES - 2 && keyframe(s).0 <= h <= keyframe(s + 1).0
        }),
    decreases FRAMES - k,
{
    if k < FRAMES - 2 && h > keyframe(k + 1).0 {
        lemma_span(h, k + 1);
    }
}

/// A smooth step stays between its ends.
proof fn lemma_smooth_between(a: int, b: int, x: int, n: int)
    requires
        0 <= x <= n,
        0 < n,
    ensures
        a <= b ==> a <= smooth(a, b, x, n) <= b,
        b <= a ==> b <= smooth(a, b, x, n) <= a,
{
    let w = x * x * (3 * n - 2 * x);
    let m = n * n * n;
    assert(0 <= w) by (nonlinear_arith)
        requires
            0 <= x <= n,
            w == x * x * (3 * n - 2 * x),
    ;
    let y = n - x;
    assert(w + y * y * (3 * n - 2 * y) == m) by (nonlinear_arith)
        requires
            y == n - x,
            w == x * x * (3 * n - 2 * x),
            m == n * n * n,
    ;
    assert(0 <= y * y * (3 * n - 2 * y)) by (nonlinear_arith)
        requires
            0 <= y <= n,
    ;
    assert(m > 0) by (nonlinear_arith)
        requires
            n > 0,
            m == n * n * n,
    ;
    let d = b - a;
    assert(d >= 0 ==> 0 <= d * w / m <= d) by (nonlinear_arith)
        requires
            0 <= w <= m,
            m > 0,
    ;
    assert(d <= 0 ==> d <= d * w / m <= 0) by (nonlinear_arith)
        requires
            0 <= w <= m,
            m > 0,
    ;
}

/// Between two of the set hours the traffic is between what it is at them.
pub proof fn law_traffic_between_keyframes(hour: int, i: int)
    requires
        0 <= i < FRAMES - 1,
        keyframe(i).0 <= hour <= keyframe(i + 1).0,
        hour < 24_000_000,
    ensures
        ({
            let (a, b) = (keyframe(i).1, keyframe(i + 1).1);
            let t = traffic_at(hour);
            (a <= t <= b) || (b <= t <= a)
        }),
{
    lemma_span(hour, 0);
    let k = span_of(hour, 0);
    lemma_smooth_between(
        keyframe(k).1,
        keyframe(k + 1).1,
        hour - keyframe(k).0,
        keyframe(k + 1).0 - keyframe(k).0,
    );
    if k != i {
        if hour == keyframe(i).0 {
            law_traffic_at_keyframes(i, 0);
        } else {
            law_traffic_at_keyframes(i + 1, 0);
        }
    }
}

} // verus!
