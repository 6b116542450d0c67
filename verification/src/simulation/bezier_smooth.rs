//! Smooth movement along a quadratic curve: a table of arc lengths makes a car keep its speed
//! whatever the shape of the curve, and what is drawn lies between the last two physics steps.

use vstd::prelude::*;

use crate::simulation::sim_loop::{MAX_ELAPSED, PHYSICS_DT};
use crate::units::{
    between, clamp_to, distance, floor_div, from_plane, globe, lemma_span_not_negative, saturate,
    saturated, smaller, span, FULL,
};

verus! {

/// How many points of a curve are measured.
pub const LUT_SAMPLES: usize = 512;

/// A quarter of a turn, in millionths of a radian.
pub const QUARTER_TURN: i64 = 1_570_796;

/// Half a turn, in millionths of a radian.
pub const HALF_TURN: i64 = 3_141_593;

/// A full turn, in millionths of a radian.
pub const FULL_TURN: i64 = 6_283_185;

/// How far ahead on the curve a car looks where the curve stands still: a ten-thousandth.
pub const LOOK_AHEAD: i64 = 100_000;

/// One coordinate of the point at parameter `t`, in billionths, of a curve from `p` over `c` to `q`.
pub open spec fn curve_at(p: int, c: int, q: int, t: int) -> int {
    ((FULL - t) * (FULL - t) * p + 2 * ((FULL - t) * t) * c + t * t * q) / (FULL * FULL)
}

/// One coordinate of the first derivative of such a curve.
pub open spec fn slope_at(p: int, c: int, q: int, t: int) -> int {
    saturated((2 * ((FULL - t) * (c - p)) + 2 * (t * (q - c))) / (FULL as int))
}

/// The parameter of sample `i`.
pub open spec fn sample_at(i: int) -> int {
    i * FULL / 511
}

/// One coordinate of the point at parameter `t` of a curve.
pub fn eval_coordinate(p: i64, c: i64, q: i64, t: i64) -> (r: i64)
    requires
        0 <= t <= FULL,
    ensures
        r == curve_at(p as int, c as int, q as int, t as int),
{
    let s: i128 = 1_000_000_000 - t as i128;
    let u: i128 = t as i128;
    proof {
        let (si, ui) = (s as int, u as int);
        assert(si * si >= 0 && si * ui >= 0 && ui * ui >= 0 && si * si + 2 * (si * ui) + ui * ui
            == 1_000_000_000_000_000_000) by (nonlinear_arith)
            requires
                si == 1_000_000_000 - ui,
                0 <= ui <= 1_000_000_000,
        ;
        let (w0, w1, w2) = (si * si, 2 * (si * ui), ui * ui);
        lemma_weighted(w0, p as int);
        lemma_weighted(w1, c as int);
        lemma_weighted(w2, q as int);
        assert(w0 + w1 + w2 == 1_000_000_000_000_000_000);
    }
    let sum: i128 = s * s * p as i128 + 2 * (s * u) * c as i128 + u * u * q as i128;
    let r: i128 = floor_div(sum, 1_000_000_000_000_000_000);
    proof {
        let n = sum as int;
        assert(-0x8000_0000_0000_0000 * 1_000_000_000_000_000_000 <= n <= 0x7fff_ffff_ffff_ffff
            * 1_000_000_000_000_000_000) by {
            let (si, ui) = (s as int, u as int);
            let (w0, w1, w2) = (si * si, 2 * (si * ui), ui * ui);
            lemma_weighted(w0, p as int);
            lemma_weighted(w1, c as int);
            lemma_weighted(w2, q as int);
        }
    }
    r as i64
}

proof fn lemma_weighted(w: int, x: int)
    requires
        0 <= w,
        i64::MIN <= x <= i64::MAX,
    ensures
        -0x8000_0000_0000_0000 * w <= w * x <= 0x7fff_ffff_ffff_ffff * w,
{
    assert(-0x8000_0000_0000_0000 * w <= w * x <= 0x7fff_ffff_ffff_ffff * w) by (nonlinear_arith)
        requires
            0 <= w,
            -0x8000_0000_0000_0000 <= x <= 0x7fff_ffff_ffff_ffff,
    ;
}

fn eval_slope(p: i64, c: i64, q: i64, t: i64) -> (r: i64)
    requires
        0 <= t <= FULL,
    ensures
        r == slope_at(p as int, c as int, q as int, t as int),
{
    let s: i128 = 1_000_000_000 - t as i128;
    let a: i128 = c as i128 - p as i128;
    let b: i128 = q as i128 - c as i128;
    proof {
        lemma_bounded_product(s as int, a as int);
        lemma_bounded_product(t as int, b as int);
    }
    saturate(floor_div(2 * (s * a) + 2 * (t as i128 * b), 1_000_000_000))
}

proof fn lemma_bounded_product(s: int, a: int)
    requires
        0 <= s <= 1_000_000_000,
        -0x1_0000_0000_0000_0000 <= a <= 0x1_0000_0000_0000_0000,
    ensures
        -0x1_0000_0000_0000_0000 * 1_000_000_000 <= s * a <= 0x1_0000_0000_0000_0000
            * 1_000_000_000,
{
    assert(-0x1_0000_0000_0000_0000 * 1_000_000_000 <= s * a <= 0x1_0000_0000_0000_0000
        * 1_000_000_000) by (nonlinear_arith)
        requires
            0 <= s <= 1_000_000_000,
            -0x1_0000_0000_0000_0000 <= a <= 0x1_0000_0000_0000_0000,
    ;
}

/// A quadratic curve with a table of arc lengths.
pub struct BezierPath {
    pub p0: (i64, i64),
    pub ctrl: (i64, i64),
    pub p2: (i64, i64),
    /// The length of the curve up to each sample.
    pub lut: Vec<i64>,
    pub total_length: i64,
}

/// Where a car is on a curve and which way the curve goes there.
#[derive(Clone, Copy, Debug)]
pub struct PathState {
    pub position: (i64, i64),
    pub direction: (i64, i64),
}

/// The length of a curve up to sample `i`, as a sum of chords.
pub open spec fn length_to(p0: (i64, i64), c: (i64, i64), p2: (i64, i64), i: int) -> int
    decreases i,
{
    if i <= 0 {
        0
    } else {
        let a = point_on(p0, c, p2, sample_at(i - 1));
        let b = point_on(p0, c, p2, sample_at(i));
        saturated(length_to(p0, c, p2, i - 1) + span(b.0, b.1, a.0, a.1))
    }
}

/// The point of a curve at parameter `t`.
pub open spec fn point_on(p0: (i64, i64), c: (i64, i64), p2: (i64, i64), t: int) -> (int, int) {
    (
        curve_at(p0.0 as int, c.0 as int, p2.0 as int, t),
        curve_at(p0.1 as int, c.1 as int, p2.1 as int, t),
    )
}

/// How many entries of a table come before the first one that is not less than `d`.
pub open spec fn first_not_less(lut: Seq<i64>, d: int, k: int) -> bool {
    &&& 0 <= k <= lut.len()
    &&& forall|i: int| 0 <= i < k ==> #[trigger] lut[i] < d
    &&& k < lut.len() ==> lut[k] >= d
}

impl BezierPath {
    /// The table holds the arc lengths of the curve.
    pub open spec fn wf(&self) -> bool {
        &&& self.lut@.len() == LUT_SAMPLES
        &&& forall|i: int|
            0 <= i < LUT_SAMPLES ==> #[trigger] self.lut@[i] == length_to(
                self.p0,
                self.ctrl,
                self.p2,
                i,
            )
        &&& self.total_length == length_to(self.p0, self.ctrl, self.p2, 511)
    }

    /// The point at parameter `t`.
    pub open spec fn point(&self, t: int) -> (int, int) {
        point_on(self.p0, self.ctrl, self.p2, t)
    }

    /// The curve from `p0` over `ctrl` to `p2`, with its lengths.
    pub fn new(p0: (i64, i64), ctrl: (i64, i64), p2: (i64, i64)) -> (r: BezierPath)
        ensures
            r.wf(),
            r.p0 == p0,
            r.ctrl == ctrl,
            r.p2 == p2,
    {
        let mut path = BezierPath { p0, ctrl, p2, lut: Vec::new(), total_length: 0 };
        path.build_lut();
        path
    }

    /// The point at parameter `t`.
    pub fn eval(&self, t: i64) -> (r: (i64, i64))
        requires
            0 <= t <= FULL,
        ensures
            (r.0 as int, r.1 as int) == self.point(t as int),
    {
        (
            eval_coordinate(self.p0.0, self.ctrl.0, self.p2.0, t),
            eval_coordinate(self.p0.1, self.ctrl.1, self.p2.1, t),
        )
    }

    /// The first derivative at parameter `t`.
    pub open spec fn slope(&self, t: int) -> (int, int) {
        (
            slope_at(self.p0.0 as int, self.ctrl.0 as int, self.p2.0 as int, t),
            slope_at(self.p0.1 as int, self.ctrl.1 as int, self.p2.1 as int, t),
        )
    }

    /// The first derivative at parameter `t`.
    pub fn tangent(&self, t: i64) -> (r: (i64, i64))
        requires
            0 <= t <= FULL,
        ensures
            (r.0 as int, r.1 as int) == self.slope(t as int),
    {
        (
            eval_slope(self.p0.0, self.ctrl.0, self.p2.0, t),
            eval_slope(self.p0.1, self.ctrl.1, self.p2.1, t),
        )
    }

    /// Measures the curve.
    fn build_lut(&mut self)
        ensures
            final(self).wf(),
            final(self).p0 == old(self).p0,
            final(self).ctrl == old(self).ctrl,
            final(self).p2 == old(self).p2,
    {
        let mut lut: Vec<i64> = Vec::new();
        let mut total: i64 = 0;
        let mut prev: (i64, i64) = self.eval(0);
        lut.push(0);
        let mut i: usize = 1;
        assert(sample_at(0) == 0);
        while i < LUT_SAMPLES
            invariant
                1 <= i <= LUT_SAMPLES,
                lut@.len() == i,
                forall|k: int|
                    0 <= k < i ==> #[trigger] lut@[k] == length_to(
                        self.p0,
                        self.ctrl,
                        self.p2,
                        k,
                    ),
                total == length_to(self.p0, self.ctrl, self.p2, i - 1),
                (prev.0 as int, prev.1 as int) == self.point(sample_at(i - 1)),
                self.p0 == old(self).p0,
                self.ctrl == old(self).ctrl,
                self.p2 == old(self).p2,
            decreases LUT_SAMPLES - i,
        {
            let t: i64 = i as i64 * 1_000_000_000 / 511;
            let curr: (i64, i64) = self.eval(t);
            let d: i64 = distance(curr.0, curr.1, prev.0, prev.1);
            total = saturate(total as i128 + d as i128);
            lut.push(total);
            prev = curr;
            i = i + 1;
        }
        self.lut = lut;
        self.total_length = total;
    }

    /// The parameter at a distance along the curve: found in the table, and between two samples in
    /// proportion. Distances beyond the curve mean its ends.
    pub open spec fn parameter(&self, d: int, k: int) -> int {
        if k == 0 {
            0
        } else if k >= LUT_SAMPLES {
            FULL as int
        } else {
            let lo = self.lut@[k - 1] as int;
            let hi = self.lut@[k] as int;
            sample_at(k - 1) + (d - lo) * (sample_at(k) - sample_at(k - 1)) / (hi - lo)
        }
    }

    /// `t` is the parameter at a distance along the curve.
    pub open spec fn parameter_at(&self, d: int, t: int) -> bool {
        let held = between(d, 0, self.total_length as int);
        exists|k: int| #[trigger]
            first_not_less(self.lut@, held, k) && t == self.parameter(held, k)
    }

    /// The table never falls.
    pub proof fn lemma_lut_rises(&self, i: int, j: int)
        requires
            self.wf(),
            0 <= i <= j < LUT_SAMPLES,
        ensures
            0 <= self.lut@[i] <= self.lut@[j] <= self.total_length,
    {
        lemma_length_rises(self.p0, self.ctrl, self.p2, 0, i);
        lemma_length_rises(self.p0, self.ctrl, self.p2, i, j);
        lemma_length_rises(self.p0, self.ctrl, self.p2, j, 511);
    }

    /// The parameter at a distance along the curve.
    pub fn distance_to_t(&self, d: i64) -> (t: i64)
        requires
            self.wf(),
        ensures
            self.parameter_at(d as int, t as int),
            0 <= t <= FULL,
    {
        proof {
            self.lemma_lut_rises(0, 0);
        }
        let held: i64 = clamp_to(d, 0, self.total_length);
        let mut lo: usize = 0;
        let mut hi: usize = LUT_SAMPLES;
        while lo < hi
            invariant
                self.wf(),
                0 <= lo <= hi <= LUT_SAMPLES,
                forall|i: int| 0 <= i < lo ==> #[trigger] self.lut@[i] < held,
                forall|i: int| hi <= i < LUT_SAMPLES ==> #[trigger] self.lut@[i] >= held,
            decreases hi - lo,
        {
            let mid: usize = lo + (hi - lo) / 2;
            if self.lut[mid] < held {
                proof {
                    assert forall|i: int| 0 <= i < mid + 1 implies #[trigger] self.lut@[i]
                        < held by {
                        self.lemma_lut_rises(i, mid as int);
                    }
                }
                lo = mid + 1;
            } else {
                proof {
                    assert forall|i: int| mid <= i < LUT_SAMPLES implies #[trigger] self.lut@[i]
                        >= held by {
                        self.lemma_lut_rises(mid as int, i);
                    }
                }
                hi = mid;
            }
        }
        let k: usize = lo;
        assert(first_not_less(self.lut@, held as int, k as int));
        if k == 0 {
            return 0;
        }
        if k >= LUT_SAMPLES {
            return FULL;
        }
        let d_lo: i64 = self.lut[k - 1];
        let d_hi: i64 = self.lut[k];
        let t_lo: i64 = (k - 1) as i64 * 1_000_000_000 / 511;
        let t_hi: i64 = k as i64 * 1_000_000_000 / 511;
        proof {
            self.lemma_lut_rises(k - 1, k as int);
            lemma_in_proportion(
                held - d_lo,
                d_hi - d_lo,
                t_hi - t_lo,
            );
            assert(0 <= t_lo <= t_hi <= FULL);
        }
        let part: i128 = (held as i128 - d_lo as i128) * (t_hi - t_lo) as i128;
        let step: i128 = part / (d_hi as i128 - d_lo as i128);
        let t: i64 = t_lo + step as i64;
        assert(t == self.parameter(held as int, k as int));
        t
    }

    /// The state at parameter `t`: the direction is the derivative, or where the curve stands still
    /// the way to a point a little further on.
    pub open spec fn state_at(&self, t: int) -> PathState {
        let p = self.point(t);
        let s = self.slope(t);
        let q = self.point(smaller(t + LOOK_AHEAD, FULL as int));
        PathState {
            position: (p.0 as i64, p.1 as i64),
            direction: if s.0 == 0 && s.1 == 0 {
                (saturated(q.0 - p.0) as i64, saturated(q.1 - p.1) as i64)
            } else {
                (s.0 as i64, s.1 as i64)
            },
        }
    }

    /// The state at a distance along the curve.
    pub fn get_state(&self, d: i64) -> (r: PathState)
        requires
            self.wf(),
        ensures
            exists|t: int| #[trigger] self.parameter_at(d as int, t) && r == self.state_at(t),
    {
        let t: i64 = self.distance_to_t(d);
        let position: (i64, i64) = self.eval(t);
        let slope: (i64, i64) = self.tangent(t);
        let direction: (i64, i64) = if slope.0 == 0 && slope.1 == 0 {
            let ahead: i64 = if t + LOOK_AHEAD <= FULL {
                t + LOOK_AHEAD
            } else {
                FULL
            };
            let q: (i64, i64) = self.eval(ahead);
            (
                saturate(q.0 as i128 - position.0 as i128),
                saturate(q.1 as i128 - position.1 as i128),
            )
        } else {
            slope
        };
        assert(self.parameter_at(d as int, t as int));
        PathState { position, direction }
    }
}

proof fn lemma_in_proportion(x: int, w: int, s: int)
    requires
        0 < x <= w <= i64::MAX,
        0 <= s <= 1_000_000_000,
    ensures
        0 <= x * s <= i64::MAX * 1_000_000_000,
        0 <= x * s / w <= s,
{
    assert(0 <= x * s <= w * s && x * s <= 0x7fff_ffff_ffff_ffff * 1_000_000_000)
        by (nonlinear_arith)
        requires
            0 < x <= w <= 0x7fff_ffff_ffff_ffff,
            0 <= s <= 1_000_000_000,
    ;
    let p = x * s;
    assert(0 <= p / w <= s) by (nonlinear_arith)
        requires
            0 <= p <= w * s,
            w > 0,
    ;
}

proof fn lemma_length_rises(p0: (i64, i64), c: (i64, i64), p2: (i64, i64), i: int, j: int)
    requires
        0 <= i <= j,
    ensures
        0 <= length_to(p0, c, p2, i) <= length_to(p0, c, p2, j) <= i64::MAX,
    decreases j,
{
    if j > 0 {
        if i < j {
            lemma_length_rises(p0, c, p2, i, j - 1);
        } else {
            lemma_length_rises(p0, c, p2, j - 1, j - 1);
        }
        let a = point_on(p0, c, p2, sample_at(j - 1));
        let b = point_on(p0, c, p2, sample_at(j));
        lemma_span_not_negative(b.0, b.1, a.0, a.1);
    }
}

/// A car as it is drawn: its place and its heading in millionths of a radian.
#[derive(Clone, Copy, Debug)]
pub struct CarState {
    pub position: (i64, i64),
    pub rotation: i64,
}

/// A number `alpha` billionths of the way from `a` to `b`.
pub open spec fn mixed(a: int, b: int, alpha: int) -> int {
    saturated(a + (b - a) * alpha / (FULL as int))
}

/// The way from one angle to another by the shorter arc.
pub open spec fn turn_between(a: int, b: int) -> int {
    let d = b - a;
    let e = if d > HALF_TURN {
        d - FULL_TURN
    } else {
        d
    };
    if e < -HALF_TURN {
        e + FULL_TURN
    } else {
        e
    }
}

impl CarState {
    /// The state `alpha` billionths of the way from `a` to `b`; the heading turns by the shorter arc.
    pub open spec fn blend(a: CarState, b: CarState, alpha: int) -> CarState {
        CarState {
            position: (
                mixed(a.position.0 as int, b.position.0 as int, alpha) as i64,
                mixed(a.position.1 as int, b.position.1 as int, alpha) as i64,
            ),
            rotation: saturated(
                a.rotation + turn_between(a.rotation as int, b.rotation as int) * alpha / (
                FULL as int),
            ) as i64,
        }
    }

    /// The state `alpha` billionths of the way from `a` to `b`.
    pub fn lerp(a: &CarState, b: &CarState, alpha: i64) -> (r: CarState)
        requires
            0 <= alpha <= FULL,
        ensures
            r == CarState::blend(*a, *b, alpha as int),
    {
        let x: i64 = mix(a.position.0, b.position.0, alpha);
        let y: i64 = mix(a.position.1, b.position.1, alpha);
        let mut delta: i128 = b.rotation as i128 - a.rotation as i128;
        if delta > HALF_TURN as i128 {
            delta = delta - FULL_TURN as i128;
        }
        if delta < -HALF_TURN as i128 {
            delta = delta + FULL_TURN as i128;
        }
        proof {
            lemma_mix_fits(delta as int, alpha as int);
        }
        let turned: i128 = floor_div(delta * alpha as i128, 1_000_000_000);
        CarState { position: (x, y), rotation: saturate(a.rotation as i128 + turned) }
    }
}

proof fn lemma_mix_fits(d: int, alpha: int)
    requires
        -0x2_0000_0000_0000_0000 <= d <= 0x2_0000_0000_0000_0000,
        0 <= alpha <= 1_000_000_000,
    ensures
        -0x2_0000_0000_0000_0000 * 1_000_000_000 <= d * alpha <= 0x2_0000_0000_0000_0000
            * 1_000_000_000,
{
    assert(-0x2_0000_0000_0000_0000 * 1_000_000_000 <= d * alpha <= 0x2_0000_0000_0000_0000
        * 1_000_000_000) by (nonlinear_arith)
        requires
            -0x2_0000_0000_0000_0000 <= d <= 0x2_0000_0000_0000_0000,
            0 <= alpha <= 1_000_000_000,
    ;
}

fn mix(a: i64, b: i64, alpha: i64) -> (r: i64)
    requires
        0 <= alpha <= FULL,
    ensures
        r == mixed(a as int, b as int, alpha as int),
{
    let d: i128 = b as i128 - a as i128;
    proof {
        lemma_mix_fits(d as int, alpha as int);
    }
    saturate(a as i128 + floor_div(d * alpha as i128, 1_000_000_000))
}

/// A car that drives round and round a curve at a constant speed.
pub struct Simulation {
    pub path: BezierPath,
    /// How far along the curve the car is.
    pub distance: i64,
    pub speed: i64,
    /// The car before the last step.
    pub previous_state: CarState,
    /// The car after the last step.
    pub current_state: CarState,
}

/// What remains of `x` after whole rounds of length `n`, with the sign of `x`.
pub open spec fn round_rest(x: int, n: int) -> int {
    if x >= 0 {
        x % n
    } else {
        -((-x) % n)
    }
}

impl Simulation {
    /// The distance along the curve after a step.
    pub open spec fn next_distance(&self) -> int {
        round_rest(
            saturated(self.distance + self.speed * PHYSICS_DT / 1_000_000),
            self.path.total_length as int,
        )
    }

    /// A car at the start of a curve, with the heading of the curve there.
    pub fn new(path: BezierPath, speed: i64, rotation: i64) -> (r: Simulation)
        requires
            path.wf(),
        ensures
            r.path == path,
            r.distance == 0,
            r.speed == speed,
            r.previous_state == r.current_state,
            r.current_state.rotation == rotation,
            exists|t: int| #[trigger]
                path.parameter_at(0, t) && r.current_state.position == path.state_at(t).position,
    {
        let start: PathState = path.get_state(0);
        let state = CarState { position: start.position, rotation };
        Simulation { path, distance: 0, speed, previous_state: state, current_state: state }
    }

    /// Where the next step leads.
    pub fn upcoming(&self) -> (r: PathState)
        requires
            self.path.wf(),
            self.path.total_length > 0,
        ensures
            exists|t: int| #[trigger]
                self.path.parameter_at(self.next_distance(), t) && r == self.path.state_at(t),
    {
        let d: i64 = self.find_next();
        self.path.get_state(d)
    }

    fn find_next(&self) -> (r: i64)
        requires
            self.path.total_length > 0,
        ensures
            r == self.next_distance(),
    {
        self.next_from(self.distance)
    }

    /// The distance along the curve one step after another distance.
    fn next_from(&self, distance: i64) -> (r: i64)
        requires
            self.path.total_length > 0,
        ensures
            r == round_rest(
                saturated(distance + self.speed * PHYSICS_DT / 1_000_000),
                self.path.total_length as int,
            ),
    {
        let way: i128 = floor_div(self.speed as i128 * PHYSICS_DT as i128, 1_000_000);
        let x: i64 = saturate(distance as i128 + way);
        let n: i128 = self.path.total_length as i128;
        if x >= 0 {
            (x as i128 % n) as i64
        } else {
            let rest: i128 = (-(x as i128)) % n;
            -(rest as i64)
        }
    }

    /// Moves the car on by one step, to the heading of the curve where the step leads. The car
    /// drives round the curve without end.
    pub fn step(&mut self, rotation: i64)
        requires
            old(self).path.wf(),
            old(self).path.total_length > 0,
        ensures
            final(self).path == old(self).path,
            final(self).speed == old(self).speed,
            final(self).distance == old(self).next_distance(),
            final(self).previous_state == old(self).current_state,
            final(self).current_state.rotation == rotation,
            exists|t: int| #[trigger]
                old(self).path.parameter_at(old(self).next_distance(), t)
                    && final(self).current_state.position == old(self).path.state_at(t).position,
    {
        self.previous_state = self.current_state;
        let d: i64 = self.find_next();
        let state: PathState = self.path.get_state(d);
        self.distance = d;
        self.current_state = CarState { position: state.position, rotation };
    }

    /// The distance along the curve after `n` steps.
    pub open spec fn distance_after(&self, n: nat) -> int
        decreases n,
    {
        if n == 0 {
            self.distance as int
        } else {
            round_rest(
                saturated(
                    self.distance_after((n - 1) as nat) + self.speed * PHYSICS_DT / 1_000_000,
                ),
                self.path.total_length as int,
            )
        }
    }

    /// Whether the curve leads to a place at a distance.
    pub open spec fn leads_to(&self, d: int, state: PathState) -> bool {
        exists|t: int| #[trigger] self.path.parameter_at(d, t) && state == self.path.state_at(t)
    }

    /// Whether a car is where the curve leads at a distance, with a heading.
    pub open spec fn is_at(&self, d: int, rotation: i64, state: CarState) -> bool {
        &&& state.rotation == rotation
        &&& exists|t: int| #[trigger]
            self.path.parameter_at(d, t) && state.position == self.path.state_at(t).position
    }

    /// How many steps are due after some time: no more than a quarter of a second is made up for at
    /// once.
    pub open spec fn due(real_elapsed: int, accumulator: int) -> int {
        let all = accumulator + smaller(real_elapsed, MAX_ELAPSED as int);
        if all < 0 {
            0
        } else {
            all / (PHYSICS_DT as int)
        }
    }

    /// The time that is left over after the steps that are due.
    pub open spec fn left_over(real_elapsed: int, accumulator: int) -> int {
        let all = accumulator + smaller(real_elapsed, MAX_ELAPSED as int);
        if all < 0 {
            saturated(all)
        } else {
            all % (PHYSICS_DT as int)
        }
    }

    /// How many steps are due after some time, and the time that is left over.
    pub fn steps_due(real_elapsed: i64, accumulator: i64) -> (r: (u64, i64))
        ensures
            r.0 == Self::due(real_elapsed as int, accumulator as int),
            r.1 == Self::left_over(real_elapsed as int, accumulator as int),
            r.1 < PHYSICS_DT,
            real_elapsed >= 0 && accumulator >= 0 ==> 0 <= r.1,
    {
        let capped: i64 = if real_elapsed <= MAX_ELAPSED {
            real_elapsed
        } else {
            MAX_ELAPSED
        };
        let all: i128 = accumulator as i128 + capped as i128;
        if all < 0 {
            return (0, saturate(all));
        }
        ((all / PHYSICS_DT as i128) as u64, (all % PHYSICS_DT as i128) as i64)
    }

    /// Where each of the steps leads that are due after some time.
    pub fn states_due(&self, real_elapsed: i64, accumulator: i64) -> (r: Vec<PathState>)
        requires
            self.path.wf(),
            self.path.total_length > 0,
        ensures
            r@.len() == Self::due(real_elapsed as int, accumulator as int),
            forall|i: int|
                0 <= i < r@.len() ==> self.leads_to(
                    self.distance_after((i + 1) as nat),
                    #[trigger] r@[i],
                ),
    {
        let (steps, _): (u64, i64) = Self::steps_due(real_elapsed, accumulator);
        let mut out: Vec<PathState> = Vec::new();
        let mut d: i64 = self.distance;
        let mut i: u64 = 0;
        while i < steps
            invariant
                i <= steps,
                self.path.wf(),
                self.path.total_length > 0,
                d == self.distance_after(i as nat),
                out@.len() == i,
                forall|k: int|
                    0 <= k < i ==> self.leads_to(
                        self.distance_after((k + 1) as nat),
                        #[trigger] out@[k],
                    ),
            decreases steps - i,
        {
            d = self.next_from(d);
            let state: PathState = self.path.get_state(d);
            assert(d == self.distance_after((i + 1) as nat));
            assert(self.leads_to(d as int, state));
            out.push(state);
            i = i + 1;
        }
        out
    }

    /// Moves the car on by the steps that are due after some time, each to a given heading, and tells
    /// the time that is left over.
    pub fn tick(&mut self, real_elapsed: i64, accumulator: i64, rotations: &Vec<i64>) -> (r: i64)
        requires
            old(self).path.wf(),
            old(self).path.total_length > 0,
            rotations@.len() >= Self::due(real_elapsed as int, accumulator as int),
        ensures
            r == Self::left_over(real_elapsed as int, accumulator as int),
            r < PHYSICS_DT,
            real_elapsed >= 0 && accumulator >= 0 ==> 0 <= r,
            final(self).path == old(self).path,
            final(self).speed == old(self).speed,
            ({
                let n = Self::due(real_elapsed as int, accumulator as int);
                &&& final(self).distance == old(self).distance_after(n as nat)
                &&& n == 0 ==> *final(self) == *old(self)
                &&& n >= 1 ==> old(self).is_at(
                    old(self).distance_after(n as nat),
                    rotations@[n - 1],
                    final(self).current_state,
                )
                &&& n == 1 ==> final(self).previous_state == old(self).current_state
                &&& n >= 2 ==> old(self).is_at(
                    old(self).distance_after((n - 1) as nat),
                    rotations@[n - 2],
                    final(self).previous_state,
                )
            }),
    {
        let (steps, residual): (u64, i64) = Self::steps_due(real_elapsed, accumulator);
        let mut i: u64 = 0;
        while i < steps
            invariant
                i <= steps,
                steps <= rotations@.len(),
                old(self).path.wf(),
                old(self).path.total_length > 0,
                self.path == old(self).path,
                self.speed == old(self).speed,
                self.distance == old(self).distance_after(i as nat),
                i == 0 ==> *self == *old(self),
                i >= 1 ==> old(self).is_at(
                    old(self).distance_after(i as nat),
                    rotations@[i - 1],
                    self.current_state,
                ),
                i == 1 ==> self.previous_state == old(self).current_state,
                i >= 2 ==> old(self).is_at(
                    old(self).distance_after((i - 1) as nat),
                    rotations@[i - 2],
                    self.previous_state,
                ),
            decreases steps - i,
        {
            assert(rotations.len() == rotations@.len());
            let ghost before = *self;
            self.step(rotations[i as usize]);
            assert(before.next_distance() == old(self).distance_after((i + 1) as nat));
            i = i + 1;
        }
        residual
    }

    /// The car as it is drawn when some time has passed since the last step: between the last two
    /// steps.
    pub fn render_state(&self, residual: i64) -> (r: CarState)
        ensures
            r == CarState::blend(
                self.previous_state,
                self.current_state,
                between(residual * FULL / (PHYSICS_DT as int), 0, FULL as int),
            ),
    {
        let part: i128 = floor_div(residual as i128 * 1_000_000_000, PHYSICS_DT as i128);
        let alpha: i64 = if part < 0 {
            0
        } else if part > 1_000_000_000 {
            FULL
        } else {
            part as i64
        };
        CarState::lerp(&self.previous_state, &self.current_state, alpha)
    }
}

/// The compass heading of a rotation: from north instead of from east, and turning right.
pub open spec fn compass(rotation: int) -> int {
    let raw = QUARTER_TURN - rotation;
    if raw > HALF_TURN {
        raw - FULL_TURN
    } else {
        raw
    }
}

/// A car on the globe: its latitude and longitude and its compass heading.
pub fn bezier_state_to_geo(state: &CarState) -> (r: (i64, i64, i64))
    ensures
        (r.0 as int, r.1 as int) == globe(state.position.0 as int, state.position.1 as int),
        r.2 == saturated(compass(state.rotation as int)),
{
    let (lat, lng): (i64, i64) = from_plane(state.position.0 as i128, state.position.1 as i128);
    let raw: i128 = QUARTER_TURN as i128 - state.rotation as i128;
    let angle: i128 = if raw > HALF_TURN as i128 {
        raw - FULL_TURN as i128
    } else {
        raw
    };
    (lat, lng, saturate(angle))
}

/// The table of a curve starts at nothing, never falls and ends at the length of the curve.
pub proof fn law_lut(path: BezierPath, i: int, j: int)
    requires
        path.wf(),
        0 <= i <= j < LUT_SAMPLES,
    ensures
        path.lut@[0] == 0,
        path.lut@[i] <= path.lut@[j],
        path.lut@[511] == path.total_length,
{
    path.lemma_lut_rises(i, j);
}

/// A curve starts at its first point and ends at its last.
pub proof fn law_ends_of_curve(path: BezierPath)
    ensures
        path.point(0) == (path.p0.0 as int, path.p0.1 as int),
        path.point(FULL as int) == (path.p2.0 as int, path.p2.1 as int),
{
    lemma_curve_ends(path.p0.0 as int, path.ctrl.0 as int, path.p2.0 as int);
    lemma_curve_ends(path.p0.1 as int, path.ctrl.1 as int, path.p2.1 as int);
}

proof fn lemma_curve_ends(p: int, c: int, q: int)
    ensures
        curve_at(p, c, q, 0) == p,
        curve_at(p, c, q, FULL as int) == q,
{
    let f = FULL as int;
    assert((f - 0) * (f - 0) * p + 2 * ((f - 0) * 0) * c + 0 * 0 * q == f * f * p)
        by (nonlinear_arith);
    assert((f - f) * (f - f) * p + 2 * ((f - f) * f) * c + f * f * q == f * f * q)
        by (nonlinear_arith);
    assert(f * f * p / (f * f) == p) by (nonlinear_arith)
        requires
            f == 1_000_000_000,
    ;
    assert(f * f * q / (f * f) == q) by (nonlinear_arith)
        requires
            f == 1_000_000_000,
    ;
}

/// What is drawn at the ends of a step is the car before and after it.
pub proof fn law_blend_ends(a: CarState, b: CarState)
    ensures
        CarState::blend(a, b, 0) == a,
        CarState::blend(a, b, FULL as int).position == b.position,
{
    lemma_mixed_ends(a.position.0 as int, b.position.0 as int);
    lemma_mixed_ends(a.position.1 as int, b.position.1 as int);
    let d = turn_between(a.rotation as int, b.rotation as int);
    assert(d * 0 / (FULL as int) == 0);
}

proof fn lemma_mixed_ends(a: int, b: int)
    requires
        i64::MIN <= a <= i64::MAX,
        i64::MIN <= b <= i64::MAX,
    ensures
        mixed(a, b, 0) == a,
        mixed(a, b, FULL as int) == b,
{
    let d = b - a;
    let f = FULL as int;
    assert(d * f / f == d) by (nonlinear_arith)
        requires
            f == 1_000_000_000,
    ;
    assert(d * 0 / f == 0);
}

/// Between two headings within one turn of each other the car turns by the shorter arc: by half a
/// turn at most.
pub proof fn law_shorter_arc(a: int, b: int)
    requires
        -HALF_TURN <= a <= HALF_TURN,
        -HALF_TURN <= b <= HALF_TURN,
    ensures
        -HALF_TURN <= turn_between(a, b) <= HALF_TURN,
        turn_between(a, b) == b - a || turn_between(a, b) == b - a - FULL_TURN || turn_between(
            a,
            b,
        ) == b - a + FULL_TURN,
{
}

/// A curve stays in the range that its three points span.
pub proof fn law_curve_stays_in_range(p: int, c: int, q: int, t: int, lo: int, hi: int)
    requires
        0 <= t <= FULL,
        lo <= p <= hi,
        lo <= c <= hi,
        lo <= q <= hi,
    ensures
        lo <= curve_at(p, c, q, t) <= hi,
{
    let f: int = FULL as int;
    let u = f - t;
    let (x, y, z) = (u * u, 2 * (u * t), t * t);
    assert(x >= 0 && y >= 0 && z >= 0 && x + y + z == f * f) by (nonlinear_arith)
        requires
            u + t == f,
            u >= 0,
            t >= 0,
            x == u * u,
            y == 2 * (u * t),
            z == t * t,
    ;
    let n = x * p + y * c + z * q;
    let g = f * f;
    assert(g * lo <= n <= g * hi) by (nonlinear_arith)
        requires
            x >= 0,
            y >= 0,
            z >= 0,
            x + y + z == g,
            n == x * p + y * c + z * q,
            lo <= p <= hi,
            lo <= c <= hi,
            lo <= q <= hi,
    ;
    assert(g == 1_000_000_000_000_000_000);
    assert(lo <= n / g <= hi) by (nonlinear_arith)
        requires
            g > 0,
            g * lo <= n <= g * hi,
    ;
}

/// The place between two states lies between their places, and the earlier the nearer to the first.
pub proof fn law_mixed_lies_between(a: i64, b: i64, alpha: int, beta: int)
    requires
        0 <= alpha <= beta <= FULL,
    ensures
        a <= b ==> a <= mixed(a as int, b as int, alpha) <= mixed(a as int, b as int, beta) <= b,
        b <= a ==> b <= mixed(a as int, b as int, beta) <= mixed(a as int, b as int, alpha) <= a,
{
    let f: int = FULL as int;
    let d = b - a;
    crate::map::polyline::lemma_within_step(a as int, b as int, alpha);
    crate::map::polyline::lemma_within_step(a as int, b as int, beta);
    let (m, n) = (d * alpha, d * beta);
    if d >= 0 {
        assert(m <= n) by (nonlinear_arith)
            requires
                d >= 0,
                alpha <= beta,
                m == d * alpha,
                n == d * beta,
        ;
    } else {
        assert(n <= m) by (nonlinear_arith)
            requires
                d < 0,
                alpha <= beta,
                m == d * alpha,
                n == d * beta,
        ;
    }
}

/// No time is lost: the steps that are due and what is left over make up the time that has passed, of
/// which at most a quarter of a second counts.
pub proof fn law_no_time_is_lost(real_elapsed: int, accumulator: int)
    requires
        0 <= real_elapsed,
        0 <= accumulator,
    ensures
        Simulation::due(real_elapsed, accumulator) * PHYSICS_DT + Simulation::left_over(
            real_elapsed,
            accumulator,
        ) == accumulator + smaller(real_elapsed, 250_000),
        0 <= Simulation::left_over(real_elapsed, accumulator) < PHYSICS_DT,
{
}

/// A car that leaves the end of its curve goes on from the start by as much as it went too far.
pub proof fn law_rounds(x: int, n: int)
    requires
        0 <= x,
        0 < n,
    ensures
        0 <= round_rest(x, n) < n,
        x < n ==> round_rest(x, n) == x,
        n <= x < 2 * n ==> round_rest(x, n) == x - n,
        round_rest(x + n, n) == round_rest(x, n),
{
    assert(x % n == x || x >= n) by (nonlinear_arith)
        requires
            0 <= x,
            0 < n,
    ;
    vstd::arithmetic::div_mod::lemma_mod_add_multiples_vanish(x, n);
    if n <= x < 2 * n {
        vstd::arithmetic::div_mod::lemma_mod_add_multiples_vanish(x - n, n);
        vstd::arithmetic::div_mod::lemma_small_mod((x - n) as nat, n as nat);
    }
    if x < n {
        vstd::arithmetic::div_mod::lemma_small_mod(x as nat, n as nat);
    }
    vstd::arithmetic::div_mod::lemma_mod_bound(x, n);
}

/// A compass heading turns the other way round and starts in the north.
pub proof fn law_compass(rotation: int)
    requires
        -HALF_TURN <= rotation <= HALF_TURN,
    ensures
        compass(QUARTER_TURN as int) == 0,
        compass(0) == QUARTER_TURN,
        -HALF_TURN <= compass(rotation) <= HALF_TURN,
        compass(rotation) == QUARTER_TURN - rotation || compass(rotation) == QUARTER_TURN - rotation
            - FULL_TURN,
{
}

/// A place on a curve that lies a distance along it is found between the two samples that lie around
/// that distance.
pub proof fn law_place_at_distance(path: BezierPath, d: int, t: int)
    requires
        path.wf(),
        path.parameter_at(d, t),
    ensures
        d <= 0 ==> t == 0,
        0 < d <= path.total_length ==> exists|k: int|
            0 < k < LUT_SAMPLES && path.lut@[k - 1] < d <= #[trigger] path.lut@[k] && sample_at(
                k - 1,
            ) <= t <= sample_at(k),
{
    law_lut(path, 0, 511);
    let held = between(d, 0, path.total_length as int);
    let k = choose|k: int| #[trigger]
        first_not_less(path.lut@, held, k) && t == path.parameter(held, k);
    assert(path.lut@[0] == 0);
    if d <= 0 {
        if k > 0 {
            assert(path.lut@[0] < held);
        }
    } else if d <= path.total_length {
        assert(k > 0);
        if k >= LUT_SAMPLES {
            assert(path.lut@[511] < held);
        }
        assert(path.lut@[k - 1] < d);
        let lo = path.lut@[k - 1] as int;
        let hi = path.lut@[k] as int;
        let w = sample_at(k) - sample_at(k - 1);
        assert(w >= 0);
        let (x, s) = (d - lo, hi - lo);
        let n = x * w;
        assert(0 <= n <= s * w) by (nonlinear_arith)
            requires
                0 <= x <= s,
                0 <= w,
                n == x * w,
        ;
        assert(0 <= n / s <= w) by (nonlinear_arith)
            requires
                s > 0,
                0 <= n <= s * w,
        ;
    }
}

} // verus!
