//! The car-following model: how a driver speeds up and brakes behind a leader.

use vstd::prelude::*;

use crate::units::{floor_div, is_root, larger, root, saturate, saturated, square_root, FULL};
use crate::vehicles::driver::DriverParams;
use crate::vehicles::types::VehicleTypeParams;

verus! {

/// The smallest gap that the model reckons with: a tenth of a metre.
pub const LEAST_GAP: i64 = 100_000;

/// `x` as a multiple of `y`, in billionths.
pub open spec fn ratio(x: int, y: int) -> int {
    x * FULL / y
}

/// The square of a ratio, in billionths.
pub open spec fn squared(r: int) -> int {
    r * r / (FULL as int)
}

/// The gap that a driver wants at speed `v` when a leader comes closer by `delta_v`: the least gap,
/// the way of the time headway, and `v * delta_v / (2 * sqrt(a * b))`.
pub open spec fn wanted_gap(v: int, delta_v: int, p: DriverParams) -> int {
    saturated(
        p.min_gap + v * p.time_headway / 1_000_000 + v * delta_v / (2 * root(
            p.comfort_accel * p.comfort_decel,
        )),
    )
}

/// The acceleration before the limits of the vehicle: the comfortable one times
/// `1 - (v / v0)^4 - (wanted gap / gap)^2`.
pub open spec fn free_acceleration(v: int, v0: int, s: int, delta_v: int, p: DriverParams) -> int {
    let r = if v0 > 0 {
        ratio(v, v0)
    } else {
        0
    };
    let q = ratio(wanted_gap(v, delta_v, p), larger(s, LEAST_GAP as int));
    p.comfort_accel * (FULL - squared(squared(r)) - squared(q)) / (FULL as int)
}

/// An acceleration within the limits of a vehicle: no harder braking than it can, and no more
/// acceleration than it has.
pub open spec fn held_for(a: int, t: VehicleTypeParams) -> int {
    let held = if a < -t.max_decel {
        -t.max_decel
    } else {
        a
    };
    if held > t.max_accel {
        t.max_accel as int
    } else {
        held
    }
}

/// Whether the comfortable acceleration and braking have a mean: neither is nothing, and both have
/// one sign.
pub open spec fn has_mean(p: DriverParams) -> bool {
    p.comfort_accel * p.comfort_decel > 0
}

/// Whether the wanted gap is without bound for a driver who only ever slows down: the model then asks
/// for more than any acceleration.
pub open spec fn runs_away(v: int, delta_v: int, p: DriverParams) -> bool {
    p.comfort_accel < 0 && p.comfort_decel == 0 && v * delta_v != 0
}

/// The acceleration that the model asks for, within the limits of the vehicle. Where the comfortable
/// values have no mean there is no wanted gap, and the vehicle brakes as hard as it can unless the
/// model runs away.
pub open spec fn model_acceleration(
    v: int,
    v0: int,
    s: int,
    delta_v: int,
    p: DriverParams,
    t: VehicleTypeParams,
) -> int {
    if has_mean(p) {
        held_for(free_acceleration(v, v0, s, delta_v, p), t)
    } else if runs_away(v, delta_v, p) {
        t.max_accel as int
    } else {
        held_for(-t.max_decel, t)
    }
}

fn ratio_of(x: i64, y: i64) -> (r: i128)
    requires
        y > 0,
    ensures
        r == ratio(x as int, y as int),
{
    floor_div(x as i128 * 1_000_000_000, y as i128)
}

/// The largest number whose square is worked out.
const SQUARED_UP_TO: i128 = 10_000_000_000_000_000_000;

/// The square of a larger number is beyond every limit of a vehicle.
proof fn lemma_square_beyond(r: int)
    requires
        r < -SQUARED_UP_TO || r > SQUARED_UP_TO,
    ensures
        squared(r) >= 100_000_000_000_000_000_000_000_000_000,
{
    assert(r * r >= 100_000_000_000_000_000_000_000_000_000_000_000_000) by (nonlinear_arith)
        requires
            r <= -10_000_000_000_000_000_000 || r >= 10_000_000_000_000_000_000,
    ;
}

/// The square of a ratio; none where it is beyond every limit of a vehicle.
fn square_of(r: i128) -> (q: Option<i128>)
    ensures
        match q {
            Some(x) => x == squared(r as int) && 0 <= x
                <= 100_000_000_000_000_000_000_000_000_000,
            None => squared(r as int) >= 100_000_000_000_000_000_000_000_000_000,
        },
{
    if r < -SQUARED_UP_TO || r > SQUARED_UP_TO {
        proof {
            lemma_square_beyond(r as int);
        }
        return None;
    }
    proof {
        let x = r as int;
        assert(0 <= x * x <= 100_000_000_000_000_000_000_000_000_000_000_000_000)
            by (nonlinear_arith)
            requires
                -10_000_000_000_000_000_000 <= x <= 10_000_000_000_000_000_000,
        ;
    }
    Some(r * r / 1_000_000_000)
}

/// What is left of the comfortable acceleration, in billionths.
spec fn part_left(r: int, q: int) -> int {
    FULL - squared(squared(r)) - squared(q)
}

/// The least part that is told apart from smaller ones: below it a vehicle brakes as hard as any can.
const LEAST_PART: i128 = -10_000_000_000_000_000_000_000_000_000;

/// What is left of the comfortable acceleration; none below the least part.
fn find_part_left(r: i128, q: i128) -> (l: Option<i128>)
    ensures
        match l {
            Some(x) => x == part_left(r as int, q as int) && LEAST_PART < x <= 1_000_000_000,
            None => part_left(r as int, q as int) <= LEAST_PART,
        },
{
    proof {
        let two = squared(r as int);
        assert(two * two >= 0) by (nonlinear_arith);
        assert(q as int * q as int >= 0) by (nonlinear_arith);
        if two > SQUARED_UP_TO {
            lemma_square_beyond(two);
        }
    }
    let second: i128 = match square_of(q) {
        Some(x) => x,
        None => {
            return None;
        },
    };
    let two: i128 = match square_of(r) {
        Some(x) => x,
        None => {
            return None;
        },
    };
    match square_of(two) {
        Some(fourth) => {
            let left: i128 = 1_000_000_000 - fourth - second;
            if left <= LEAST_PART {
                None
            } else {
                Some(left)
            }
        },
        None => None,
    }
}

/// A part of an acceleration, in billionths.
fn part_of(a: i64, left: i128) -> (r: i128)
    requires
        LEAST_PART < left <= 1_000_000_000,
    ensures
        r == a * left / (FULL as int),
{
    let whole: i128 = floor_div(left, 1_000_000_000);
    let rest: i128 = left - whole * 1_000_000_000;
    proof {
        let (ai, w, f) = (a as int, whole as int, rest as int);
        assert(-10_000_000_000_000_000_001 <= w <= 1);
        assert(-100_000_000_000_000_000_000_000_000_000_000_000_000 <= ai * w
            <= 100_000_000_000_000_000_000_000_000_000_000_000_000) by (nonlinear_arith)
            requires
                -0x8000_0000_0000_0000 <= ai <= 0x7fff_ffff_ffff_ffff,
                -10_000_000_000_000_000_001 <= w <= 1,
        ;
        assert(-10_000_000_000_000_000_000_000_000_000 <= ai * f
            <= 10_000_000_000_000_000_000_000_000_000) by (nonlinear_arith)
            requires
                -0x8000_0000_0000_0000 <= ai <= 0x7fff_ffff_ffff_ffff,
                0 <= f < 1_000_000_000,
        ;
        assert(ai * left as int == ai * f + (ai * w) * 1_000_000_000) by (nonlinear_arith)
            requires
                left as int == f + w * 1_000_000_000,
        ;
    }
    a as i128 * whole + floor_div(a as i128 * rest, 1_000_000_000)
}

proof fn lemma_factors_fit(a: int, b: int)
    requires
        i64::MIN <= a <= i64::MAX,
        i64::MIN <= b <= i64::MAX,
    ensures
        -0x4000_0000_0000_0000_0000_0000_0000_0000 <= a * b
            <= 0x4000_0000_0000_0000_0000_0000_0000_0000,
{
    assert(-0x4000_0000_0000_0000_0000_0000_0000_0000 <= a * b
        <= 0x4000_0000_0000_0000_0000_0000_0000_0000) by (nonlinear_arith)
        requires
            -0x8000_0000_0000_0000 <= a <= 0x7fff_ffff_ffff_ffff,
            -0x8000_0000_0000_0000 <= b <= 0x7fff_ffff_ffff_ffff,
    ;
}

fn find_wanted_gap(v: i64, delta_v: i64, p: &DriverParams) -> (r: i64)
    requires
        has_mean(*p),
    ensures
        r == wanted_gap(v as int, delta_v as int, *p),
{
    proof {
        lemma_factors_fit(p.comfort_accel as int, p.comfort_decel as int);
        lemma_factors_fit(v as int, delta_v as int);
        lemma_factors_fit(v as int, p.time_headway as int);
    }
    let product: i128 = p.comfort_accel as i128 * p.comfort_decel as i128;
    let root: u64 = square_root(product as u128);
    assert(root >= 1) by {
        if root == 0 {
            assert(is_root(product as int, 0));
        }
    }
    let way: i128 = floor_div(v as i128 * p.time_headway as i128, 1_000_000);
    let d: i128 = 2 * root as i128;
    let top: i128 = v as i128 * delta_v as i128;
    let closing: i128 = floor_div(top, d);
    proof {
        let t = top as int;
        let k = d as int;
        let c = closing as int;
        assert(-0x4000_0000_0000_0000_0000_0000_0000_0000 <= c
            <= 0x4000_0000_0000_0000_0000_0000_0000_0000) by (nonlinear_arith)
            requires
                c == t / k,
                k >= 1,
                -0x4000_0000_0000_0000_0000_0000_0000_0000 <= t
                    <= 0x4000_0000_0000_0000_0000_0000_0000_0000,
        ;
    }
    saturate(p.min_gap as i128 + way + closing)
}

/// The acceleration of a vehicle at speed `v` that wants to go at `v0`, behind a leader at gap `s`
/// that it comes closer to by `delta_v`. A gap too small, or none, counts as a tenth of a metre.
pub fn idm_acceleration(
    v: i64,
    v0: i64,
    s: i64,
    delta_v: i64,
    params: &DriverParams,
    vtype: &VehicleTypeParams,
) -> (r: i64)
    ensures
        r == model_acceleration(v as int, v0 as int, s as int, delta_v as int, *params, *vtype),
        -vtype.max_decel <= vtype.max_accel ==> -vtype.max_decel <= r <= vtype.max_accel,
        s <= LEAST_GAP ==> r == model_acceleration(
            v as int,
            v0 as int,
            LEAST_GAP as int,
            delta_v as int,
            *params,
            *vtype,
        ),
{
    proof {
        lemma_factors_fit(params.comfort_accel as int, params.comfort_decel as int);
        lemma_no_mean(*params);
        let (x, y) = (v as int, delta_v as int);
        assert(x * y != 0 <==> x != 0 && y != 0) by (nonlinear_arith);
    }
    let least: i128 = -(vtype.max_decel as i128);
    if params.comfort_accel as i128 * params.comfort_decel as i128 <= 0 {
        if params.comfort_accel < 0 && params.comfort_decel == 0 && v != 0 && delta_v != 0 {
            return vtype.max_accel;
        }
        return hold(least, vtype);
    }
    let r: i128 = if v0 > 0 {
        ratio_of(v, v0)
    } else {
        0
    };
    let s_clamped: i64 = if s > LEAST_GAP {
        s
    } else {
        LEAST_GAP
    };
    let q: i128 = ratio_of(find_wanted_gap(v, delta_v, params), s_clamped);
    match find_part_left(r, q) {
        Some(left) => hold(part_of(params.comfort_accel, left), vtype),
        None => {
            proof {
                let (a, l) = (params.comfort_accel as int, part_left(r as int, q as int));
                if a > 0 {
                    assert(a * l <= LEAST_PART) by (nonlinear_arith)
                        requires
                            a >= 1,
                            l <= LEAST_PART,
                            LEAST_PART < 0,
                    ;
                } else {
                    assert(a * l >= -LEAST_PART) by (nonlinear_arith)
                        requires
                            a <= -1,
                            l <= LEAST_PART,
                            LEAST_PART < 0,
                    ;
                }
            }
            if params.comfort_accel > 0 {
                hold(least, vtype)
            } else {
                vtype.max_accel
            }
        },
    }
}

/// An acceleration within the limits of a vehicle.
fn hold(a: i128, vtype: &VehicleTypeParams) -> (r: i64)
    ensures
        r == held_for(a as int, *vtype),
{
    let least: i128 = -(vtype.max_decel as i128);
    let held: i128 = if a < least {
        least
    } else {
        a
    };
    if held > vtype.max_accel as i128 {
        vtype.max_accel
    } else {
        held as i64
    }
}

/// Comfortable values without a mean: one is nothing or they differ in sign.
proof fn lemma_no_mean(p: DriverParams)
    ensures
        has_mean(p) ==> p.comfort_accel != 0 && p.comfort_decel != 0,
{
    let (a, b) = (p.comfort_accel as int, p.comfort_decel as int);
    assert(a == 0 || b == 0 ==> a * b == 0) by (nonlinear_arith);
}

/// Every gap of a tenth of a metre or less, or none at all, counts as a tenth of a metre.
pub proof fn law_small_gaps_alike(
    v: int,
    v0: int,
    s: int,
    delta_v: int,
    p: DriverParams,
    t: VehicleTypeParams,
)
    requires
        s <= LEAST_GAP,
    ensures
        model_acceleration(v, v0, s, delta_v, p, t) == model_acceleration(
            v,
            v0,
            LEAST_GAP as int,
            delta_v,
            p,
            t,
        ),
{
}

/// The model never brakes harder than the vehicle can, and never asks for more acceleration than
/// it has.
pub proof fn law_acceleration_is_held(
    v: int,
    v0: int,
    s: int,
    delta_v: int,
    p: DriverParams,
    t: VehicleTypeParams,
)
    requires
        -t.max_decel <= t.max_accel,
    ensures
        -t.max_decel <= model_acceleration(v, v0, s, delta_v, p, t) <= t.max_accel,
{
}

/// A driver who is not slower than wanted does not speed up.
pub proof fn law_no_gain_above_wanted(
    v: int,
    v0: int,
    s: int,
    delta_v: int,
    p: DriverParams,
    t: VehicleTypeParams,
)
    requires
        0 < v0 <= v,
        p.comfort_accel > 0,
        0 <= t.max_decel,
        0 <= t.max_accel,
    ensures
        model_acceleration(v, v0, s, delta_v, p, t) <= 0,
{
    let r = ratio(v, v0);
    assert(v * FULL / v0 >= FULL) by (nonlinear_arith)
        requires
            0 < v0 <= v,
            FULL == 1_000_000_000,
    ;
    let two = squared(r);
    assert(r * r >= 1_000_000_000_000_000_000) by (nonlinear_arith)
        requires
            r >= 1_000_000_000,
    ;
    assert(two * two >= 1_000_000_000_000_000_000) by (nonlinear_arith)
        requires
            two >= 1_000_000_000,
    ;
    let q = ratio(wanted_gap(v, delta_v, p), larger(s, LEAST_GAP as int));
    assert(q * q >= 0) by (nonlinear_arith);
    let left = FULL - squared(squared(r)) - squared(q);
    assert(left <= 0);
    let a = p.comfort_accel as int;
    assert(a * left <= 0) by (nonlinear_arith)
        requires
            a > 0,
            left <= 0,
    ;
}

/// A driver at a gap no wider than wanted does not speed up.
pub proof fn law_no_gain_too_close(
    v: int,
    v0: int,
    s: int,
    delta_v: int,
    p: DriverParams,
    t: VehicleTypeParams,
)
    requires
        larger(s, LEAST_GAP as int) <= wanted_gap(v, delta_v, p),
        p.comfort_accel > 0,
        0 <= t.max_decel,
        0 <= t.max_accel,
    ensures
        model_acceleration(v, v0, s, delta_v, p, t) <= 0,
{
    let g = larger(s, LEAST_GAP as int);
    let w = wanted_gap(v, delta_v, p);
    let q = ratio(w, g);
    assert(w * FULL / g >= FULL) by (nonlinear_arith)
        requires
            0 < g <= w,
            FULL == 1_000_000_000,
    ;
    assert(q * q >= 1_000_000_000_000_000_000) by (nonlinear_arith)
        requires
            q >= 1_000_000_000,
    ;
    let r = if v0 > 0 {
        ratio(v, v0)
    } else {
        0
    };
    let two = squared(r);
    assert(two * two >= 0) by (nonlinear_arith);
    let left = FULL - squared(squared(r)) - squared(q);
    assert(left <= 0);
    let a = p.comfort_accel as int;
    assert(a * left <= 0) by (nonlinear_arith)
        requires
            a > 0,
            left <= 0,
    ;
}

proof fn lemma_square_grows(a: int, b: int)
    requires
        0 <= a <= b,
    ensures
        0 <= squared(a) <= squared(b),
{
    assert(0 <= a * a <= b * b) by (nonlinear_arith)
        requires
            0 <= a <= b,
    ;
}

/// With more room to the leader a driver never brakes harder, as long as some gap is wanted.
pub proof fn law_more_room_no_harder_braking(
    v: int,
    v0: int,
    near: int,
    far: int,
    delta_v: int,
    p: DriverParams,
    t: VehicleTypeParams,
)
    requires
        near <= far,
        p.comfort_accel > 0,
        p.comfort_decel > 0,
        wanted_gap(v, delta_v, p) >= 0,
    ensures
        model_acceleration(v, v0, near, delta_v, p, t) <= model_acceleration(
            v,
            v0,
            far,
            delta_v,
            p,
            t,
        ),
{
    let w = wanted_gap(v, delta_v, p);
    let (g, h) = (larger(near, LEAST_GAP as int), larger(far, LEAST_GAP as int));
    let n = w * FULL;
    assert(0 <= n / h <= n / g) by (nonlinear_arith)
        requires
            0 <= n,
            0 < g <= h,
    ;
    lemma_square_grows(ratio(w, h), ratio(w, g));
    let r = if v0 > 0 {
        ratio(v, v0)
    } else {
        0
    };
    let x = FULL - squared(squared(r)) - squared(ratio(w, g));
    let y = FULL - squared(squared(r)) - squared(ratio(w, h));
    let a = p.comfort_accel as int;
    assert(a * x <= a * y) by (nonlinear_arith)
        requires
            x <= y,
            a > 0,
    ;
    assert(a * x / (FULL as int) <= a * y / (FULL as int)) by (nonlinear_arith)
        requires
            a * x <= a * y,
            FULL == 1_000_000_000,
    ;
}

/// A driver who wants to go faster never accelerates less.
pub proof fn law_higher_aim_no_less_acceleration(
    v: int,
    slow: int,
    fast: int,
    s: int,
    delta_v: int,
    p: DriverParams,
    t: VehicleTypeParams,
)
    requires
        0 <= v,
        0 < slow <= fast,
        p.comfort_accel > 0,
        p.comfort_decel > 0,
    ensures
        model_acceleration(v, slow, s, delta_v, p, t) <= model_acceleration(
            v,
            fast,
            s,
            delta_v,
            p,
            t,
        ),
{
    let n = v * FULL;
    assert(0 <= n / fast <= n / slow) by (nonlinear_arith)
        requires
            0 <= n,
            0 < slow <= fast,
    ;
    lemma_square_grows(ratio(v, fast), ratio(v, slow));
    lemma_square_grows(squared(ratio(v, fast)), squared(ratio(v, slow)));
    let q = squared(ratio(wanted_gap(v, delta_v, p), larger(s, LEAST_GAP as int)));
    let x = FULL - squared(squared(ratio(v, slow))) - q;
    let y = FULL - squared(squared(ratio(v, fast))) - q;
    let a = p.comfort_accel as int;
    assert(a * x <= a * y) by (nonlinear_arith)
        requires
            x <= y,
            a > 0,
    ;
    assert(a * x / (FULL as int) <= a * y / (FULL as int)) by (nonlinear_arith)
        requires
            a * x <= a * y,
            FULL == 1_000_000_000,
    ;
}

/// The wanted gap is the least gap, the way of the time headway and, when the leader comes closer, more:
/// twice the mean of the comfortable values times what is added is the speed times how fast it comes
/// closer, but for rounding.
pub proof fn law_wanted_gap(v: int, delta_v: int, p: DriverParams)
    requires
        0 <= v <= 1_000_000_000,
        0 <= delta_v <= 1_000_000_000,
        0 <= p.min_gap <= 1_000_000_000,
        0 <= p.time_headway <= 1_000_000_000,
        0 < p.comfort_accel <= 1_000_000_000,
        0 < p.comfort_decel <= 1_000_000_000,
    ensures
        ({
            let base = p.min_gap + v * p.time_headway / 1_000_000;
            let more = wanted_gap(v, delta_v, p) - base;
            let mean = root(p.comfort_accel * p.comfort_decel);
            &&& wanted_gap(v, 0, p) == base
            &&& wanted_gap(0, delta_v, p) == p.min_gap
            &&& 0 <= more
            &&& mean * mean <= p.comfort_accel * p.comfort_decel < (mean + 1) * (mean + 1)
            &&& 2 * mean * more <= v * delta_v < 2 * mean * (more + 1)
        }),
{
    let (a, b) = (p.comfort_accel as int, p.comfort_decel as int);
    assert(1 <= a * b <= 1_000_000_000_000_000_000) by (nonlinear_arith)
        requires
            1 <= a <= 1_000_000_000,
            1 <= b <= 1_000_000_000,
    ;
    crate::units::lemma_root_exists(a * b);
    let m = root(a * b);
    if m == 0 {
        assert(is_root(a * b, 0));
    }
    assert(1 <= m);
    let h = p.time_headway as int;
    assert(0 <= v * h <= 1_000_000_000_000_000_000) by (nonlinear_arith)
        requires
            0 <= v <= 1_000_000_000,
            0 <= h <= 1_000_000_000,
    ;
    let n = v * delta_v;
    assert(0 <= n <= 1_000_000_000_000_000_000) by (nonlinear_arith)
        requires
            0 <= v <= 1_000_000_000,
            0 <= delta_v <= 1_000_000_000,
            n == v * delta_v,
    ;
    let k = 2 * m;
    let c = n / k;
    assert(k * c <= n < k * (c + 1) && 0 <= c <= n) by (nonlinear_arith)
        requires
            0 <= n,
            k >= 2,
            c == n / k,
    ;
    assert(v * 0 == 0 && 0 * delta_v == 0 && 0 * h == 0) by (nonlinear_arith);
    assert(0int / k == 0) by (nonlinear_arith)
        requires
            k >= 2,
    ;
}

} // verus!
