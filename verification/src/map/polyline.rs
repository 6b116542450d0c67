//! Lines of points in the plane: how far along them a place is, and where a distance leads.

use vstd::prelude::*;

use crate::units::{
    between, clamp_to, distance, floor_div, lemma_span_not_negative, saturate, saturated, share,
    span, square_distance, FULL,
};

verus! {

/// The largest coordinate of a place that is measured: further than any two places on the globe are
/// apart.
pub const MAX_PLACE: i64 = 0x2000_0000_0000;

/// The square of the distance from a lane up to which a place counts as on it: that of 2.5 m.
pub const PROJECTION_CONFIDENCE_SQUARE: i128 = 6_250_000_000_000;

/// Whether a place can be measured.
pub open spec fn in_plane(p: (i64, i64)) -> bool {
    -MAX_PLACE <= p.0 <= MAX_PLACE && -MAX_PLACE <= p.1 <= MAX_PLACE
}

/// Whether all places of a line can be measured.
pub open spec fn all_in_plane(points: Seq<(i64, i64)>) -> bool {
    forall|i: int| 0 <= i < points.len() ==> in_plane(#[trigger] points[i])
}

/// Whether all places of a line can be measured.
pub fn is_in_plane(points: &Vec<(i64, i64)>) -> (r: bool)
    ensures
        r == all_in_plane(points@),
{
    let mut i: usize = 0;
    while i < points.len()
        invariant
            i <= points@.len(),
            forall|k: int| 0 <= k < i ==> in_plane(#[trigger] points@[k]),
        decreases points.len() - i,
    {
        let p: (i64, i64) = points[i];
        if p.0 < -MAX_PLACE || p.0 > MAX_PLACE || p.1 < -MAX_PLACE || p.1 > MAX_PLACE {
            assert(!in_plane(points@[i as int]));
            return false;
        }
        i = i + 1;
    }
    true
}

/// The length of a step of a line, rounded down.
pub open spec fn step_length(a: (i64, i64), b: (i64, i64)) -> int {
    span(b.0 as int, b.1 as int, a.0 as int, a.1 as int)
}

/// The square of the length of a step.
pub open spec fn step_square(a: (i64, i64), b: (i64, i64)) -> int {
    square_distance(b.0 as int, b.1 as int, a.0 as int, a.1 as int)
}

/// Which part of the step from `a` to `b` lies before the point of it that is nearest to `p`, in
/// billionths.
pub open spec fn nearest_part(a: (i64, i64), b: (i64, i64), p: (i64, i64)) -> int {
    let dot = (p.0 - a.0) * (b.0 - a.0) + (p.1 - a.1) * (b.1 - a.1);
    between(dot * FULL / step_square(a, b), 0, FULL as int)
}

/// The place `part` billionths of the way from `a` to `b`.
pub open spec fn place_between(a: (i64, i64), b: (i64, i64), part: int) -> (int, int) {
    (a.0 + (b.0 - a.0) * part / (FULL as int), a.1 + (b.1 - a.1) * part / (FULL as int))
}

/// How near a line comes to a place: the length of the steps so far, and the square of the least
/// distance with the way along the line to there. Steps of no length are passed over, and of equal
/// distances the first counts.
pub open spec fn approach(points: Seq<(i64, i64)>, p: (i64, i64), n: int) -> (int, Option<(int, int)>)
    decreases n,
{
    if n <= 0 {
        (0, None)
    } else {
        let (way, best) = approach(points, p, n - 1);
        let a = points[n - 1];
        let b = points[n];
        if step_square(a, b) <= 1 {
            (way, best)
        } else {
            let t = nearest_part(a, b, p);
            let q = place_between(a, b, t);
            let d2 = square_distance(p.0 as int, p.1 as int, q.0, q.1);
            let s = way + step_length(a, b) * t / (FULL as int);
            let nearer = match best {
                Some(x) => d2 < x.0,
                None => true,
            };
            (
                way + step_length(a, b),
                if nearer {
                    Some((d2, s))
                } else {
                    best
                },
            )
        }
    }
}

/// How far along a line of the given length a place is. A place further off than 2.5 m counts as the
/// nearer end of the line.
pub open spec fn way_along(points: Seq<(i64, i64)>, length: int, p: (i64, i64)) -> Option<int> {
    if points.len() < 2 {
        None
    } else {
        match approach(points, p, points.len() - 1).1 {
            Some(best) => {
                let first = points[0];
                let last = points.last();
                Some(
                    if best.0 > PROJECTION_CONFIDENCE_SQUARE {
                        if step_square(p, first) <= step_square(p, last) {
                            0
                        } else {
                            length
                        }
                    } else {
                        between(best.1, 0, length)
                    },
                )
            },
            None => None,
        }
    }
}

proof fn lemma_small_product(a: int, b: int)
    requires
        -0x4000_0000_0000 <= a <= 0x4000_0000_0000,
        -0x4000_0000_0000 <= b <= 0x4000_0000_0000,
    ensures
        -0x1000_0000_0000_0000_0000_0000 <= a * b <= 0x1000_0000_0000_0000_0000_0000,
        0 <= a * a <= 0x1000_0000_0000_0000_0000_0000,
{
    assert(-0x1000_0000_0000_0000_0000_0000 <= a * b <= 0x1000_0000_0000_0000_0000_0000)
        by (nonlinear_arith)
        requires
            -0x4000_0000_0000 <= a <= 0x4000_0000_0000,
            -0x4000_0000_0000 <= b <= 0x4000_0000_0000,
    ;
    assert(0 <= a * a <= 0x1000_0000_0000_0000_0000_0000) by (nonlinear_arith)
        requires
            -0x4000_0000_0000 <= a <= 0x4000_0000_0000,
    ;
}

/// The square of the distance between two places.
pub fn square_between(a: (i64, i64), b: (i64, i64)) -> (r: i128)
    requires
        in_plane(a),
        in_plane(b),
    ensures
        r == step_square(a, b),
        0 <= r <= 0x2000_0000_0000_0000_0000_0000,
{
    let dx: i128 = b.0 as i128 - a.0 as i128;
    let dy: i128 = b.1 as i128 - a.1 as i128;
    proof {
        lemma_small_product(dx as int, dx as int);
        lemma_small_product(dy as int, dy as int);
    }
    dx * dx + dy * dy
}

/// Which part of the step from `a` to `b` lies before the point of it that is nearest to `p`.
pub fn find_nearest_part(a: (i64, i64), b: (i64, i64), p: (i64, i64)) -> (r: i64)
    requires
        in_plane(a),
        in_plane(b),
        in_plane(p),
        step_square(a, b) > 0,
    ensures
        r == nearest_part(a, b, p),
        0 <= r <= FULL,
{
    let ux: i128 = p.0 as i128 - a.0 as i128;
    let uy: i128 = p.1 as i128 - a.1 as i128;
    let vx: i128 = b.0 as i128 - a.0 as i128;
    let vy: i128 = b.1 as i128 - a.1 as i128;
    proof {
        lemma_small_product(ux as int, vx as int);
        lemma_small_product(uy as int, vy as int);
    }
    let dot: i128 = ux * vx + uy * vy;
    let q: i128 = floor_div(dot * 1_000_000_000, square_between(a, b));
    if q < 0 {
        0
    } else if q > 1_000_000_000 {
        FULL
    } else {
        q as i64
    }
}

proof fn lemma_between_ends(d: int, part: int)
    requires
        0 <= part <= FULL,
    ensures
        d >= 0 ==> 0 <= d * part / (FULL as int) <= d,
        d <= 0 ==> d <= d * part / (FULL as int) <= 0,
{
    let f = FULL as int;
    assert(d >= 0 ==> 0 <= d * part <= d * f) by (nonlinear_arith)
        requires
            0 <= part <= f,
    ;
    assert(d <= 0 ==> d * f <= d * part <= 0) by (nonlinear_arith)
        requires
            0 <= part <= f,
    ;
    let x = d * part;
    assert(d >= 0 ==> 0 <= x / f <= d) by (nonlinear_arith)
        requires
            f > 0,
            d >= 0 ==> 0 <= x <= d * f,
    ;
    assert(d <= 0 ==> d <= x / f <= 0) by (nonlinear_arith)
        requires
            f > 0,
            d <= 0 ==> d * f <= x <= 0,
    ;
}

/// A place on the way from `a` to `b`.
pub fn find_between(a: (i64, i64), b: (i64, i64), part: i64) -> (r: (i64, i64))
    requires
        in_plane(a),
        in_plane(b),
        0 <= part <= FULL,
    ensures
        (r.0 as int, r.1 as int) == place_between(a, b, part as int),
        in_plane(r),
        a.0 <= r.0 <= b.0 || b.0 <= r.0 <= a.0,
        a.1 <= r.1 <= b.1 || b.1 <= r.1 <= a.1,
{
    let dx: i64 = b.0 - a.0;
    let dy: i64 = b.1 - a.1;
    proof {
        lemma_between_ends(dx as int, part as int);
        lemma_between_ends(dy as int, part as int);
        let (x, y, t) = (dx as int, dy as int, part as int);
        assert(-0x4000_0000_0000 * 1_000_000_000 <= x * t <= 0x4000_0000_0000 * 1_000_000_000)
            by (nonlinear_arith)
            requires
                -0x4000_0000_0000 <= x <= 0x4000_0000_0000,
                0 <= t <= 1_000_000_000,
        ;
        assert(-0x4000_0000_0000 * 1_000_000_000 <= y * t <= 0x4000_0000_0000 * 1_000_000_000)
            by (nonlinear_arith)
            requires
                -0x4000_0000_0000 <= y <= 0x4000_0000_0000,
                0 <= t <= 1_000_000_000,
        ;
    }
    let x: i128 = floor_div(dx as i128 * part as i128, 1_000_000_000);
    let y: i128 = floor_div(dy as i128 * part as i128, 1_000_000_000);
    (a.0 + x as i64, a.1 + y as i64)
}

/// How far along a line of the given length a place is.
pub fn closest_arclength_on_path(points: &Vec<(i64, i64)>, length: i64, p: (i64, i64)) -> (r:
    Option<i64>)
    requires
        all_in_plane(points@),
        in_plane(p),
        length >= 0,
    ensures
        match r {
            Some(s) => way_along(points@, length as int, p) == Some(s as int),
            None => way_along(points@, length as int, p) is None,
        },
{
    if points.len() < 2 {
        return None;
    }
    let mut way: i128 = 0;
    let mut best: Option<(i128, i128)> = None;
    let mut i: usize = 0;
    while i + 1 < points.len()
        invariant
            i + 1 <= points.len(),
            all_in_plane(points@),
            in_plane(p),
            0 <= way <= i * 0x6000_0000_0000,
            way == approach(points@, p, i as int).0,
            match best {
                Some(b) => approach(points@, p, i as int).1 == Some((b.0 as int, b.1 as int)),
                None => approach(points@, p, i as int).1 is None,
            },
        decreases points.len() - i,
    {
        let a: (i64, i64) = points[i];
        let b: (i64, i64) = points[i + 1];
        let len2: i128 = square_between(a, b);
        if len2 > 1 {
            let t: i64 = find_nearest_part(a, b, p);
            let q: (i64, i64) = find_between(a, b, t);
            let d2: i128 = square_between(q, p);
            let step: i64 = distance(b.0, b.1, a.0, a.1);
            proof {
                lemma_step_bound(a, b);
                lemma_between_ends(step as int, t as int);
                let (x, y) = (step as int, t as int);
                assert(0 <= x * y <= 0x6000_0000_0000 * 1_000_000_000) by (nonlinear_arith)
                    requires
                        0 <= x <= 0x6000_0000_0000,
                        0 <= y <= 1_000_000_000,
                ;
                assert(i * 0x6000_0000_0000 <= 0x1_0000_0000_0000_0000 * 0x6000_0000_0000)
                    by (nonlinear_arith)
                    requires
                        0 <= i <= 0x1_0000_0000_0000_0000,
                ;
            }
            let s: i128 = way + step as i128 * t as i128 / 1_000_000_000;
            let nearer: bool = match best {
                Some(x) => d2 < x.0,
                None => true,
            };
            if nearer {
                best = Some((d2, s));
            }
            way = way + step as i128;
        }
        i = i + 1;
    }
    match best {
        Some((d2, s)) => {
            if d2 > PROJECTION_CONFIDENCE_SQUARE {
                if square_between(p, points[0]) <= square_between(p, points[points.len() - 1]) {
                    Some(0)
                } else {
                    Some(length)
                }
            } else if s < 0 {
                Some(0)
            } else if s > length as i128 {
                Some(length)
            } else {
                Some(s as i64)
            }
        },
        None => None,
    }
}

proof fn lemma_step_bound(a: (i64, i64), b: (i64, i64))
    requires
        in_plane(a),
        in_plane(b),
    ensures
        0 <= step_length(a, b) <= 0x6000_0000_0000,
{
    lemma_span_not_negative(b.0 as int, b.1 as int, a.0 as int, a.1 as int);
    let n = step_square(a, b);
    lemma_small_product(b.0 - a.0, b.0 - a.0);
    lemma_small_product(b.1 - a.1, b.1 - a.1);
    crate::units::lemma_root_exists(n);
    let r = crate::units::root(n);
    assert(r <= 0x6000_0000_0000) by (nonlinear_arith)
        requires
            r * r <= n,
            n <= 0x2000_0000_0000_0000_0000_0000,
            0 <= r,
    ;
}

/// Where a distance along a line leads, and the direction of the line there; past the end of the line
/// its last place. Steps of no length are passed over.
pub open spec fn place_along(points: Seq<(i64, i64)>, rest: int) -> ((int, int), (int, int))
    decreases points.len(),
{
    let a = points[0];
    let b = points[1];
    let direction = (b.0 - a.0, b.1 - a.1);
    let l = step_length(a, b);
    if points.len() <= 1 {
        ((a.0 as int, a.1 as int), (0, 0))
    } else if l > 1 && rest <= l {
        (place_between(a, b, share(rest, l)), direction)
    } else if points.len() == 2 {
        ((b.0 as int, b.1 as int), direction)
    } else if l <= 1 {
        place_along(points.skip(1), rest)
    } else {
        place_along(points.skip(1), rest - l)
    }
}

/// Where a distance along a line of the given length leads; a line shorter than a centimetre stays at
/// its start.
pub open spec fn sample_on(points: Seq<(i64, i64)>, length: int, d: int) -> ((int, int), (int, int)) {
    let a = points[0];
    let b = points[1];
    if length <= 10_000 {
        ((a.0 as int, a.1 as int), (b.0 - a.0, b.1 - a.1))
    } else {
        place_along(points, between(d, 0, length))
    }
}

/// A place on a line and the direction of the line there.
#[derive(Clone, Copy, Debug)]
pub struct Sample {
    pub place: (i64, i64),
    pub direction: (i64, i64),
}

impl Sample {
    /// The sample as whole numbers.
    pub open spec fn pairs(self) -> ((int, int), (int, int)) {
        (
            (self.place.0 as int, self.place.1 as int),
            (self.direction.0 as int, self.direction.1 as int),
        )
    }
}

/// Where a distance along a line of the given length leads.
pub fn sample_path_at(points: &Vec<(i64, i64)>, length: i64, d: i64) -> (r: Option<Sample>)
    requires
        all_in_plane(points@),
    ensures
        r is Some == (points@.len() >= 2),
        r matches Some(s) ==> s.pairs() == sample_on(points@, length as int, d as int),
{
    if points.len() < 2 {
        return None;
    }
    let a: (i64, i64) = points[0];
    let b: (i64, i64) = points[1];
    if length <= 10_000 {
        return Some(Sample { place: a, direction: (b.0 - a.0, b.1 - a.1) });
    }
    let mut rest: i64 = clamp_to(d, 0, length);
    let ghost goal = place_along(points@, rest as int);
    let mut i: usize = 0;
    assert(points@.skip(0) =~= points@);
    while i + 2 < points.len()
        invariant
            i + 2 <= points.len(),
            all_in_plane(points@),
            0 <= rest,
            goal == sample_on(points@, length as int, d as int),
            goal == place_along(points@.skip(i as int), rest as int),
        decreases points.len() - i,
    {
        let a: (i64, i64) = points[i];
        let b: (i64, i64) = points[i + 1];
        let l: i64 = distance(b.0, b.1, a.0, a.1);
        proof {
            lemma_step_bound(a, b);
            let left = points@.skip(i as int);
            assert(left[0] == a && left[1] == b);
            assert(left.skip(1) =~= points@.skip(i + 1));
        }
        if l > 1 {
            if rest <= l {
                let place: (i64, i64) = find_between(a, b, part_within(rest, l));
                return Some(Sample { place, direction: (b.0 - a.0, b.1 - a.1) });
            }
            rest = rest - l;
        }
        i = i + 1;
    }
    let a: (i64, i64) = points[i];
    let b: (i64, i64) = points[i + 1];
    let l: i64 = distance(b.0, b.1, a.0, a.1);
    proof {
        lemma_step_bound(a, b);
        let left = points@.skip(i as int);
        assert(left[0] == a && left[1] == b);
    }
    let place: (i64, i64) = if l > 1 && rest <= l {
        find_between(a, b, part_within(rest, l))
    } else {
        b
    };
    Some(Sample { place, direction: (b.0 - a.0, b.1 - a.1) })
}

fn part_within(x: i64, l: i64) -> (r: i64)
    requires
        0 <= x <= l,
        0 < l,
    ensures
        r == share(x as int, l as int),
        0 <= r <= FULL,
{
    proof {
        let (a, b) = (x as int, l as int);
        assert(0 <= a * FULL / b <= FULL) by (nonlinear_arith)
            requires
                0 <= a <= b,
                0 < b,
                FULL == 1_000_000_000,
        ;
    }
    (x as i128 * 1_000_000_000 / l as i128) as i64
}

/// The length of a line.
pub open spec fn line_length(points: Seq<(i64, i64)>) -> int
    decreases points.len(),
{
    if points.len() < 2 {
        0
    } else {
        line_length(points.drop_last()) + step_length(
            points[points.len() - 2],
            points.last(),
        )
    }
}

/// The length of a line.
pub fn length_of(points: &Vec<(i64, i64)>) -> (r: i64)
    requires
        all_in_plane(points@),
    ensures
        r == saturated(line_length(points@)),
        r >= 0,
{
    let mut total: i128 = 0;
    let mut i: usize = 1;
    if points.len() < 2 {
        return 0;
    }
    while i < points.len()
        invariant
            1 <= i <= points@.len(),
            all_in_plane(points@),
            0 <= total <= i * 0x6000_0000_0000,
            total == line_length(points@.take(i as int)),
        decreases points.len() - i,
    {
        let a: (i64, i64) = points[i - 1];
        let b: (i64, i64) = points[i];
        proof {
            lemma_step_bound(a, b);
            assert(points@.take(i + 1).drop_last() =~= points@.take(i as int));
            assert(points@.take(i + 1)[i - 1] == a);
            assert(points@.take(i + 1).last() == b);
            assert(i * 0x6000_0000_0000 <= 0x1_0000_0000_0000_0000 * 0x6000_0000_0000)
                by (nonlinear_arith)
                requires
                    0 <= i <= 0x1_0000_0000_0000_0000,
            ;
        }
        total = total + distance(b.0, b.1, a.0, a.1) as i128;
        i = i + 1;
    }
    assert(points@.take(i as int) =~= points@);
    saturate(total)
}

/// Where a distance along a line leads: the first step that is long enough holds the place, in
/// proportion; past the end the last place.
pub open spec fn point_along(points: Seq<(i64, i64)>, rest: int) -> (int, int)
    decreases points.len(),
{
    let a = points[0];
    let b = points[1];
    let l = step_length(a, b);
    if points.len() <= 1 {
        (a.0 as int, a.1 as int)
    } else if rest <= l || points.len() == 2 {
        place_between(a, b, between(share(rest, l), 0, FULL as int))
    } else {
        point_along(points.skip(1), rest - l)
    }
}

/// Place `k` of a line that is cut into `n` equal parts.
pub open spec fn cut_place(points: Seq<(i64, i64)>, n: int, k: int) -> (int, int) {
    point_along(points, line_length(points) * k / n)
}

fn find_point_along(points: &Vec<(i64, i64)>, d: i64) -> (r: (i64, i64))
    requires
        all_in_plane(points@),
        points@.len() >= 2,
        d >= 0,
    ensures
        (r.0 as int, r.1 as int) == point_along(points@, d as int),
        in_plane(r),
{
    let mut rest: i64 = d;
    let ghost goal = point_along(points@, d as int);
    let mut i: usize = 0;
    assert(points@.skip(0) =~= points@);
    while i + 2 < points.len()
        invariant
            i + 2 <= points.len(),
            all_in_plane(points@),
            0 <= rest,
            goal == point_along(points@, d as int),
            goal == point_along(points@.skip(i as int), rest as int),
        decreases points.len() - i,
    {
        let a: (i64, i64) = points[i];
        let b: (i64, i64) = points[i + 1];
        let l: i64 = distance(b.0, b.1, a.0, a.1);
        proof {
            lemma_step_bound(a, b);
            let left = points@.skip(i as int);
            assert(left[0] == a && left[1] == b);
            assert(left.skip(1) =~= points@.skip(i + 1));
        }
        if rest <= l {
            return find_between(a, b, part_held(rest, l));
        }
        rest = rest - l;
        i = i + 1;
    }
    let a: (i64, i64) = points[i];
    let b: (i64, i64) = points[i + 1];
    let l: i64 = distance(b.0, b.1, a.0, a.1);
    proof {
        lemma_step_bound(a, b);
        let left = points@.skip(i as int);
        assert(left[0] == a && left[1] == b);
    }
    find_between(a, b, part_held(rest, l))
}

fn part_held(x: i64, l: i64) -> (r: i64)
    requires
        0 <= x,
        0 <= l,
    ensures
        r == between(share(x as int, l as int), 0, FULL as int),
        0 <= r <= FULL,
{
    if l == 0 {
        return 0;
    }
    let q: i128 = x as i128 * 1_000_000_000 / l as i128;
    proof {
        assert(x as int * FULL / l as int >= 0) by (nonlinear_arith)
            requires
                x >= 0,
                l > 0,
                FULL == 1_000_000_000,
        ;
    }
    if q > 1_000_000_000 {
        FULL
    } else {
        q as i64
    }
}

/// Cuts a line into `n` equal parts, or one where `n` is nothing; a line of no length, or of one
/// place, stays as it is.
pub fn resample_polyline_min_intervals(points: &Vec<(i64, i64)>, n: usize) -> (r: Vec<(i64, i64)>)
    requires
        all_in_plane(points@),
        line_length(points@) <= i64::MAX,
        n < usize::MAX,
    ensures
        points@.len() < 2 || line_length(points@) < 1 ==> r@ == points@,
        points@.len() >= 2 && line_length(points@) >= 1 ==> {
            let parts = if n == 0 {
                1
            } else {
                n as int
            };
            &&& r@.len() == parts + 1
            &&& forall|k: int|
                0 <= k <= parts ==> ((#[trigger] r@[k]).0 as int, r@[k].1 as int) == cut_place(
                    points@,
                    parts,
                    k,
                )
        },
        all_in_plane(r@),
{
    let total: i64 = length_of(points);
    if points.len() < 2 || total < 1 {
        let mut out: Vec<(i64, i64)> = Vec::new();
        let mut i: usize = 0;
        while i < points.len()
            invariant
                i <= points@.len(),
                out@ == points@.take(i as int),
            decreases points.len() - i,
        {
            out.push(points[i]);
            i = i + 1;
            assert(out@ =~= points@.take(i as int));
        }
        assert(points@.take(i as int) =~= points@);
        return out;
    }
    let parts: usize = if n == 0 {
        1
    } else {
        n
    };
    let mut out: Vec<(i64, i64)> = Vec::new();
    let mut k: usize = 0;
    while k <= parts
        invariant
            k <= parts + 1,
            1 <= parts < usize::MAX,
            all_in_plane(points@),
            points@.len() >= 2,
            total == line_length(points@),
            total >= 1,
            out@.len() == k,
            all_in_plane(out@),
            forall|j: int|
                0 <= j < k ==> ((#[trigger] out@[j]).0 as int, out@[j].1 as int) == cut_place(
                    points@,
                    parts as int,
                    j,
                ),
        decreases parts + 1 - k,
    {
        proof {
            let (t, j, n) = (total as int, k as int, parts as int);
            assert(0 <= t * j / n <= t) by (nonlinear_arith)
                requires
                    0 <= t,
                    0 <= j <= n,
                    n > 0,
            ;
            assert(0 <= t * j <= 0x7fff_ffff_ffff_ffff * 0xffff_ffff_ffff_ffff)
                by (nonlinear_arith)
                requires
                    0 <= t <= 0x7fff_ffff_ffff_ffff,
                    0 <= j <= 0xffff_ffff_ffff_ffff,
            ;
        }
        let target: i64 = (total as i128 * k as i128 / parts as i128) as i64;
        out.push(find_point_along(points, target));
        k = k + 1;
    }
    out
}

/// The ends of a straight line are found at its start and at its full length.
pub proof fn law_ends_are_found(a: (i64, i64), b: (i64, i64))
    requires
        in_plane(a),
        in_plane(b),
        step_square(a, b) > 1,
    ensures
        way_along(seq![a, b], step_length(a, b), a) == Some(0int),
        way_along(seq![a, b], step_length(a, b), b) == Some(step_length(a, b)),
{
    let line = seq![a, b];
    reveal_with_fuel(approach, 2);
    lemma_step_bound(a, b);
    let n = step_square(a, b);
    assert((b.0 - a.0) * (b.0 - a.0) + (b.1 - a.1) * (b.1 - a.1) == n);
    assert(n * FULL / n == FULL) by (nonlinear_arith)
        requires
            n > 0,
    ;
    assert(nearest_part(a, b, b) == FULL);
    assert((a.0 - a.0) * (b.0 - a.0) + (a.1 - a.1) * (b.1 - a.1) == 0) by (nonlinear_arith);
    assert(0 * FULL / n == 0) by (nonlinear_arith)
        requires
            n > 0,
    ;
    assert(nearest_part(a, b, a) == 0);
    let f = FULL as int;
    let (dx, dy) = (b.0 - a.0, b.1 - a.1);
    assert(dx * f / f == dx && dy * f / f == dy) by (nonlinear_arith)
        requires
            f == 1_000_000_000,
    ;
    assert(dx * 0 / f == 0 && dy * 0 / f == 0);
    let l = step_length(a, b);
    assert(l * f / f == l) by (nonlinear_arith)
        requires
            f == 1_000_000_000,
    ;
    assert(l * 0 / f == 0);
    assert(line.last() == b);
    assert(approach(line, a, 1).1 == Some((0int, 0int)));
    assert(approach(line, b, 1).1 == Some((0int, l)));
}

/// A line is sampled where it is: no sample lies outside the range that its places span.
pub proof fn law_samples_stay_on_line(points: Seq<(i64, i64)>, rest: int, lo: int, hi: int)
    requires
        points.len() >= 2,
        0 <= rest,
    ensures
        (forall|i: int| 0 <= i < points.len() ==> lo <= (#[trigger] points[i]).0 <= hi) ==> lo
            <= place_along(points, rest).0.0 <= hi,
        (forall|i: int| 0 <= i < points.len() ==> lo <= (#[trigger] points[i]).1 <= hi) ==> lo
            <= place_along(points, rest).0.1 <= hi,
    decreases points.len(),
{
    let (a, b) = (points[0], points[1]);
    let l = step_length(a, b);
    if l > 1 && rest <= l {
        let s = share(rest, l);
        crate::units::law_share_of_length(rest, l);
        lemma_within_step(a.0 as int, b.0 as int, s);
        lemma_within_step(a.1 as int, b.1 as int, s);
    } else if points.len() > 2 {
        let back = points.skip(1);
        assert forall|i: int| 0 <= i < back.len() implies #[trigger] back[i] == points[i + 1] by {}
        law_samples_stay_on_line(
            back,
            if l <= 1 {
                rest
            } else {
                rest - l
            },
            lo,
            hi,
        );
    }
}

/// A part of the way from one number to another leads to a number between them.
pub proof fn lemma_within_step(a: int, b: int, s: int)
    requires
        0 <= s <= FULL,
    ensures
        a <= b ==> a <= a + (b - a) * s / (FULL as int) <= b,
        b <= a ==> b <= a + (b - a) * s / (FULL as int) <= a,
{
    let f: int = FULL as int;
    let d = b - a;
    let n = d * s;
    if a <= b {
        assert(0 <= n <= d * f) by (nonlinear_arith)
            requires
                0 <= d,
                0 <= s <= f,
                n == d * s,
        ;
        assert(0 <= n / f <= d) by (nonlinear_arith)
            requires
                0 <= n <= d * f,
                f > 0,
        ;
    }
    if b <= a {
        assert(d * f <= n <= 0) by (nonlinear_arith)
            requires
                d <= 0,
                0 <= s <= f,
                n == d * s,
        ;
        assert(d <= n / f <= 0) by (nonlinear_arith)
            requires
                d * f <= n <= 0,
                f > 0,
        ;
    }
}

/// A line is sampled from its start on: at the length of its first step lies its second place, and beyond
/// that the samples are those of the rest of the line.
pub proof fn law_samples_follow_steps(points: Seq<(i64, i64)>)
    requires
        points.len() >= 2,
        step_length(points[0], points[1]) > 1,
    ensures
        place_along(points, 0).0 == (points[0].0 as int, points[0].1 as int),
        place_along(points, step_length(points[0], points[1])).0 == (
            points[1].0 as int,
            points[1].1 as int,
        ),
        points.len() > 2 ==> forall|rest: int|
            rest > step_length(points[0], points[1]) ==> #[trigger] place_along(points, rest)
                == place_along(points.skip(1), rest - step_length(points[0], points[1])),
{
    let l = step_length(points[0], points[1]);
    crate::units::law_share_of_length(0, l);
    let f: int = FULL as int;
    let (dx, dy) = (points[1].0 - points[0].0, points[1].1 - points[0].1);
    assert(dx * f / f == dx && dy * f / f == dy && dx * 0 / f == 0 && dy * 0 / f == 0)
        by (nonlinear_arith)
        requires
            f > 0,
    ;
}

/// No step of a line that has a length comes nearer to a place than what is found.
pub proof fn law_nearest_step_is_found(points: Seq<(i64, i64)>, p: (i64, i64), n: int, k: int)
    requires
        0 <= k < n,
        step_square(points[k], points[k + 1]) > 1,
    ensures
        ({
            let q = place_between(
                points[k],
                points[k + 1],
                nearest_part(points[k], points[k + 1], p),
            );
            let best = approach(points, p, n).1;
            best is Some && best->Some_0.0 <= square_distance(p.0 as int, p.1 as int, q.0, q.1)
        }),
    decreases n,
{
    if k < n - 1 {
        law_nearest_step_is_found(points, p, n - 1, k);
    }
}

/// A line is as long as its parts.
pub proof fn law_length_of_parts(points: Seq<(i64, i64)>, k: int)
    requires
        0 <= k < points.len(),
    ensures
        line_length(points) == line_length(points.take(k + 1)) + line_length(points.skip(k)),
    decreases points.len(),
{
    if k == points.len() - 1 {
        assert(points.take(k + 1) =~= points);
    } else {
        let front = points.drop_last();
        law_length_of_parts(front, k);
        assert(front.take(k + 1) =~= points.take(k + 1));
        assert(front.skip(k) =~= points.skip(k).drop_last());
        let n = points.len() as int;
        assert(points.skip(k)[n - k - 1] == points[n - 1] && points.skip(k)[n - k - 2]
            == points[n - 2]);
    }
}

/// A line that is cut into parts starts where it did, and a straight one also ends there.
pub proof fn law_cuts_keep_ends(points: Seq<(i64, i64)>, n: int)
    requires
        points.len() >= 2,
        n > 0,
        step_length(points[0], points[1]) > 0,
    ensures
        cut_place(points, n, 0) == (points[0].0 as int, points[0].1 as int),
        points.len() == 2 ==> cut_place(points, n, n) == (points[1].0 as int, points[1].1 as int),
{
    let l = step_length(points[0], points[1]);
    let f: int = FULL as int;
    let total = line_length(points);
    assert(total * 0 / n == 0 && total * n / n == total) by (nonlinear_arith)
        requires
            n > 0,
    ;
    crate::units::law_share_of_length(0, l);
    crate::units::law_share_of_length(l, l);
    let (dx, dy) = (points[1].0 - points[0].0, points[1].1 - points[0].1);
    assert(dx * f / f == dx && dy * f / f == dy && dx * 0 / f == 0 && dy * 0 / f == 0)
        by (nonlinear_arith)
        requires
            f > 0,
    ;
    if points.len() == 2 {
        assert(line_length(points.drop_last()) == 0);
        assert(total == l);
    }
}

} // verus!
