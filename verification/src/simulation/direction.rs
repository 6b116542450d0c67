//! Comparing directions by their cross and dot products.

use vstd::prelude::*;

use crate::map::map_data::MapData;
use crate::map::road_network::RoadNode;

verus! {

/// The largest component of a direction that is compared.
pub const MAX_COMPONENT: i64 = 0x400_0000;

/// The divisor that brings both components into range.
pub open spec fn reduction(v: (int, int)) -> int {
    let m = crate::units::larger(magnitude(v.0), magnitude(v.1));
    m / (MAX_COMPONENT as int) + 1
}

/// The size of a number without its sign.
pub open spec fn magnitude(x: int) -> int {
    if x >= 0 {
        x
    } else {
        -x
    }
}

/// A direction whose components are in range.
pub open spec fn reduced(v: (int, int)) -> (int, int) {
    (v.0 / reduction(v), v.1 / reduction(v))
}

/// The dot product of two directions.
pub open spec fn dot(a: (int, int), b: (int, int)) -> int {
    a.0 * b.0 + a.1 * b.1
}

/// The square of the length of a direction.
pub open spec fn square(a: (int, int)) -> int {
    dot(a, a)
}

/// Whether the cosine of the angle between two directions is more than the root of `c2`
/// millionths.
pub open spec fn cosine_above(a: (int, int), b: (int, int), c2: int) -> bool {
    dot(a, b) > 0 && dot(a, b) * dot(a, b) * 1_000_000 > square(a) * square(b) * c2
}

/// Whether the cosine of the angle between two directions is at least the root of `c2` millionths.
pub open spec fn cosine_at_least(a: (int, int), b: (int, int), c2: int) -> bool {
    dot(a, b) > 0 && dot(a, b) * dot(a, b) * 1_000_000 >= square(a) * square(b) * c2
}

/// Whether the cosine of the angle between two directions is less than minus the root of `c2`
/// millionths.
pub open spec fn cosine_below_minus(a: (int, int), b: (int, int), c2: int) -> bool {
    dot(a, b) < 0 && dot(a, b) * dot(a, b) * 1_000_000 > square(a) * square(b) * c2
}

/// A direction as a pair of whole numbers in range.
#[derive(Clone, Copy, Debug, PartialEq, Eq, Structural)]
pub struct Heading {
    pub x: i64,
    pub y: i64,
}

impl Heading {
    /// The direction as a pair.
    pub open spec fn pair(self) -> (int, int) {
        (self.x as int, self.y as int)
    }

    /// Both components are in range.
    pub open spec fn wf(self) -> bool {
        -MAX_COMPONENT <= self.x <= MAX_COMPONENT && -MAX_COMPONENT <= self.y <= MAX_COMPONENT
    }
}

/// The direction of a difference.
pub fn heading_of(dx: i128, dy: i128) -> (r: Heading)
    requires
        -0x1_0000_0000_0000_0000_0000_0000 <= dx <= 0x1_0000_0000_0000_0000_0000_0000,
        -0x1_0000_0000_0000_0000_0000_0000 <= dy <= 0x1_0000_0000_0000_0000_0000_0000,
    ensures
        r.wf(),
        r.pair() == reduced((dx as int, dy as int)),
{
    let mx: i128 = if dx >= 0 {
        dx
    } else {
        -dx
    };
    let my: i128 = if dy >= 0 {
        dy
    } else {
        -dy
    };
    let m: i128 = if mx >= my {
        mx
    } else {
        my
    };
    let d: i128 = m / (MAX_COMPONENT as i128) + 1;
    let x: i128 = crate::units::floor_div(dx, d);
    let y: i128 = crate::units::floor_div(dy, d);
    proof {
        lemma_reduced_fits(dx as int, m as int, d as int);
        lemma_reduced_fits(dy as int, m as int, d as int);
    }
    Heading { x: x as i64, y: y as i64 }
}

proof fn lemma_reduced_fits(x: int, m: int, d: int)
    requires
        -m <= x <= m,
        0 <= m,
        d == m / (MAX_COMPONENT as int) + 1,
    ensures
        d > 0,
        -MAX_COMPONENT <= x / d <= MAX_COMPONENT,
{
    let c = MAX_COMPONENT as int;
    assert(m < c * d) by (nonlinear_arith)
        requires
            c == 0x400_0000,
            d == m / c + 1,
            0 <= m,
    ;
    assert(-c <= x / d <= c) by (nonlinear_arith)
        requires
            -m <= x <= m,
            m < c * d,
            d > 0,
            c > 0,
    ;
}

proof fn lemma_dot_fits(a: (int, int), b: (int, int))
    requires
        -0x400_0000 <= a.0 <= 0x400_0000,
        -0x400_0000 <= a.1 <= 0x400_0000,
        -0x400_0000 <= b.0 <= 0x400_0000,
        -0x400_0000 <= b.1 <= 0x400_0000,
    ensures
        -0x10_0000_0000_0000 <= a.0 * b.0 <= 0x10_0000_0000_0000,
        -0x10_0000_0000_0000 <= a.1 * b.1 <= 0x10_0000_0000_0000,
{
    let (p, q, r, s) = (a.0, a.1, b.0, b.1);
    assert(-0x10_0000_0000_0000 <= p * r <= 0x10_0000_0000_0000) by (nonlinear_arith)
        requires
            -0x400_0000 <= p <= 0x400_0000,
            -0x400_0000 <= r <= 0x400_0000,
    ;
    assert(-0x10_0000_0000_0000 <= q * s <= 0x10_0000_0000_0000) by (nonlinear_arith)
        requires
            -0x400_0000 <= q <= 0x400_0000,
            -0x400_0000 <= s <= 0x400_0000,
    ;
}

proof fn lemma_squares_fit(d: int, a: int, b: int)
    requires
        -0x20_0000_0000_0000 <= d <= 0x20_0000_0000_0000,
        0 <= a <= 0x20_0000_0000_0000,
        0 <= b <= 0x20_0000_0000_0000,
    ensures
        0 <= d * d <= 0x400_0000_0000_0000_0000_0000_0000,
        0 <= a * b <= 0x400_0000_0000_0000_0000_0000_0000,
{
    assert(0 <= d * d <= 0x400_0000_0000_0000_0000_0000_0000) by (nonlinear_arith)
        requires
            -0x20_0000_0000_0000 <= d <= 0x20_0000_0000_0000,
    ;
    assert(0 <= a * b <= 0x400_0000_0000_0000_0000_0000_0000) by (nonlinear_arith)
        requires
            0 <= a <= 0x20_0000_0000_0000,
            0 <= b <= 0x20_0000_0000_0000,
    ;
}

/// The dot product of two directions, its square and what `c2` millionths of the largest such square
/// are.
fn dot_and_squares(a: Heading, b: Heading, c2: u32) -> (r: (i128, i128, i128))
    requires
        a.wf(),
        b.wf(),
        c2 <= 1_000_000,
    ensures
        r.0 == dot(a.pair(), b.pair()),
        r.1 == dot(a.pair(), b.pair()) * dot(a.pair(), b.pair()) * 1_000_000,
        r.2 == square(a.pair()) * square(b.pair()) * c2,
{
    proof {
        lemma_dot_fits(a.pair(), b.pair());
        lemma_dot_fits(a.pair(), a.pair());
        lemma_dot_fits(b.pair(), b.pair());
        assert(a.x * a.x >= 0 && a.y * a.y >= 0) by (nonlinear_arith);
        assert(b.x * b.x >= 0 && b.y * b.y >= 0) by (nonlinear_arith);
    }
    let d: i128 = a.x as i128 * b.x as i128 + a.y as i128 * b.y as i128;
    let sa: i128 = a.x as i128 * a.x as i128 + a.y as i128 * a.y as i128;
    let sb: i128 = b.x as i128 * b.x as i128 + b.y as i128 * b.y as i128;
    proof {
        lemma_squares_fit(d as int, sa as int, sb as int);
        let n = sa * sb;
        let k = c2 as int;
        assert(0 <= n * k <= 0x400_0000_0000_0000_0000_0000_0000 * 1_000_000) by (nonlinear_arith)
            requires
                0 <= n <= 0x400_0000_0000_0000_0000_0000_0000,
                0 <= k <= 1_000_000,
        ;
    }
    (d, d * d * 1_000_000, sa * sb * c2 as i128)
}

/// Whether the cosine of the angle between two directions is more than the root of `c2`
/// millionths.
pub fn is_cosine_above(a: Heading, b: Heading, c2: u32) -> (r: bool)
    requires
        a.wf(),
        b.wf(),
        c2 <= 1_000_000,
    ensures
        r == cosine_above(a.pair(), b.pair(), c2 as int),
{
    let (d, mine, all) = dot_and_squares(a, b, c2);
    d > 0 && mine > all
}

/// Whether the cosine of the angle between two directions is at least the root of `c2` millionths.
pub fn is_cosine_at_least(a: Heading, b: Heading, c2: u32) -> (r: bool)
    requires
        a.wf(),
        b.wf(),
        c2 <= 1_000_000,
    ensures
        r == cosine_at_least(a.pair(), b.pair(), c2 as int),
{
    let (d, mine, all) = dot_and_squares(a, b, c2);
    d > 0 && mine >= all
}

/// Whether the cosine of the angle between two directions is less than minus the root of `c2`
/// millionths.
pub fn is_cosine_below_minus(a: Heading, b: Heading, c2: u32) -> (r: bool)
    requires
        a.wf(),
        b.wf(),
        c2 <= 1_000_000,
    ensures
        r == cosine_below_minus(a.pair(), b.pair(), c2 as int),
{
    let (d, mine, all) = dot_and_squares(a, b, c2);
    d < 0 && mine > all
}

/// Positive where the second direction lies to the left of the first.
pub open spec fn cross_product(a: (int, int), b: (int, int)) -> int {
    a.0 * b.1 - a.1 * b.0
}

/// Whether the second direction lies to the left of the first.
pub fn turns_left(a: Heading, b: Heading) -> (r: bool)
    requires
        a.wf(),
        b.wf(),
    ensures
        r == (cross_product(a.pair(), b.pair()) > 0),
{
    proof {
        lemma_dot_fits(a.pair(), (b.y as int, b.x as int));
    }
    a.x as i128 * b.y as i128 - a.y as i128 * b.x as i128 > 0
}

/// The direction from one node to another, east and north.
pub open spec fn node_heading(from: RoadNode, to: RoadNode) -> (int, int) {
    reduced((to.lng - from.lng, to.lat - from.lat))
}

/// The direction from one node to another, east and north.
pub fn heading_between(from: &RoadNode, to: &RoadNode) -> (r: Heading)
    ensures
        r.wf(),
        r.pair() == node_heading(*from, *to),
{
    heading_of(to.lng as i128 - from.lng as i128, to.lat as i128 - from.lat as i128)
}

/// A direction is reduced by the same divisor in both components, and small ones stay as they
/// are.
pub proof fn law_small_directions_kept(v: (int, int))
    requires
        magnitude(v.0) < MAX_COMPONENT,
        magnitude(v.1) < MAX_COMPONENT,
    ensures
        reduced(v) == v,
{
    assert(reduction(v) == 1);
}

/// Whether both ends of an edge are known, and which.
pub open spec fn ends_of(map: MapData, e: usize) -> Option<(int, int)> {
    if e < map.edges@.len() {
        Some(map.graph.ends()[e as int])
    } else {
        None
    }
}

/// Directions are compared by the angle between them: a direction is along itself, against its opposite
/// and neither along nor against what stands across; and it does not matter which of two comes first.
pub proof fn law_angles(a: (int, int), b: (int, int), c2: int)
    requires
        square(a) > 0,
        0 <= c2 < 1_000_000,
    ensures
        cosine_above(a, a, c2),
        cosine_below_minus(a, (-a.0, -a.1), c2),
        !cosine_above(a, (-a.1, a.0), c2),
        !cosine_below_minus(a, (-a.1, a.0), c2),
        cosine_above(a, b, c2) == cosine_above(b, a, c2),
        cosine_below_minus(a, b, c2) == cosine_below_minus(b, a, c2),
        cosine_below_minus(a, b, c2) == cosine_above(a, (-b.0, -b.1), c2),
        cosine_above(a, b, c2) ==> cosine_at_least(a, b, c2),
        !(cosine_above(a, b, c2) && cosine_below_minus(a, b, c2)),
{
    let n = square(a);
    assert(n * n > 0) by (nonlinear_arith)
        requires
            n > 0,
    ;
    assert(n * n * 1_000_000 > n * n * c2) by (nonlinear_arith)
        requires
            n * n > 0,
            c2 < 1_000_000,
    ;
    let m = (-a.0, -a.1);
    let o = (-b.0, -b.1);
    assert(dot(a, m) == -n && square(m) == n && (-n) * (-n) == n * n) by (nonlinear_arith)
        requires
            dot(a, m) == a.0 * m.0 + a.1 * m.1,
            square(m) == m.0 * m.0 + m.1 * m.1,
            n == a.0 * a.0 + a.1 * a.1,
            m.0 == -a.0,
            m.1 == -a.1,
    ;
    assert(a.0 * (-a.1) + a.1 * a.0 == 0) by (nonlinear_arith);
    assert(dot(a, b) == dot(b, a)) by (nonlinear_arith)
        requires
            dot(a, b) == a.0 * b.0 + a.1 * b.1,
            dot(b, a) == b.0 * a.0 + b.1 * a.1,
    ;
    let (sa, sb) = (square(a), square(b));
    assert(sa * sb == sb * sa) by (nonlinear_arith);
    assert(dot(a, o) == -dot(a, b) && square(o) == sb) by (nonlinear_arith)
        requires
            dot(a, o) == a.0 * o.0 + a.1 * o.1,
            dot(a, b) == a.0 * b.0 + a.1 * b.1,
            square(o) == o.0 * o.0 + o.1 * o.1,
            sb == b.0 * b.0 + b.1 * b.1,
            o.0 == -b.0,
            o.1 == -b.1,
    ;
    let d = dot(a, b);
    assert((-d) * (-d) == d * d) by (nonlinear_arith);
}

/// North lies to the left of east; what lies to the left of a direction has that direction to its right.
pub proof fn law_left_and_right(a: (int, int), b: (int, int))
    ensures
        cross_product((1, 0), (0, 1)) > 0,
        cross_product(a, b) == -cross_product(b, a),
        cross_product(a, a) == 0,
        cross_product(a, (-b.0, -b.1)) == -cross_product(a, b),
{
    assert(a.0 * b.1 - a.1 * b.0 == -(b.0 * a.1 - b.1 * a.0)) by (nonlinear_arith);
    assert(a.0 * a.1 - a.1 * a.0 == 0) by (nonlinear_arith);
    assert(a.0 * (-b.1) - a.1 * (-b.0) == -(a.0 * b.1 - a.1 * b.0)) by (nonlinear_arith);
}

} // verus!
