//! The shapes of lanes: lines beside the middle of a road and curves through junctions.

use vstd::prelude::*;

use crate::map::polyline::{all_in_plane, find_between, in_plane, place_between, MAX_PLACE};
use crate::units::{
    between, closer_than, distance, floor_div, is_root, larger, root, smaller, span,
    square_distance, square_root, FULL,
};

verus! {

/// How far the ends of a connector are set back from the junction.
pub const CONNECTOR_ENDPOINT_INSET: i64 = 7_000_000;

/// The length of the handles of a connector.
pub const CONNECTOR_CUBIC_HANDLE: i64 = 5_000_000;

/// How far the ends of a connector are pulled apart where they nearly meet.
pub const CONNECTOR_NUDGE: i64 = 3_000_000;

/// The largest coordinate of a node beside which lanes are laid out.
pub const HALF_PLACE: i64 = 0x1000_0000_0000;

/// Whether lanes can be laid out beside a place.
pub open spec fn in_half_plane(p: (i64, i64)) -> bool {
    -HALF_PLACE <= p.0 <= HALF_PLACE && -HALF_PLACE <= p.1 <= HALF_PLACE
}

/// In how many parts the middle of a road is drawn.
pub const CENTRE_SAMPLES: usize = 12;

/// The direction of a difference as a vector of length one, in billionths; nothing for no
/// difference.
#[verifier::opaque]
pub open spec fn unit(x: int, y: int) -> (int, int) {
    let len = root(x * x + y * y);
    if len == 0 {
        (0, 0)
    } else {
        (x * FULL / len, y * FULL / len)
    }
}

/// The middle of a lane, to the right of the middle of the road: the lanes of a one-way road lie
/// round it, those of a two-way road beside it.
pub open spec fn lane_offset(lane: int, lanes: int, oneway: bool, width: int) -> int {
    ((2 * lane - (lanes - 1)) * width + if oneway {
        0
    } else {
        lanes * width
    }) / 2
}

/// The middle of a lane, to the right of the middle of the road.
pub fn lane_center_offset(lane: u8, lanes_total: u8, oneway: bool, lane_width: i64) -> (r: i64)
    requires
        0 <= lane_width <= 0x1_0000_0000,
    ensures
        r == lane_offset(lane as int, lanes_total as int, oneway, lane_width as int),
        -0x200_0000_0000 <= r <= 0x200_0000_0000,
{
    let n: i128 = 2 * lane as i128 - (lanes_total as i128 - 1);
    let w: i128 = lane_width as i128;
    proof {
        let (a, b, c) = (n as int, w as int, lanes_total as int);
        assert(-0x1ff * 0x1_0000_0000 <= a * b <= 0x1ff * 0x1_0000_0000) by (nonlinear_arith)
            requires
                -0x1ff <= a <= 0x1ff,
                0 <= b <= 0x1_0000_0000,
        ;
        assert(0 <= c * b <= 0xff * 0x1_0000_0000) by (nonlinear_arith)
            requires
                0 <= c <= 0xff,
                0 <= b <= 0x1_0000_0000,
        ;
    }
    let beside: i128 = if oneway {
        0
    } else {
        lanes_total as i128 * w
    };
    floor_div(n * w + beside, 2) as i64
}

/// The direction of a difference as a vector of length one.
pub fn unit_of(x: i64, y: i64) -> (r: (i64, i64))
    requires
        -0x4000_0000_0000_0000 <= x <= 0x4000_0000_0000_0000,
        -0x4000_0000_0000_0000 <= y <= 0x4000_0000_0000_0000,
    ensures
        (r.0 as int, r.1 as int) == unit(x as int, y as int),
        -FULL <= r.0 <= FULL,
        -FULL <= r.1 <= FULL,
{
    let (a, b): (i128, i128) = (x as i128, y as i128);
    proof {
        reveal(unit);
        lemma_square(x as int);
        lemma_square(y as int);
    }
    let n: i128 = a * a + b * b;
    let len: u64 = square_root(n as u128);
    if len == 0 {
        return (0, 0);
    }
    proof {
        lemma_not_longer(x as int, n as int, len as int);
        lemma_not_longer(y as int, n as int, len as int);
    }
    (
        floor_div(a * 1_000_000_000, len as i128) as i64,
        floor_div(b * 1_000_000_000, len as i128) as i64,
    )
}

proof fn lemma_square(x: int)
    requires
        -0x4000_0000_0000_0000 <= x <= 0x4000_0000_0000_0000,
    ensures
        0 <= x * x <= 0x1000_0000_0000_0000_0000_0000_0000_0000,
{
    assert(0 <= x * x <= 0x1000_0000_0000_0000_0000_0000_0000_0000) by (nonlinear_arith)
        requires
            -0x4000_0000_0000_0000 <= x <= 0x4000_0000_0000_0000,
    ;
}

proof fn lemma_not_longer(x: int, n: int, len: int)
    requires
        x * x <= n,
        is_root(n, len),
        len > 0,
    ensures
        -len <= x <= len,
        -FULL <= x * FULL / len <= FULL,
{
    assert(-len <= x <= len) by (nonlinear_arith)
        requires
            x * x <= n,
            n < (len + 1) * (len + 1),
            len > 0,
    ;
    assert(-FULL <= x * FULL / len <= FULL) by (nonlinear_arith)
        requires
            -len <= x <= len,
            len > 0,
            FULL == 1_000_000_000,
    ;
}

/// A place moved by a way along a direction.
#[verifier::opaque]
pub open spec fn moved_by(p: (int, int), u: (int, int), way: int) -> (int, int) {
    (p.0 + u.0 * way / (FULL as int), p.1 + u.1 * way / (FULL as int))
}

/// Moves a place by a way along a direction.
pub fn move_by(p: (i64, i64), u: (i64, i64), way: i64) -> (r: (i64, i64))
    requires
        -0x1000_0000_0000_0000 <= p.0 <= 0x1000_0000_0000_0000,
        -0x1000_0000_0000_0000 <= p.1 <= 0x1000_0000_0000_0000,
        -FULL <= u.0 <= FULL,
        -FULL <= u.1 <= FULL,
        -0x1000_0000_0000_0000 <= way <= 0x1000_0000_0000_0000,
    ensures
        (r.0 as int, r.1 as int) == moved_by(
            (p.0 as int, p.1 as int),
            (u.0 as int, u.1 as int),
            way as int,
        ),
        way >= 0 ==> p.0 - way <= r.0 <= p.0 + way && p.1 - way <= r.1 <= p.1 + way,
        way < 0 ==> p.0 + way <= r.0 <= p.0 - way && p.1 + way <= r.1 <= p.1 - way,
{
    proof {
        reveal(moved_by);
        lemma_part_bound(u.0 as int, way as int);
        lemma_part_bound(u.1 as int, way as int);
    }
    let x: i128 = floor_div(u.0 as i128 * way as i128, 1_000_000_000);
    let y: i128 = floor_div(u.1 as i128 * way as i128, 1_000_000_000);
    (p.0 + x as i64, p.1 + y as i64)
}

proof fn lemma_part_bound(u: int, way: int)
    requires
        -FULL <= u <= FULL,
        -0x1000_0000_0000_0000 <= way <= 0x1000_0000_0000_0000,
    ensures
        -0x1000_0000_0000_0000 * 1_000_000_000 <= u * way <= 0x1000_0000_0000_0000
            * 1_000_000_000,
        way >= 0 ==> -way <= u * way / (FULL as int) <= way,
        way < 0 ==> way <= u * way / (FULL as int) <= -way,
{
    let f = FULL as int;
    let m = if way >= 0 {
        way
    } else {
        -way
    };
    assert(-m * f <= u * way <= m * f) by (nonlinear_arith)
        requires
            -f <= u <= f,
            m == way && way >= 0 || m == -way && way < 0,
            f > 0,
    ;
    let x = u * way;
    assert(-m <= x / f <= m) by (nonlinear_arith)
        requires
            -m * f <= x <= m * f,
            f > 0,
    ;
    assert(m * f <= 0x1000_0000_0000_0000 * 1_000_000_000) by (nonlinear_arith)
        requires
            0 <= m <= 0x1000_0000_0000_0000,
            f == 1_000_000_000,
    ;
}

/// Which way a line goes at place `i`: from the place before to the place after it, as far as they
/// are there.
pub open spec fn tangent_at(points: Seq<(i64, i64)>, i: int) -> (int, int) {
    let a = if i == 0 {
        points[0]
    } else {
        points[i - 1]
    };
    let b = if i + 1 == points.len() {
        points[i]
    } else {
        points[i + 1]
    };
    (b.0 - a.0, b.1 - a.1)
}

/// Whether two places differ by no more than an offset in either coordinate.
pub open spec fn near(p: (i64, i64), q: (i64, i64), offset: int) -> bool {
    let d = larger(offset, -offset);
    -d <= p.0 - q.0 <= d && -d <= p.1 - q.1 <= d
}

/// Place `i` of a line moved to the right by an offset.
pub open spec fn offset_place(points: Seq<(i64, i64)>, offset: int, i: int) -> (int, int) {
    let t = tangent_at(points, i);
    let u = unit(t.0, t.1);
    moved_by((points[i].0 as int, points[i].1 as int), (u.1, -u.0), offset)
}

/// A line moved to the right by an offset; a single place stays where it is.
pub fn offset_polyline(points: &Vec<(i64, i64)>, offset: i64) -> (r: Vec<(i64, i64)>)
    requires
        all_in_plane(points@),
        -MAX_PLACE <= offset <= MAX_PLACE,
    ensures
        points@.len() < 2 ==> r@ == points@,
        points@.len() >= 2 ==> r@.len() == points@.len() && forall|i: int|
            0 <= i < points@.len() ==> ((#[trigger] r@[i]).0 as int, r@[i].1 as int)
                == offset_place(points@, offset as int, i),
        r@.len() == points@.len(),
        forall|i: int|
            0 <= i < r@.len() ==> near((#[trigger] r@[i]), points@[i], offset as int),
{
    let mut out: Vec<(i64, i64)> = Vec::new();
    let n: usize = points.len();
    let mut i: usize = 0;
    while i < n
        invariant
            i <= n,
            n == points@.len(),
            all_in_plane(points@),
            -MAX_PLACE <= offset <= MAX_PLACE,
            out@.len() == i,
            n < 2 ==> out@ == points@.take(i as int),
            n >= 2 ==> forall|k: int|
                0 <= k < i ==> ((#[trigger] out@[k]).0 as int, out@[k].1 as int) == offset_place(
                    points@,
                    offset as int,
                    k,
                ),
            forall|k: int| 0 <= k < i ==> near((#[trigger] out@[k]), points@[k], offset as int),
        decreases n - i,
    {
        let p: (i64, i64) = points[i];
        if n < 2 {
            out.push(p);
            i = i + 1;
            assert(out@ =~= points@.take(i as int));
            continue ;
        }
        let a: (i64, i64) = if i == 0 {
            points[0]
        } else {
            points[i - 1]
        };
        let b: (i64, i64) = if i + 1 == n {
            points[i]
        } else {
            points[i + 1]
        };
        let u: (i64, i64) = unit_of(b.0 - a.0, b.1 - a.1);
        out.push(move_by(p, (u.1, -u.0), offset));
        i = i + 1;
    }
    assert(points@.take(n as int) =~= points@);
    out
}

/// The line of a lane of a road between two places.
pub open spec fn lane_line_place(a: (i64, i64), b: (i64, i64), offset: int, i: int) -> (int, int) {
    let u = unit(
        place_between(a, b, smaller(i + 1, 12) * FULL / 12).0 - place_between(
            a,
            b,
            larger(i - 1, 0) * FULL / 12,
        ).0,
        place_between(a, b, smaller(i + 1, 12) * FULL / 12).1 - place_between(
            a,
            b,
            larger(i - 1, 0) * FULL / 12,
        ).1,
    );
    moved_by(place_between(a, b, i * FULL / 12), (u.1, -u.0), offset)
}

/// The line of a lane of a road between two places: thirteen places, beside the middle of the road.
pub fn lane_line(a: (i64, i64), b: (i64, i64), offset: i64) -> (r: Vec<(i64, i64)>)
    requires
        in_plane(a),
        in_plane(b),
        -MAX_PLACE <= offset <= MAX_PLACE,
    ensures
        r@.len() == 13,
        forall|i: int|
            0 <= i < 13 ==> ((#[trigger] r@[i]).0 as int, r@[i].1 as int) == lane_line_place(
                a,
                b,
                offset as int,
                i,
            ),
        in_half_plane(a) && in_half_plane(b) && -HALF_PLACE <= offset <= HALF_PLACE ==> all_in_plane(
            r@,
        ),
{
    let mut middle: Vec<(i64, i64)> = Vec::new();
    let mut i: usize = 0;
    while i <= CENTRE_SAMPLES
        invariant
            i <= 13,
            in_plane(a),
            in_plane(b),
            middle@.len() == i,
            all_in_plane(middle@),
            forall|k: int|
                0 <= k < i ==> in_half_plane(a) && in_half_plane(b) ==> in_half_plane(
                    #[trigger] middle@[k],
                ),
            forall|k: int|
                0 <= k < i ==> ((#[trigger] middle@[k]).0 as int, middle@[k].1 as int)
                    == place_between(a, b, k * FULL / 12),
        decreases 13 - i,
    {
        let part: i64 = i as i64 * 1_000_000_000 / 12;
        middle.push(find_between(a, b, part));
        i = i + 1;
    }
    let out: Vec<(i64, i64)> = offset_polyline(&middle, offset);
    proof {
        if in_half_plane(a) && in_half_plane(b) && -HALF_PLACE <= offset <= HALF_PLACE {
            assert forall|k: int| 0 <= k < out@.len() implies in_plane(#[trigger] out@[k]) by {
                assert(near(out@[k], middle@[k], offset as int));
                assert(in_half_plane(middle@[k]));
            }
        }
        assert forall|k: int| 0 <= k < 13 implies ((#[trigger] out@[k]).0 as int, out@[k].1 as int)
            == lane_line_place(a, b, offset as int, k) by {
            let lo = if k == 0 {
                0
            } else {
                k - 1
            };
            let hi = if k + 1 == 13 {
                k
            } else {
                k + 1
            };
            assert((middle@[lo].0 as int, middle@[lo].1 as int) == place_between(
                a,
                b,
                lo * FULL / 12,
            ));
            assert((middle@[hi].0 as int, middle@[hi].1 as int) == place_between(
                a,
                b,
                hi * FULL / 12,
            ));
            assert((middle@[k].0 as int, middle@[k].1 as int) == place_between(
                a,
                b,
                k * FULL / 12,
            ));
        }
    }
    out
}

/// Where two lines through `p` and `q` with the directions `u` and `w` meet; nothing where they are
/// as good as parallel.
pub open spec fn lines_meet(
    p: (int, int),
    u: (int, int),
    q: (int, int),
    w: (int, int),
) -> Option<(int, int)> {
    let det = u.0 * w.1 - u.1 * w.0;
    let num = ((q.0 - p.0) * w.1 - (q.1 - p.1) * w.0) * FULL;
    if -1_000_000_000 < det < 1_000_000_000 {
        None
    } else {
        let t = if det > 0 {
            num / det
        } else {
            (-num) / (-det)
        };
        Some(moved_by(p, u, t))
    }
}

/// Where two lines with directions of length one meet.
pub fn line_intersection(p: (i64, i64), u: (i64, i64), q: (i64, i64), w: (i64, i64)) -> (r: Option<
    (i128, i128),
>)
    requires
        -0x4000_0000_0000 <= p.0 <= 0x4000_0000_0000,
        -0x4000_0000_0000 <= p.1 <= 0x4000_0000_0000,
        -0x4000_0000_0000 <= q.0 <= 0x4000_0000_0000,
        -0x4000_0000_0000 <= q.1 <= 0x4000_0000_0000,
        -FULL <= u.0 <= FULL,
        -FULL <= u.1 <= FULL,
        -FULL <= w.0 <= FULL,
        -FULL <= w.1 <= FULL,
    ensures
        lines_meet(
            (p.0 as int, p.1 as int),
            (u.0 as int, u.1 as int),
            (q.0 as int, q.1 as int),
            (w.0 as int, w.1 as int),
        ) == (match r {
            Some(x) => Some((x.0 as int, x.1 as int)),
            None => None,
        }),
{
    proof {
        reveal(moved_by);
        lemma_unit_product(u.0 as int, w.1 as int);
        lemma_unit_product(u.1 as int, w.0 as int);
        lemma_place_product(q.0 - p.0, w.1 as int);
        lemma_place_product(q.1 - p.1, w.0 as int);
    }
    let det: i128 = u.0 as i128 * w.1 as i128 - u.1 as i128 * w.0 as i128;
    if -1_000_000_000 < det && det < 1_000_000_000 {
        return None;
    }
    let dx: i128 = q.0 as i128 - p.0 as i128;
    let dy: i128 = q.1 as i128 - p.1 as i128;
    let num: i128 = (dx * w.1 as i128 - dy * w.0 as i128) * 1_000_000_000;
    let t: i128 = if det > 0 {
        floor_div(num, det)
    } else {
        floor_div(-num, -det)
    };
    proof {
        let (n, d, ti) = if det > 0 {
            (num as int, det as int, t as int)
        } else {
            (-(num as int), -(det as int), t as int)
        };
        assert(-0x2_0000_0000_0000 * 1_000_000_000 <= ti <= 0x2_0000_0000_0000 * 1_000_000_000)
            by (nonlinear_arith)
            requires
                ti == n / d,
                d >= 1_000_000_000,
                -0x2_0000_0000_0000 * 1_000_000_000 * 1_000_000_000 <= n <= 0x2_0000_0000_0000
                    * 1_000_000_000 * 1_000_000_000,
        ;
        lemma_way_product(u.0 as int, ti);
        lemma_way_product(u.1 as int, ti);
    }
    Some(
        (
            p.0 as i128 + floor_div(u.0 as i128 * t, 1_000_000_000),
            p.1 as i128 + floor_div(u.1 as i128 * t, 1_000_000_000),
        ),
    )
}

proof fn lemma_unit_product(a: int, b: int)
    requires
        -FULL <= a <= FULL,
        -FULL <= b <= FULL,
    ensures
        -1_000_000_000_000_000_000 <= a * b <= 1_000_000_000_000_000_000,
{
    assert(-1_000_000_000_000_000_000 <= a * b <= 1_000_000_000_000_000_000) by (nonlinear_arith)
        requires
            -1_000_000_000 <= a <= 1_000_000_000,
            -1_000_000_000 <= b <= 1_000_000_000,
    ;
}

proof fn lemma_place_product(a: int, b: int)
    requires
        -0x8000_0000_0000 <= a <= 0x8000_0000_0000,
        -FULL <= b <= FULL,
    ensures
        -0x8000_0000_0000 * 1_000_000_000 <= a * b <= 0x8000_0000_0000 * 1_000_000_000,
{
    assert(-0x8000_0000_0000 * 1_000_000_000 <= a * b <= 0x8000_0000_0000 * 1_000_000_000)
        by (nonlinear_arith)
        requires
            -0x8000_0000_0000 <= a <= 0x8000_0000_0000,
            -1_000_000_000 <= b <= 1_000_000_000,
    ;
}

proof fn lemma_way_product(u: int, t: int)
    requires
        -FULL <= u <= FULL,
        -0x2_0000_0000_0000 * 1_000_000_000 <= t <= 0x2_0000_0000_0000 * 1_000_000_000,
    ensures
        -0x2_0000_0000_0000 * 1_000_000_000 * 1_000_000_000 <= u * t <= 0x2_0000_0000_0000
            * 1_000_000_000 * 1_000_000_000,
        -0x2_0000_0000_0000 * 1_000_000_000 <= u * t / (FULL as int) <= 0x2_0000_0000_0000
            * 1_000_000_000,
{
    assert(-0x2_0000_0000_0000 * 1_000_000_000 * 1_000_000_000 <= u * t <= 0x2_0000_0000_0000
        * 1_000_000_000 * 1_000_000_000) by (nonlinear_arith)
        requires
            -1_000_000_000 <= u <= 1_000_000_000,
            -0x2_0000_0000_0000 * 1_000_000_000 <= t <= 0x2_0000_0000_0000 * 1_000_000_000,
    ;
}

/// A cubic curve by its four points.
#[derive(Clone, Copy, Debug, PartialEq, Eq)]
pub struct Cubic {
    pub p0: (i64, i64),
    pub p1: (i64, i64),
    pub p2: (i64, i64),
    pub p3: (i64, i64),
}

/// One coordinate of a cubic curve at part `i` of 40.
pub open spec fn cubic_at(p0: int, p1: int, p2: int, p3: int, i: int) -> int {
    let u = 40 - i;
    (u * u * u * p0 + 3 * (u * u * i) * p1 + 3 * (u * i * i) * p2 + i * i * i * p3) / 64_000
}

fn cubic_coordinate(p0: i64, p1: i64, p2: i64, p3: i64, i: i64) -> (r: i64)
    requires
        0 <= i <= 40,
    ensures
        r == cubic_at(p0 as int, p1 as int, p2 as int, p3 as int, i as int),
{
    let t: i128 = i as i128;
    let u: i128 = 40 - t;
    proof {
        lemma_small_cubes(u as int, t as int);
    }
    let (w0, w1, w2, w3): (i128, i128, i128, i128) = (
        u * u * u,
        3 * (u * u * t),
        3 * (u * t * t),
        t * t * t,
    );
    proof {
        lemma_weight(w0 as int, p0 as int);
        lemma_weight(w1 as int, p1 as int);
        lemma_weight(w2 as int, p2 as int);
        lemma_weight(w3 as int, p3 as int);
    }
    let sum: i128 = w0 * p0 as i128 + w1 * p1 as i128 + w2 * p2 as i128 + w3 * p3 as i128;
    floor_div(sum, 64_000) as i64
}

proof fn lemma_small_cubes(u: int, t: int)
    requires
        0 <= t <= 40,
        u == 40 - t,
    ensures
        0 <= u * u <= 1600,
        0 <= u * t <= 1600,
        0 <= t * t <= 1600,
        0 <= u * u * u <= 64_000,
        0 <= u * u * t <= 64_000,
        0 <= u * t * t <= 64_000,
        0 <= t * t * t <= 64_000,
        u * u * u + 3 * (u * u * t) + 3 * (u * t * t) + t * t * t == 64_000,
{
    assert(0 <= u * u <= 1600 && 0 <= u * t <= 1600 && 0 <= t * t <= 1600) by (nonlinear_arith)
        requires
            0 <= t <= 40,
            0 <= u <= 40,
    ;
    let (a, b, c) = (u * u, u * t, t * t);
    assert(0 <= a * u <= 64_000 && 0 <= a * t <= 64_000 && 0 <= b * t <= 64_000 && 0 <= c * t
        <= 64_000) by (nonlinear_arith)
        requires
            0 <= a <= 1600,
            0 <= b <= 1600,
            0 <= c <= 1600,
            0 <= t <= 40,
            0 <= u <= 40,
    ;
    assert(u * u * u + 3 * (u * u * t) + 3 * (u * t * t) + t * t * t == (u + t) * (u + t) * (u
        + t)) by (nonlinear_arith);
    let s = u + t;
    assert(s * s * s == 64_000) by (nonlinear_arith)
        requires
            s == 40,
    ;
}

proof fn lemma_weight(w: int, x: int)
    requires
        0 <= w <= 192_000,
        i64::MIN <= x <= i64::MAX,
    ensures
        -0x8000_0000_0000_0000 * w <= w * x <= 0x7fff_ffff_ffff_ffff * w,
{
    assert(-0x8000_0000_0000_0000 * w <= w * x <= 0x7fff_ffff_ffff_ffff * w) by (nonlinear_arith)
        requires
            0 <= w,
            -0x8000_0000_0000_0000 <= x <= 0x7fff_ffff_ffff_ffff,
    ;
}

impl Cubic {
    /// The place at part `i` of 40.
    pub open spec fn at(self, i: int) -> (int, int) {
        (
            cubic_at(
                self.p0.0 as int,
                self.p1.0 as int,
                self.p2.0 as int,
                self.p3.0 as int,
                i,
            ),
            cubic_at(
                self.p0.1 as int,
                self.p1.1 as int,
                self.p2.1 as int,
                self.p3.1 as int,
                i,
            ),
        )
    }

    /// The curve as a line of 41 places.
    pub fn sampled(&self) -> (r: Vec<(i64, i64)>)
        ensures
            r@.len() == 41,
            forall|i: int|
                0 <= i < 41 ==> ((#[trigger] r@[i]).0 as int, r@[i].1 as int) == self.at(i),
    {
        let mut out: Vec<(i64, i64)> = Vec::new();
        let mut i: i64 = 0;
        while i <= 40
            invariant
                0 <= i <= 41,
                out@.len() == i,
                forall|k: int|
                    0 <= k < i ==> ((#[trigger] out@[k]).0 as int, out@[k].1 as int) == self.at(k),
            decreases 41 - i,
        {
            out.push(
                (
                    cubic_coordinate(self.p0.0, self.p1.0, self.p2.0, self.p3.0, i),
                    cubic_coordinate(self.p0.1, self.p1.1, self.p2.1, self.p3.1, i),
                ),
            );
            i = i + 1;
        }
        out
    }
}

/// How far an end of a connector is set back on a step of the given length: seven metres, but no
/// more than 88 hundredths of the step.
pub open spec fn inset(length: int) -> int {
    smaller(CONNECTOR_ENDPOINT_INSET as int, length * 88 / 100)
}

/// The curve from one end, set back and pulled, to another.
pub open spec fn curve_between(
    p0: (int, int),
    u: (int, int),
    p3: (int, int),
    w: (int, int),
) -> ((int, int), (int, int), (int, int), (int, int)) {
    (
        p0,
        moved_by(p0, u, CONNECTOR_CUBIC_HANDLE as int),
        moved_by(p3, w, -CONNECTOR_CUBIC_HANDLE),
        p3,
    )
}

/// The direction at the end of a lane, where there is one; else the way to the next lane, and else
/// east.
pub open spec fn leaving(prev: (int, int), p0: (int, int), p3: (int, int)) -> (int, int) {
    let a = unit(p0.0 - prev.0, p0.1 - prev.1);
    let b = unit(p3.0 - p0.0, p3.1 - p0.1);
    if a != (0int, 0int) {
        a
    } else if b != (0int, 0int) {
        b
    } else {
        (FULL as int, 0)
    }
}

/// The points of the curve from the end of one lane to the start of another. Where the two are the
/// same place, missing directions are made up for and ends that nearly meet are pulled apart.
pub open spec fn connector_points(
    prev: (int, int),
    p0: (int, int),
    p3: (int, int),
    next: (int, int),
) -> ((int, int), (int, int), (int, int), (int, int)) {
    let back = inset(span(p0.0, p0.1, prev.0, prev.1));
    let ahead = inset(span(next.0, next.1, p3.0, p3.1));
    let end = unit(next.0 - p3.0, next.1 - p3.1);
    if p0 != p3 {
        let u = unit(p0.0 - prev.0, p0.1 - prev.1);
        curve_between(moved_by(p0, u, -back), u, moved_by(p3, end, ahead), end)
    } else {
        let u = leaving(prev, p0, p3);
        let w = if end != (0int, 0int) {
            end
        } else {
            u
        };
        let q0 = moved_by(p0, u, -back);
        let q3 = moved_by(p3, w, ahead);
        if span(q3.0, q3.1, q0.0, q0.1) < 1_500_000 {
            curve_between(
                moved_by(q0, u, -CONNECTOR_NUDGE),
                u,
                moved_by(q3, w, CONNECTOR_NUDGE as int),
                w,
            )
        } else {
            curve_between(q0, u, q3, w)
        }
    }
}

fn find_inset(length: i64) -> (r: i64)
    requires
        0 <= length,
    ensures
        r == inset(length as int),
        0 <= r <= CONNECTOR_ENDPOINT_INSET,
{
    let part: i128 = length as i128 * 88 / 100;
    if part < CONNECTOR_ENDPOINT_INSET as i128 {
        part as i64
    } else {
        CONNECTOR_ENDPOINT_INSET
    }
}

fn make_curve(p0: (i64, i64), u: (i64, i64), p3: (i64, i64), w: (i64, i64)) -> (r: Cubic)
    requires
        -0x1000_0000_0000_0000 <= p0.0 <= 0x1000_0000_0000_0000,
        -0x1000_0000_0000_0000 <= p0.1 <= 0x1000_0000_0000_0000,
        -0x1000_0000_0000_0000 <= p3.0 <= 0x1000_0000_0000_0000,
        -0x1000_0000_0000_0000 <= p3.1 <= 0x1000_0000_0000_0000,
        -FULL <= u.0 <= FULL,
        -FULL <= u.1 <= FULL,
        -FULL <= w.0 <= FULL,
        -FULL <= w.1 <= FULL,
    ensures
        r.points() == curve_between(
            (p0.0 as int, p0.1 as int),
            (u.0 as int, u.1 as int),
            (p3.0 as int, p3.1 as int),
            (w.0 as int, w.1 as int),
        ),
{
    Cubic {
        p0,
        p1: move_by(p0, u, CONNECTOR_CUBIC_HANDLE),
        p2: move_by(p3, w, -CONNECTOR_CUBIC_HANDLE),
        p3,
    }
}

impl Cubic {
    /// The four points as whole numbers.
    pub open spec fn points(self) -> ((int, int), (int, int), (int, int), (int, int)) {
        (
            (self.p0.0 as int, self.p0.1 as int),
            (self.p1.0 as int, self.p1.1 as int),
            (self.p2.0 as int, self.p2.1 as int),
            (self.p3.0 as int, self.p3.1 as int),
        )
    }
}

/// The last place of a line and the one before it; for a single place that place twice.
pub open spec fn end_of_line(points: Seq<(i64, i64)>) -> ((int, int), (int, int)) {
    let p = points.last();
    let q = if points.len() >= 2 {
        points[points.len() - 2]
    } else {
        p
    };
    ((q.0 as int, q.1 as int), (p.0 as int, p.1 as int))
}

/// The first place of a line and the one after it; for a single place that place twice.
pub open spec fn start_of_line(points: Seq<(i64, i64)>) -> ((int, int), (int, int)) {
    let p = points[0];
    let q = if points.len() >= 2 {
        points[1]
    } else {
        p
    };
    ((p.0 as int, p.1 as int), (q.0 as int, q.1 as int))
}

/// The curve from the end of one lane to the start of another; nothing where either has no places.
pub fn build_lane_connector_with_fallback(from: &Vec<(i64, i64)>, to: &Vec<(i64, i64)>) -> (r:
    Option<Cubic>)
    requires
        all_in_plane(from@),
        all_in_plane(to@),
    ensures
        r is Some == (from@.len() > 0 && to@.len() > 0),
        r matches Some(c) ==> c.points() == connector_points(
            end_of_line(from@).0,
            end_of_line(from@).1,
            start_of_line(to@).0,
            start_of_line(to@).1,
        ),
{
    if from.len() == 0 || to.len() == 0 {
        return None;
    }
    let p0: (i64, i64) = from[from.len() - 1];
    let prev: (i64, i64) = if from.len() >= 2 {
        from[from.len() - 2]
    } else {
        p0
    };
    let p3: (i64, i64) = to[0];
    let next: (i64, i64) = if to.len() >= 2 {
        to[1]
    } else {
        p3
    };
    let back: i64 = find_inset(distance(p0.0, p0.1, prev.0, prev.1));
    let ahead: i64 = find_inset(distance(next.0, next.1, p3.0, p3.1));
    let end: (i64, i64) = unit_of(next.0 - p3.0, next.1 - p3.1);
    let a: (i64, i64) = unit_of(p0.0 - prev.0, p0.1 - prev.1);
    if p0.0 != p3.0 || p0.1 != p3.1 {
        return Some(make_curve(move_by(p0, a, -back), a, move_by(p3, end, ahead), end));
    }
    let u: (i64, i64) = if a.0 != 0 || a.1 != 0 {
        a
    } else {
        let b: (i64, i64) = unit_of(p3.0 - p0.0, p3.1 - p0.1);
        if b.0 != 0 || b.1 != 0 {
            b
        } else {
            (FULL, 0)
        }
    };
    let w: (i64, i64) = if end.0 != 0 || end.1 != 0 {
        end
    } else {
        u
    };
    let q0: (i64, i64) = move_by(p0, u, -back);
    let q3: (i64, i64) = move_by(p3, w, ahead);
    if distance(q3.0, q3.1, q0.0, q0.1) < 1_500_000 {
        Some(make_curve(move_by(q0, u, -CONNECTOR_NUDGE), u, move_by(q3, w, CONNECTOR_NUDGE), w))
    } else {
        Some(make_curve(q0, u, q3, w))
    }
}

/// Where two segments cross, each a little extended; nothing for parallel ones.
pub open spec fn segments_cross(
    a: ((i64, i64), (i64, i64)),
    b: ((i64, i64), (i64, i64)),
) -> Option<(int, int)> {
    let r = (a.1.0 - a.0.0, a.1.1 - a.0.1);
    let s = (b.1.0 - b.0.0, b.1.1 - b.0.1);
    let d = (b.0.0 - a.0.0, b.0.1 - a.0.1);
    let den = r.0 * s.1 - r.1 * s.0;
    let tn = d.0 * s.1 - d.1 * s.0;
    let un = d.0 * r.1 - d.1 * r.0;
    let (n, t, u) = if den > 0 {
        (den, tn * FULL, un * FULL)
    } else {
        (-den, (-tn) * FULL, (-un) * FULL)
    };
    if den == 0 || t / n < -10_000 || t / n > FULL + 10_000 || u / n < -10_000 || u / n > FULL
        + 10_000 {
        None
    } else {
        Some((a.0.0 + r.0 * (t / n) / (FULL as int), a.0.1 + r.1 * (t / n) / (FULL as int)))
    }
}

proof fn lemma_step_product(a: int, b: int)
    requires
        -0x4000_0000_0000 <= a <= 0x4000_0000_0000,
        -0x4000_0000_0000 <= b <= 0x4000_0000_0000,
    ensures
        -0x1000_0000_0000_0000_0000_0000 <= a * b <= 0x1000_0000_0000_0000_0000_0000,
{
    assert(-0x1000_0000_0000_0000_0000_0000 <= a * b <= 0x1000_0000_0000_0000_0000_0000)
        by (nonlinear_arith)
        requires
            -0x4000_0000_0000 <= a <= 0x4000_0000_0000,
            -0x4000_0000_0000 <= b <= 0x4000_0000_0000,
    ;
}

/// Where two segments cross.
pub fn segment_intersection_xy(
    a: ((i64, i64), (i64, i64)),
    b: ((i64, i64), (i64, i64)),
) -> (r: Option<(i64, i64)>)
    requires
        in_plane(a.0),
        in_plane(a.1),
        in_plane(b.0),
        in_plane(b.1),
    ensures
        segments_cross(a, b) == (match r {
            Some(p) => Some((p.0 as int, p.1 as int)),
            None => None,
        }),
{
    let rx: i128 = a.1.0 as i128 - a.0.0 as i128;
    let ry: i128 = a.1.1 as i128 - a.0.1 as i128;
    let sx: i128 = b.1.0 as i128 - b.0.0 as i128;
    let sy: i128 = b.1.1 as i128 - b.0.1 as i128;
    let dx: i128 = b.0.0 as i128 - a.0.0 as i128;
    let dy: i128 = b.0.1 as i128 - a.0.1 as i128;
    proof {
        lemma_step_product(rx as int, sy as int);
        lemma_step_product(ry as int, sx as int);
        lemma_step_product(dx as int, sy as int);
        lemma_step_product(dy as int, sx as int);
        lemma_step_product(dx as int, ry as int);
        lemma_step_product(dy as int, rx as int);
    }
    let den: i128 = rx * sy - ry * sx;
    if den == 0 {
        return None;
    }
    let tn: i128 = dx * sy - dy * sx;
    let un: i128 = dx * ry - dy * rx;
    let (n, tt, uu): (i128, i128, i128) = if den > 0 {
        (den, tn, un)
    } else {
        (-den, -tn, -un)
    };
    let t: i128 = floor_div(tt * 1_000_000_000, n);
    let u: i128 = floor_div(uu * 1_000_000_000, n);
    if t < -10_000 || t > 1_000_010_000 || u < -10_000 || u > 1_000_010_000 {
        return None;
    }
    proof {
        lemma_cross_bound(rx as int, t as int);
        lemma_cross_bound(ry as int, t as int);
    }
    let x: i128 = floor_div(rx * t, 1_000_000_000);
    let y: i128 = floor_div(ry * t, 1_000_000_000);
    Some((a.0.0 + x as i64, a.0.1 + y as i64))
}

proof fn lemma_cross_bound(r: int, t: int)
    requires
        -0x4000_0000_0000 <= r <= 0x4000_0000_0000,
        -10_000 <= t <= 1_000_010_000,
    ensures
        -0x8000_0000_0000 * 1_000_000_000 <= r * t <= 0x8000_0000_0000 * 1_000_000_000,
{
    assert(-0x8000_0000_0000 * 1_000_000_000 <= r * t <= 0x8000_0000_0000 * 1_000_000_000)
        by (nonlinear_arith)
        requires
            -0x4000_0000_0000 <= r <= 0x4000_0000_0000,
            -10_000 <= t <= 1_000_010_000,
    ;
}

/// Whether two places are less than a distance apart.
pub open spec fn are_close(p: (i64, i64), q: (i64, i64), d: int) -> bool {
    square_distance(p.0 as int, p.1 as int, q.0 as int, q.1 as int) < d * d
}

/// A list of places with one more, which is merged with the first place that is close to it: the two
/// become the place half-way between them.
pub open spec fn with_place(list: Seq<(i64, i64)>, p: (i64, i64), d: int) -> Seq<(i64, i64)>
    decreases list.len(),
{
    if list.len() == 0 {
        seq![p]
    } else if are_close(list[0], p, d) {
        list.update(0, (((list[0].0 + p.0) / 2) as i64, ((list[0].1 + p.1) / 2) as i64))
    } else {
        seq![list[0]] + with_place(list.skip(1), p, d)
    }
}

/// Places with the close ones merged, one after the other.
pub open spec fn merged(list: Seq<(i64, i64)>, d: int) -> Seq<(i64, i64)>
    decreases list.len(),
{
    if list.len() == 0 {
        Seq::empty()
    } else {
        with_place(merged(list.drop_last(), d), list.last(), d)
    }
}

fn add_place(out: &mut Vec<(i64, i64)>, p: (i64, i64), d: i64)
    requires
        d >= 0,
    ensures
        final(out)@ == with_place(old(out)@, p, d as int),
{
    let ghost all = out@;
    let mut i: usize = 0;
    assert(all.skip(0) =~= all);
    assert(all.take(0) + with_place(all, p, d as int) =~= with_place(all, p, d as int));
    while i < out.len()
        invariant
            i <= out@.len(),
            out@ == all,
            all == old(out)@,
            d >= 0,
            with_place(all, p, d as int) == all.take(i as int) + with_place(
                all.skip(i as int),
                p,
                d as int,
            ),
        decreases out.len() - i,
    {
        let m: (i64, i64) = out[i];
        let ghost rest = all.skip(i as int);
        assert(rest[0] == m);
        assert(rest.skip(1) =~= all.skip(i + 1));
        if closer_than(m.0, m.1, p.0, p.1, d) {
            let x: i128 = floor_div(m.0 as i128 + p.0 as i128, 2);
            let y: i128 = floor_div(m.1 as i128 + p.1 as i128, 2);
            let q: (i64, i64) = (x as i64, y as i64);
            out[i] = q;
            proof {
                assert(out@ =~= all.update(i as int, q));
                assert(all.update(i as int, q) =~= all.take(i as int) + rest.update(0, q));
            }
            return ;
        }
        proof {
            let tail = with_place(all.skip(i + 1), p, d as int);
            assert(all.take(i as int) + (seq![m] + tail) =~= all.take(i + 1) + tail);
        }
        i = i + 1;
    }
    out.push(p);
    proof {
        assert(all.skip(i as int) =~= Seq::<(i64, i64)>::empty());
        assert(out@ =~= all.take(i as int) + seq![p]);
    }
}

/// Merges places that are closer than a distance.
pub fn merge_close_points(points: &Vec<(i64, i64)>, min_dist: i64) -> (r: Vec<(i64, i64)>)
    requires
        min_dist >= 0,
    ensures
        r@ == merged(points@, min_dist as int),
{
    let mut out: Vec<(i64, i64)> = Vec::new();
    let mut i: usize = 0;
    assert(points@.take(0) =~= Seq::<(i64, i64)>::empty());
    while i < points.len()
        invariant
            i <= points@.len(),
            min_dist >= 0,
            out@ == merged(points@.take(i as int), min_dist as int),
        decreases points.len() - i,
    {
        assert(points@.take(i + 1).drop_last() =~= points@.take(i as int));
        assert(points@.take(i + 1).last() == points@[i as int]);
        add_place(&mut out, points[i], min_dist);
        i = i + 1;
    }
    assert(points@.take(i as int) =~= points@);
    out
}

/// A connector starts at its first point and ends at its last.
pub proof fn law_cubic_ends(c: Cubic)
    ensures
        c.at(0) == (c.p0.0 as int, c.p0.1 as int),
        c.at(40) == (c.p3.0 as int, c.p3.1 as int),
{
    lemma_cubic_ends(c.p0.0 as int, c.p1.0 as int, c.p2.0 as int, c.p3.0 as int);
    lemma_cubic_ends(c.p0.1 as int, c.p1.1 as int, c.p2.1 as int, c.p3.1 as int);
}

proof fn lemma_cubic_ends(p0: int, p1: int, p2: int, p3: int)
    ensures
        cubic_at(p0, p1, p2, p3, 0) == p0,
        cubic_at(p0, p1, p2, p3, 40) == p3,
{
    assert(40int * 40 * 40 * p0 + 3 * (40int * 40 * 0) * p1 + 3 * (40int * 0 * 0) * p2 + 0int * 0
        * 0 * p3 == 64_000 * p0) by (nonlinear_arith);
    assert(0int * 0 * 0 * p0 + 3 * (0int * 0 * 40) * p1 + 3 * (0int * 40 * 40) * p2 + 40int * 40
        * 40 * p3 == 64_000 * p3) by (nonlinear_arith);
}

/// Merging never makes more places than there were.
pub proof fn law_merging_shrinks(list: Seq<(i64, i64)>, d: int)
    ensures
        merged(list, d).len() <= list.len(),
    decreases list.len(),
{
    if list.len() > 0 {
        law_merging_shrinks(list.drop_last(), d);
        lemma_with_place_len(merged(list.drop_last(), d), list.last(), d);
    }
}

proof fn lemma_with_place_len(list: Seq<(i64, i64)>, p: (i64, i64), d: int)
    ensures
        with_place(list, p, d).len() <= list.len() + 1,
    decreases list.len(),
{
    if list.len() > 0 && !are_close(list[0], p, d) {
        lemma_with_place_len(list.skip(1), p, d);
    }
}

/// The lanes of a two-way road lie to the right of its middle; of a one-way road the outermost lanes
/// lie as far from the middle on either side, up to rounding.
pub proof fn law_lanes_keep_right(lane: int, lanes: int, width: int)
    requires
        0 <= lane < lanes,
        width >= 2,
    ensures
        lane_offset(lane, lanes, false, width) > 0,
        -1 <= lane_offset(lanes - 1, lanes, true, width) + lane_offset(0, lanes, true, width) <= 0,
{
    assert((2 * lane - (lanes - 1)) * width + lanes * width == (2 * lane + 1) * width)
        by (nonlinear_arith);
    assert((2 * lane + 1) * width >= width) by (nonlinear_arith)
        requires
            lane >= 0,
            width >= 0,
    ;
    let a = (2 * (lanes - 1) - (lanes - 1)) * width;
    let b = (2 * 0 - (lanes - 1)) * width;
    assert(a + b == 0) by (nonlinear_arith)
        requires
            a == (2 * (lanes - 1) - (lanes - 1)) * width,
            b == (2 * 0 - (lanes - 1)) * width,
    ;
}

/// Lanes lie side by side, each a lane's width to the right of the one before; the leftmost lane of a
/// two-way road lies half a width to the right of its middle.
pub proof fn law_lanes_lie_side_by_side(lane: int, lanes: int, oneway: bool, width: int)
    ensures
        lane_offset(lane + 1, lanes, oneway, width) == lane_offset(lane, lanes, oneway, width)
            + width,
        lane_offset(0, lanes, false, width) == width / 2,
{
    let (k, m) = (2 * lane - (lanes - 1), 2 * (lane + 1) - (lanes - 1));
    assert(m * width == k * width + 2 * width) by (nonlinear_arith)
        requires
            m == k + 2,
    ;
    let z = 0 - (lanes - 1);
    assert(z * width + lanes * width == width) by (nonlinear_arith)
        requires
            z == 1 - lanes,
    ;
    assert(2 * 0 - (lanes - 1) == z);
}

/// The right of a line that runs east is south, and that of one that runs north is east.
pub proof fn law_offsets_go_right(points: Seq<(i64, i64)>, offset: int, i: int)
    requires
        0 <= i < points.len(),
    ensures
        tangent_at(points, i).0 > 0 && tangent_at(points, i).1 == 0 ==> offset_place(
            points,
            offset,
            i,
        ) == (points[i].0 as int, points[i].1 - offset),
        tangent_at(points, i).0 == 0 && tangent_at(points, i).1 > 0 ==> offset_place(
            points,
            offset,
            i,
        ) == (points[i].0 + offset, points[i].1 as int),
{
    reveal(moved_by);
    let t = tangent_at(points, i);
    let f: int = FULL as int;
    if t.0 > 0 && t.1 == 0 {
        lemma_unit_of_axis(t.0);
    }
    if t.0 == 0 && t.1 > 0 {
        lemma_unit_of_axis(t.1);
    }
    assert(f * offset / f == offset && (-f) * offset / f == -offset && 0 * offset / f == 0)
        by (nonlinear_arith)
        requires
            f > 0,
    ;
}

proof fn lemma_unit_of_axis(x: int)
    requires
        x > 0,
    ensures
        unit(x, 0) == (FULL as int, 0int),
        unit(0, x) == (0int, FULL as int),
{
    reveal(unit);
    let f: int = FULL as int;
    assert(is_root(x * x, x)) by (nonlinear_arith)
        requires
            x > 0,
    ;
    crate::units::lemma_root_unique(x * x, x);
    assert(x * x + 0 * 0 == x * x && 0 * 0 + x * x == x * x);
    assert(x * f / x == f && 0 * f / x == 0) by (nonlinear_arith)
        requires
            x > 0,
    ;
}

/// Whether two segments cross does not depend on which of them comes first.
pub proof fn law_crossing_is_mutual(
    a: ((i64, i64), (i64, i64)),
    b: ((i64, i64), (i64, i64)),
)
    ensures
        segments_cross(a, b) is Some <==> segments_cross(b, a) is Some,
{
    let r = (a.1.0 - a.0.0, a.1.1 - a.0.1);
    let s = (b.1.0 - b.0.0, b.1.1 - b.0.1);
    let d = (b.0.0 - a.0.0, b.0.1 - a.0.1);
    let e = (a.0.0 - b.0.0, a.0.1 - b.0.1);
    assert(s.0 * r.1 - s.1 * r.0 == -(r.0 * s.1 - r.1 * s.0)) by (nonlinear_arith);
    assert(e.0 * r.1 - e.1 * r.0 == -(d.0 * r.1 - d.1 * r.0)) by (nonlinear_arith)
        requires
            e.0 == -d.0,
            e.1 == -d.1,
    ;
    assert(e.0 * s.1 - e.1 * s.0 == -(d.0 * s.1 - d.1 * s.0)) by (nonlinear_arith)
        requires
            e.0 == -d.0,
            e.1 == -d.1,
    ;
}

/// Segments that start at one place and part there cross at that place; segments of one direction do
/// not cross at all.
pub proof fn law_where_segments_cross(p: (i64, i64), q: (i64, i64), o: (i64, i64))
    ensures
        (q.0 - p.0) * (o.1 - p.1) != (q.1 - p.1) * (o.0 - p.0) ==> segments_cross((p, q), (p, o))
            == Some((p.0 as int, p.1 as int)),
        q.0 - p.0 == o.0 - q.0 && q.1 - p.1 == o.1 - q.1 ==> segments_cross((p, q), (q, o)) is None,
{
    let r = (q.0 - p.0, q.1 - p.1);
    let s = (o.0 - p.0, o.1 - p.1);
    let den = r.0 * s.1 - r.1 * s.0;
    let n = if den > 0 {
        den
    } else {
        -den
    };
    if den != 0 {
        let f: int = FULL as int;
        assert((p.0 - p.0) * s.1 - (p.1 - p.1) * s.0 == 0 && (p.0 - p.0) * r.1 - (p.1 - p.1) * r.0
            == 0) by (nonlinear_arith);
        assert(0 * f / n == 0 && (-0) * f / n == 0) by (nonlinear_arith)
            requires
                n > 0,
        ;
        assert(r.0 * 0 / f == 0 && r.1 * 0 / f == 0) by (nonlinear_arith)
            requires
                f > 0,
        ;
    }
    assert(r.0 * r.1 - r.1 * r.0 == 0) by (nonlinear_arith);
}

/// Where a line that runs east and one that runs north meet: as far east as the one and as far north as
/// the other.
pub proof fn law_where_lines_meet(p: (int, int), q: (int, int))
    ensures
        lines_meet(p, (FULL as int, 0), q, (0, FULL as int)) == Some((q.0, p.1)),
        lines_meet(p, (FULL as int, 0), q, (0, -FULL)) == Some((q.0, p.1)),
        lines_meet(p, (FULL as int, 0), q, (FULL as int, 0)) is None,
        lines_meet(p, (0, FULL as int), q, (FULL as int, 0)) == Some((p.0, q.1)),
{
    reveal(moved_by);
    let f: int = 1_000_000_000;
    let (x, y) = (q.0 - p.0, q.1 - p.1);
    let g: int = 1_000_000_000_000_000_000;
    assert(f * f == g && f * (-f) == -g);
    assert(f * f - 0 * 0 == g && f * (-f) - 0 * 0 == -g && 0 * 0 - f * f == -g);
    assert((x * f - y * 0) * f == x * g) by (nonlinear_arith)
        requires
            f * f == g,
    ;
    assert((x * (-f) - y * 0) * f == -(x * g)) by (nonlinear_arith)
        requires
            f * f == g,
    ;
    assert((x * 0 - y * f) * f == -(y * g)) by (nonlinear_arith)
        requires
            f * f == g,
    ;
    assert(x * g / g == x && y * g / g == y) by (nonlinear_arith)
        requires
            g > 0,
    ;
    assert(f * x / f == x && f * y / f == y && 0 * x / f == 0 && 0 * y / f == 0)
        by (nonlinear_arith)
        requires
            f > 0,
    ;
    assert(-(-(x * g)) == x * g && -(-(y * g)) == y * g);
}

/// The ends of a connector are set back by seven metres, or on short steps by 88 hundredths of them.
pub proof fn law_insets(length: int)
    requires
        length >= 0,
    ensures
        0 <= inset(length) <= 7_000_000,
        100 * inset(length) <= 88 * length,
        88 * length >= 700_000_000 ==> inset(length) == 7_000_000,
        88 * length < 700_000_000 ==> 88 * length < 100 * (inset(length) + 1),
{
}

/// Places that are not close to each other stay as they are.
pub proof fn law_apart_places_stay(list: Seq<(i64, i64)>, d: int)
    requires
        forall|i: int, j: int|
            #![trigger list[i], list[j]]
            0 <= i < j < list.len() ==> !are_close(list[i], list[j], d),
    ensures
        merged(list, d) == list,
    decreases list.len(),
{
    if list.len() > 0 {
        let front = list.drop_last();
        let n = front.len() as int;
        assert forall|i: int, j: int|
            #![trigger front[i], front[j]]
            0 <= i < j < front.len() implies !are_close(front[i], front[j], d) by {
            assert(front[i] == list[i] && front[j] == list[j]);
        }
        law_apart_places_stay(front, d);
        assert forall|i: int| 0 <= i < front.len() implies !are_close(
            #[trigger] front[i],
            list[n],
            d,
        ) by {
            assert(front[i] == list[i]);
        }
        lemma_apart_is_added(front, list[n], d);
        assert(front.push(list[n]) =~= list);
    } else {
        assert(merged(list, d) =~= list);
    }
}

proof fn lemma_apart_is_added(list: Seq<(i64, i64)>, p: (i64, i64), d: int)
    requires
        forall|i: int| 0 <= i < list.len() ==> !are_close(#[trigger] list[i], p, d),
    ensures
        with_place(list, p, d) == list.push(p),
    decreases list.len(),
{
    if list.len() > 0 {
        let back = list.skip(1);
        assert forall|i: int| 0 <= i < back.len() implies !are_close(#[trigger] back[i], p, d) by {
            assert(back[i] == list[i + 1]);
        }
        assert(!are_close(list[0], p, d));
        lemma_apart_is_added(back, p, d);
        assert(seq![list[0]] + back.push(p) =~= list.push(p));
    } else {
        assert(seq![p] =~= list.push(p));
    }
}

} // verus!
