//! Integer units and the arithmetic on them.

use vstd::prelude::*;

verus! {

/// One metre, in micrometres.
pub const METRE: i64 = 1_000_000;

/// The full length of an edge, as a position along it.
pub const FULL: i64 = 1_000_000_000;

/// `x` brought into the range of a 64-bit number.
pub open spec fn saturated(x: int) -> int {
    if x < i64::MIN {
        i64::MIN as int
    } else if x > i64::MAX {
        i64::MAX as int
    } else {
        x
    }
}

/// The larger of two numbers.
pub open spec fn larger(a: int, b: int) -> int {
    if a >= b {
        a
    } else {
        b
    }
}

/// The smaller of two numbers.
pub open spec fn smaller(a: int, b: int) -> int {
    if a <= b {
        a
    } else {
        b
    }
}

/// `x` held between `lo` and `hi`.
pub open spec fn between(x: int, lo: int, hi: int) -> int {
    if x < lo {
        lo
    } else if x > hi {
        hi
    } else {
        x
    }
}

/// Brings a wide number into the 64-bit range.
pub fn saturate(x: i128) -> (r: i64)
    ensures
        r == saturated(x as int),
{
    if x < i64::MIN as i128 {
        i64::MIN
    } else if x > i64::MAX as i128 {
        i64::MAX
    } else {
        x as i64
    }
}

/// The larger of two numbers.
pub fn max_of(a: i64, b: i64) -> (r: i64)
    ensures
        r == larger(a as int, b as int),
{
    if a >= b {
        a
    } else {
        b
    }
}

/// The smaller of two numbers.
pub fn min_of(a: i64, b: i64) -> (r: i64)
    ensures
        r == smaller(a as int, b as int),
{
    if a <= b {
        a
    } else {
        b
    }
}

/// `x` held between `lo` and `hi`.
pub fn clamp_to(x: i64, lo: i64, hi: i64) -> (r: i64)
    ensures
        r == between(x as int, lo as int, hi as int),
{
    if x < lo {
        lo
    } else if x > hi {
        hi
    } else {
        x
    }
}

/// The square of the distance between two points of the plane.
pub open spec fn square_distance(ax: int, ay: int, bx: int, by: int) -> int {
    (ax - bx) * (ax - bx) + (ay - by) * (ay - by)
}

/// Whether two points are at most `r` apart.
pub fn within(ax: i64, ay: i64, bx: i64, by: i64, r: i64) -> (b: bool)
    requires
        r >= 0,
    ensures
        b == (square_distance(ax as int, ay as int, bx as int, by as int) <= r as int * r as int),
{
    let dx: i128 = ax as i128 - bx as i128;
    let dy: i128 = ay as i128 - by as i128;
    let w: i128 = r as i128;
    proof {
        lemma_square_bounds(dx as int, w as int);
        lemma_square_bounds(dy as int, w as int);
    }
    if dx > w || dx < -w || dy > w || dy < -w {
        return false;
    }
    proof {
        lemma_square_fits(dx as int);
        lemma_square_fits(dy as int);
        lemma_square_fits(w as int);
    }
    dx * dx + dy * dy <= w * w
}

/// Whether two points are less than `r` apart.
pub fn closer_than(ax: i64, ay: i64, bx: i64, by: i64, r: i64) -> (b: bool)
    requires
        r >= 0,
    ensures
        b == (square_distance(ax as int, ay as int, bx as int, by as int) < r as int * r as int),
{
    let dx: i128 = ax as i128 - bx as i128;
    let dy: i128 = ay as i128 - by as i128;
    let w: i128 = r as i128;
    proof {
        lemma_square_bounds(dx as int, w as int);
        lemma_square_bounds(dy as int, w as int);
    }
    if dx > w || dx < -w || dy > w || dy < -w {
        return false;
    }
    proof {
        lemma_square_fits(dx as int);
        lemma_square_fits(dy as int);
        lemma_square_fits(w as int);
    }
    dx * dx + dy * dy < w * w
}

/// A number outside `-w..=w` has a larger square than `w`; every square is non-negative.
proof fn lemma_square_bounds(d: int, w: int)
    requires
        w >= 0,
    ensures
        d * d >= 0,
        d > w || d < -w ==> d * d > w * w,
{
    assert(d * d >= 0) by (nonlinear_arith);
    if d > w {
        assert(d * d > w * w) by (nonlinear_arith)
            requires
                d > w,
                w >= 0,
        ;
    }
    if d < -w {
        assert(d * d > w * w) by (nonlinear_arith)
            requires
                d < -w,
                w >= 0,
        ;
    }
}

/// The square of a 64-bit magnitude fits well into 128 bits.
proof fn lemma_square_fits(d: int)
    requires
        -0x7fff_ffff_ffff_ffff <= d <= 0x7fff_ffff_ffff_ffff,
    ensures
        0 <= d * d < 0x4000_0000_0000_0000_0000_0000_0000_0000,
{
    assert(0 <= d * d < 0x4000_0000_0000_0000_0000_0000_0000_0000) by (nonlinear_arith)
        requires
            -0x7fff_ffff_ffff_ffff <= d <= 0x7fff_ffff_ffff_ffff,
    ;
}

/// The distance left to the end of an edge of the given length.
pub open spec fn remaining_length(length: int, progress: int) -> int {
    length * (FULL - progress) / (FULL as int)
}

/// The distance left to the end of an edge, rounded down.
pub fn remaining(length: i64, progress: i64) -> (r: i64)
    ensures
        r == saturated(remaining_length(length as int, progress as int)),
{
    let left: i128 = FULL as i128 - progress as i128;
    let len: i128 = length as i128;
    proof {
        lemma_product_fits(len as int, left as int);
    }
    let product: i128 = len * left;
    saturate(floor_div(product, FULL as i128))
}

/// A product of two 64-bit magnitudes, one of them slightly larger, fits into 128 bits.
proof fn lemma_product_fits(a: int, b: int)
    requires
        -0x8000_0000_0000_0000 <= a <= 0x8000_0000_0000_0000,
        -0x9000_0000_0000_0000 <= b <= 0x9000_0000_0000_0000,
    ensures
        -0x7000_0000_0000_0000_0000_0000_0000_0000 <= a * b
            <= 0x7000_0000_0000_0000_0000_0000_0000_0000,
{
    assert(-0x7000_0000_0000_0000_0000_0000_0000_0000 <= a * b
        <= 0x7000_0000_0000_0000_0000_0000_0000_0000) by (nonlinear_arith)
        requires
            -0x8000_0000_0000_0000 <= a <= 0x8000_0000_0000_0000,
            -0x9000_0000_0000_0000 <= b <= 0x9000_0000_0000_0000,
    ;
}

/// Division rounded towards negative infinity.
pub fn floor_div(a: i128, d: i128) -> (r: i128)
    requires
        d > 0,
    ensures
        r == a as int / d as int,
{
    if a >= 0 {
        a / d
    } else {
        let n: i128 = -(a + 1);
        let q: i128 = n / d;
        proof {
            let ai = a as int;
            let di = d as int;
            let ni = n as int;
            let qi = q as int;
            assert(ni == -(ai + 1));
            assert(qi == ni / di);
            assert(ai / di == -qi - 1) by (nonlinear_arith)
                requires
                    di > 0,
                    ni >= 0,
                    ni == -(ai + 1),
                    qi == ni / di,
            ;
            assert(qi <= ni) by (nonlinear_arith)
                requires
                    di > 0,
                    ni >= 0,
                    qi == ni / di,
            ;
        }
        -q - 1
    }
}

/// Whether `r` is the square root of `n`, rounded down.
pub open spec fn is_root(n: int, r: int) -> bool {
    0 <= r && r * r <= n < (r + 1) * (r + 1)
}

/// The square root of `n`, rounded down.
pub open spec fn root(n: int) -> int {
    choose|r: int| is_root(n, r)
}

/// There is only one square root.
pub proof fn lemma_root_unique(n: int, r: int)
    requires
        is_root(n, r),
    ensures
        root(n) == r,
{
    let s = root(n);
    assert(is_root(n, s));
    if s < r {
        assert((s + 1) * (s + 1) <= r * r) by (nonlinear_arith)
            requires
                0 <= s,
                s + 1 <= r,
        ;
    }
    if r < s {
        assert((r + 1) * (r + 1) <= s * s) by (nonlinear_arith)
            requires
                0 <= r,
                r + 1 <= s,
        ;
    }
}

/// The square root of `n`, rounded down.
pub fn square_root(n: u128) -> (r: u64)
    ensures
        r == root(n as int),
        is_root(n as int, r as int),
{
    let mut lo: u128 = 0;
    let mut hi: u128 = 0x1_0000_0000_0000_0000;
    assert(n < 0x1_0000_0000_0000_0000 * 0x1_0000_0000_0000_0000);
    while hi - lo > 1
        invariant
            0 <= lo < hi <= 0x1_0000_0000_0000_0000,
            lo * lo <= n,
            n < hi * hi,
        decreases hi - lo,
    {
        let mid: u128 = lo + (hi - lo) / 2;
        assert(0 <= mid * mid <= 0xffff_ffff_ffff_ffff * 0xffff_ffff_ffff_ffff)
            by (nonlinear_arith)
            requires
                0 <= mid <= 0xffff_ffff_ffff_ffff,
        ;
        if mid * mid <= n {
            lo = mid;
        } else {
            hi = mid;
        }
    }
    proof {
        assert(hi == lo + 1);
        lemma_root_unique(n as int, lo as int);
    }
    lo as u64
}

/// The largest distance that is told apart from larger ones.
pub const MAX_SPAN: i64 = 0x4000_0000_0000_0000;

/// The distance between two points of the plane, rounded down.
pub open spec fn span(ax: int, ay: int, bx: int, by: int) -> int {
    if ax - bx >= MAX_SPAN || bx - ax >= MAX_SPAN || ay - by >= MAX_SPAN || by - ay >= MAX_SPAN {
        MAX_SPAN as int
    } else {
        smaller(root(square_distance(ax, ay, bx, by)), MAX_SPAN as int)
    }
}

/// Every number that is not negative has a square root.
pub proof fn lemma_root_exists(n: int)
    requires
        n >= 0,
    ensures
        is_root(n, root(n)),
{
    lemma_root_from(n, 0);
}

proof fn lemma_root_from(n: int, r: int)
    requires
        n >= 0,
        r >= 0,
        r * r <= n,
    ensures
        exists|x: int| is_root(n, x),
    decreases n - r,
{
    if n < (r + 1) * (r + 1) {
        assert(is_root(n, r));
    } else {
        assert(r + 1 <= n) by (nonlinear_arith)
            requires
                (r + 1) * (r + 1) <= n,
                r >= 0,
        ;
        lemma_root_from(n, r + 1);
    }
}

/// Distances are not negative.
pub proof fn lemma_span_not_negative(ax: int, ay: int, bx: int, by: int)
    ensures
        span(ax, ay, bx, by) >= 0,
{
    let n = square_distance(ax, ay, bx, by);
    assert(n >= 0) by {
        let (dx, dy) = (ax - bx, ay - by);
        assert(dx * dx >= 0 && dy * dy >= 0) by (nonlinear_arith);
    }
    lemma_root_exists(n);
}

/// The distance between two points of the plane, rounded down.
pub fn distance(ax: i64, ay: i64, bx: i64, by: i64) -> (r: i64)
    ensures
        r == span(ax as int, ay as int, bx as int, by as int),
        0 <= r <= MAX_SPAN,
{
    let dx: i128 = ax as i128 - bx as i128;
    let dy: i128 = ay as i128 - by as i128;
    let far: i128 = MAX_SPAN as i128;
    if dx >= far || dx <= -far || dy >= far || dy <= -far {
        return MAX_SPAN;
    }
    proof {
        lemma_square_fits(dx as int);
        lemma_square_fits(dy as int);
    }
    let n: i128 = dx * dx + dy * dy;
    let r: u64 = square_root(n as u128);
    if r <= MAX_SPAN as u64 {
        r as i64
    } else {
        MAX_SPAN
    }
}

/// The place of a point in the plane, east and north in micrometres, from its latitude and
/// longitude in billionths of a degree: a degree is 111 320 m north or 71 700 m east.
pub open spec fn plane(lat: int, lng: int) -> (int, int) {
    (saturated(lng * 717 / 10), saturated(lat * 11132 / 100))
}

/// The place of a point in the plane.
pub fn to_plane(lat: i64, lng: i64) -> (r: (i64, i64))
    ensures
        (r.0 as int, r.1 as int) == plane(lat as int, lng as int),
{
    (
        saturate(floor_div(lng as i128 * 717, 10)),
        saturate(floor_div(lat as i128 * 11132, 100)),
    )
}

/// The latitude and longitude of a place in the plane.
pub open spec fn globe(x: int, y: int) -> (int, int) {
    (saturated(y * 100 / 11132), saturated(x * 10 / 717))
}

/// The latitude and longitude of a place in the plane.
pub fn from_plane(x: i128, y: i128) -> (r: (i64, i64))
    requires
        -0x1_0000_0000_0000_0000_0000_0000 <= x <= 0x1_0000_0000_0000_0000_0000_0000,
        -0x1_0000_0000_0000_0000_0000_0000 <= y <= 0x1_0000_0000_0000_0000_0000_0000,
    ensures
        (r.0 as int, r.1 as int) == globe(x as int, y as int),
{
    (saturate(floor_div(y * 100, 11132)), saturate(floor_div(x * 10, 717)))
}

/// A part of `length`, with `part` in billionths of it, rounded down.
pub open spec fn part_of(length: int, part: int) -> int {
    length * part / (FULL as int)
}

/// A part of a length.
pub fn take_part(length: i64, part: i64) -> (r: i64)
    ensures
        r == saturated(part_of(length as int, part as int)),
{
    proof {
        lemma_product_fits(length as int, part as int);
    }
    saturate(floor_div(length as i128 * part as i128, FULL as i128))
}

/// What part of `length` the piece `x` is, in billionths; nothing of an empty length.
pub open spec fn share(x: int, length: int) -> int {
    if length <= 0 {
        0
    } else {
        x * FULL / length
    }
}

/// What part of a length a piece is.
pub fn share_of(x: i64, length: i64) -> (r: i64)
    ensures
        r == saturated(share(x as int, length as int)),
{
    if length <= 0 {
        return 0;
    }
    proof {
        lemma_product_fits(x as int, FULL as int);
    }
    saturate(floor_div(x as i128 * FULL as i128, length as i128))
}

/// `a` times `b` in millionths, rounded down.
pub open spec fn scaled(a: int, b: int) -> int {
    a * b / 1_000_000
}

/// `a` times `b` in millionths.
pub fn scale(a: i64, b: i64) -> (r: i64)
    ensures
        r == saturated(scaled(a as int, b as int)),
{
    proof {
        lemma_product_fits(a as int, b as int);
    }
    saturate(floor_div(a as i128 * b as i128, 1_000_000))
}

/// The larger of two numbers is one of them and not below the other, the smaller one is the other one.
pub proof fn law_larger_and_smaller(a: int, b: int)
    ensures
        larger(a, b) >= a && larger(a, b) >= b,
        smaller(a, b) <= a && smaller(a, b) <= b,
        larger(a, b) == a || larger(a, b) == b,
        larger(a, b) + smaller(a, b) == a + b,
{
}

/// A number that is held in a range lies in it, and one that lies in it stays as it is; the order of
/// numbers is kept.
pub proof fn law_held_in_range(x: int, y: int, lo: int, hi: int)
    requires
        lo <= hi,
        x <= y,
    ensures
        lo <= between(x, lo, hi) <= between(y, lo, hi) <= hi,
        lo <= x <= hi ==> between(x, lo, hi) == x,
        x <= lo ==> between(x, lo, hi) == lo,
        x >= hi ==> between(x, lo, hi) == hi,
        saturated(x) == between(x, i64::MIN as int, i64::MAX as int),
{
}

/// The way along an edge up to a place and the way that is left from there are together the length of
/// the edge, but for rounding; at the start all is left and at the end nothing.
pub proof fn law_way_along_edge(length: int, progress: int)
    requires
        0 <= length,
        0 <= progress <= 1_000_000_000,
    ensures
        length - 1 <= part_of(length, progress) + remaining_length(length, progress) <= length,
        0 <= part_of(length, progress),
        0 <= remaining_length(length, progress),
        part_of(length, 0) == 0 && remaining_length(length, 0) == length,
        part_of(length, 1_000_000_000) == length && remaining_length(length, 1_000_000_000) == 0,
{
    let f: int = 1_000_000_000;
    let (x, y) = (length * progress, length * (f - progress));
    assert(x >= 0 && y >= 0 && x + y == length * f) by (nonlinear_arith)
        requires
            0 <= length,
            0 <= progress <= f,
            x == length * progress,
            y == length * (f - progress),
    ;
    assert(length * 0 == 0 && length * (f - f) == 0 && length * (f - 0) == length * f)
        by (nonlinear_arith);
}

/// What part of a length a piece of it is, taken of the length, is the piece, but for rounding.
pub proof fn law_share_of_length(x: int, length: int)
    requires
        0 <= x <= length,
        0 < length,
    ensures
        0 <= share(x, length) <= 1_000_000_000,
        part_of(length, share(x, length)) <= x,
        x * 1_000_000_000 < (share(x, length) + 1) * length,
        share(0, length) == 0,
        share(length, length) == 1_000_000_000,
{
    let s = share(x, length);
    let n = x * 1_000_000_000;
    assert(s * length <= n < (s + 1) * length) by (nonlinear_arith)
        requires
            length > 0,
            s == n / length,
    ;
    assert(0 <= s <= 1_000_000_000) by (nonlinear_arith)
        requires
            length > 0,
            0 <= x <= length,
            n == x * 1_000_000_000,
            s == n / length,
    ;
    assert(length * s == s * length) by (nonlinear_arith);
    assert(length * 1_000_000_000 / length == 1_000_000_000) by (nonlinear_arith)
        requires
            length > 0,
    ;
}

/// A degree of latitude is 111 320 m to the north and one of longitude 71 700 m to the east, and a
/// place in the plane leads back to where it came from, but for rounding by two billionths of a degree.
pub proof fn law_plane_and_globe(lat: int, lng: int)
    requires
        -1_000_000_000_000 <= lat <= 1_000_000_000_000,
        -1_000_000_000_000 <= lng <= 1_000_000_000_000,
    ensures
        plane(lat + 1_000_000_000, lng) == (plane(lat, lng).0, plane(lat, lng).1 + 111_320_000_000),
        plane(lat, lng + 1_000_000_000) == (plane(lat, lng).0 + 71_700_000_000, plane(lat, lng).1),
        plane(0, 0) == (0int, 0int),
        ({
            let back = globe(plane(lat, lng).0, plane(lat, lng).1);
            lat - 2 <= back.0 <= lat && lng - 2 <= back.1 <= lng
        }),
{
}

/// A factor of one changes nothing, and factors in millionths multiply.
pub proof fn law_scaled(a: int, b: int)
    requires
        0 <= a,
        0 <= b,
    ensures
        scaled(a, 1_000_000) == a,
        scaled(a, 0) == 0,
        scaled(a, b) * 1_000_000 <= a * b < (scaled(a, b) + 1) * 1_000_000,
{
    assert(a * 0 == 0) by (nonlinear_arith);
}

} // verus!
