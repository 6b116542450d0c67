//! The line that is drawn for a route: pieces turned the right way round and freed of spikes.

use vstd::prelude::*;

use crate::map::curves::{unit, unit_of};
use crate::map::polyline::{all_in_plane, in_plane, place_between};
use crate::units::{between, floor_div, root, square_root, FULL};

verus! {

/// The distance between two places of a drawn connector.
pub const CONNECTOR_SAMPLE_STEP: i64 = 550_000;

/// The least number of parts in which a connector is drawn.
pub const MIN_CONNECTOR_INTERVALS: usize = 11;

/// The largest number of parts in which a connector is drawn.
pub const MAX_CONNECTOR_INTERVALS: usize = 140;

/// Two places of the turns ahead that differ by less than this, in billionths of a degree, are one.
pub const SAME_PLACE: u16 = 200;

/// Two places of a lane route that differ by less than this, in billionths of a degree, are one.
pub const SAME_LANE_PLACE: u16 = 10;

/// The most places that are taken off the start of a lane because they lead back.
pub const MAX_BACKTRACK: usize = 96;

/// The most places that are taken off the start of a lane because they lie behind a connector.
pub const MAX_SPIKE: usize = 64;

/// In how many parts a connector of the given length is drawn.
pub open spec fn connector_parts(total: int) -> int {
    let n = if total <= 0 {
        0
    } else {
        (total + CONNECTOR_SAMPLE_STEP - 1) / (CONNECTOR_SAMPLE_STEP as int)
    };
    between(n, MIN_CONNECTOR_INTERVALS as int, MAX_CONNECTOR_INTERVALS as int)
}

/// In how many parts a connector of the given length is drawn.
pub fn connector_polyline_segment_count_for_arc(total: i64) -> (r: usize)
    ensures
        r == connector_parts(total as int),
{
    let n: i128 = if total <= 0 {
        0
    } else {
        (total as i128 + 549_999) / 550_000
    };
    if n < 11 {
        MIN_CONNECTOR_INTERVALS
    } else if n > 140 {
        MAX_CONNECTOR_INTERVALS
    } else {
        n as usize
    }
}

/// Whether two places in the plane are one: both in longitude and in latitude they differ by less than
/// some billionths of a degree.
pub open spec fn same_place(p: (i64, i64), q: (i64, i64), within: int) -> bool {
    &&& -within * 717 < (p.0 - q.0) * 10 < within * 717
    &&& -within * 11132 < (p.1 - q.1) * 100 < within * 11132
}

/// A route with a place added, unless it is the one at its end.
pub open spec fn with_place(points: Seq<(i64, i64)>, p: (i64, i64), within: int) -> Seq<
    (i64, i64),
> {
    if points.len() > 0 && same_place(points.last(), p, within) {
        points
    } else {
        points.push(p)
    }
}

/// Adds a place to a route unless it is the one at its end.
pub fn push_route_dedupe(points: &mut Vec<(i64, i64)>, p: (i64, i64), within: u16)
    ensures
        final(points)@ == with_place(old(points)@, p, within as int),
{
    if points.len() > 0 {
        let last: (i64, i64) = points[points.len() - 1];
        let dx: i128 = (last.0 as i128 - p.0 as i128) * 10;
        let dy: i128 = (last.1 as i128 - p.1 as i128) * 100;
        let x: i128 = within as i128 * 717;
        let y: i128 = within as i128 * 11132;
        if -x < dx && dx < x && -y < dy && dy < y {
            return ;
        }
    }
    points.push(p);
}

/// A route with the places of a piece added one after the other.
pub open spec fn with_places(points: Seq<(i64, i64)>, seg: Seq<(i64, i64)>, within: int) -> Seq<
    (i64, i64),
>
    decreases seg.len(),
{
    if seg.len() == 0 {
        points
    } else {
        with_place(with_places(points, seg.drop_last(), within), seg.last(), within)
    }
}

fn push_all(points: &mut Vec<(i64, i64)>, seg: &Vec<(i64, i64)>, within: u16)
    requires
        all_in_plane(old(points)@),
        all_in_plane(seg@),
        old(points)@.len() > 0,
    ensures
        final(points)@ == with_places(old(points)@, seg@, within as int),
        all_in_plane(final(points)@),
        final(points)@.len() > 0,
        final(points)@[0] == old(points)@[0],
{
    let mut i: usize = 0;
    assert(seg@.take(0) =~= Seq::<(i64, i64)>::empty());
    while i < seg.len()
        invariant
            i <= seg@.len(),
            all_in_plane(points@),
            all_in_plane(seg@),
            points@.len() > 0,
            points@[0] == old(points)@[0],
            points@ == with_places(old(points)@, seg@.take(i as int), within as int),
        decreases seg.len() - i,
    {
        assert(seg@.take(i + 1).drop_last() =~= seg@.take(i as int));
        assert(seg@.take(i + 1).last() == seg@[i as int]);
        push_route_dedupe(points, seg[i], within);
        i = i + 1;
    }
    assert(seg@.take(i as int) =~= seg@);
}

/// The direction of a step of at least six centimetres.
pub open spec fn direction_of(x: int, y: int) -> Option<(int, int)> {
    if root(x * x + y * y) < 60_000 {
        None
    } else {
        Some(unit(x, y))
    }
}

/// The direction from `a` to `b`.
pub open spec fn direction_between(a: (i64, i64), b: (i64, i64)) -> Option<(int, int)> {
    direction_of(b.0 - a.0, b.1 - a.1)
}

/// The direction from one place to another, where they are at least six centimetres apart.
pub fn direction_from(a: (i64, i64), b: (i64, i64)) -> (r: Option<(i64, i64)>)
    requires
        in_plane(a),
        in_plane(b),
    ensures
        direction_between(a, b) == (match r {
            Some(u) => Some((u.0 as int, u.1 as int)),
            None => None,
        }),
        r matches Some(u) ==> -FULL <= u.0 <= FULL && -FULL <= u.1 <= FULL,
{
    let x: i64 = b.0 - a.0;
    let y: i64 = b.1 - a.1;
    proof {
        lemma_square_fits(x as int);
        lemma_square_fits(y as int);
    }
    let n: i128 = x as i128 * x as i128 + y as i128 * y as i128;
    if square_root(n as u128) < 60_000 {
        None
    } else {
        Some(unit_of(x, y))
    }
}

proof fn lemma_square_fits(x: int)
    requires
        -0x4000_0000_0000 <= x <= 0x4000_0000_0000,
    ensures
        0 <= x * x <= 0x1000_0000_0000_0000_0000_0000,
{
    assert(0 <= x * x <= 0x1000_0000_0000_0000_0000_0000) by (nonlinear_arith)
        requires
            -0x4000_0000_0000 <= x <= 0x4000_0000_0000,
    ;
}

/// The dot product of two directions.
pub open spec fn dot_of(a: (int, int), b: (int, int)) -> int {
    a.0 * b.0 + a.1 * b.1
}

fn find_dot(a: (i64, i64), b: (i64, i64)) -> (r: i128)
    requires
        -0x4000_0000_0000 <= a.0 <= 0x4000_0000_0000,
        -0x4000_0000_0000 <= a.1 <= 0x4000_0000_0000,
        -FULL <= b.0 <= FULL,
        -FULL <= b.1 <= FULL,
    ensures
        r == dot_of((a.0 as int, a.1 as int), (b.0 as int, b.1 as int)),
{
    proof {
        lemma_dot_part(a.0 as int, b.0 as int);
        lemma_dot_part(a.1 as int, b.1 as int);
    }
    a.0 as i128 * b.0 as i128 + a.1 as i128 * b.1 as i128
}

proof fn lemma_dot_part(x: int, y: int)
    requires
        -0x4000_0000_0000 <= x <= 0x4000_0000_0000,
        -FULL <= y <= FULL,
    ensures
        -0x4000_0000_0000 * 1_000_000_000 <= x * y <= 0x4000_0000_0000 * 1_000_000_000,
{
    assert(-0x4000_0000_0000 * 1_000_000_000 <= x * y <= 0x4000_0000_0000 * 1_000_000_000)
        by (nonlinear_arith)
        requires
            -0x4000_0000_0000 <= x <= 0x4000_0000_0000,
            -1_000_000_000 <= y <= 1_000_000_000,
    ;
}

/// Whether a piece runs against a direction.
pub open spec fn runs_against(seg: Seq<(i64, i64)>, reference: Option<(i64, i64)>) -> bool {
    match reference {
        Some(r) => seg.len() >= 2 && match direction_between(seg[0], seg[1]) {
            Some(t) => dot_of(t, (r.0 as int, r.1 as int)) < -20_000_000_000_000_000,
            None => false,
        },
        None => false,
    }
}

/// Turns a piece round that runs against a direction of length one.
pub fn orient_polyline_forward(seg: &mut Vec<(i64, i64)>, reference: Option<(i64, i64)>)
    requires
        all_in_plane(old(seg)@),
        reference matches Some(r) ==> -FULL <= r.0 <= FULL && -FULL <= r.1 <= FULL,
    ensures
        final(seg)@ == if runs_against(old(seg)@, reference) {
            old(seg)@.reverse()
        } else {
            old(seg)@
        },
{
    let r: (i64, i64) = match reference {
        Some(r) => r,
        None => {
            return ;
        },
    };
    if seg.len() < 2 {
        return ;
    }
    let t: (i64, i64) = match direction_from(seg[0], seg[1]) {
        Some(t) => t,
        None => {
            return ;
        },
    };
    if find_dot(t, r) < -20_000_000_000_000_000 {
        let mut out: Vec<(i64, i64)> = Vec::new();
        let mut i: usize = seg.len();
        while i > 0
            invariant
                i <= seg@.len(),
                seg@ == old(seg)@,
                out@ == seg@.reverse().take(seg@.len() - i),
            decreases i,
        {
            out.push(seg[i - 1]);
            i = i - 1;
            assert(out@ =~= seg@.reverse().take(seg@.len() - i));
        }
        assert(out@ =~= seg@.reverse());
        *seg = out;
    }
}

/// Whether a piece starts by leading back to a place.
pub open spec fn backtracks(seg: Seq<(i64, i64)>, anchor: (i64, i64)) -> bool {
    match (direction_between(anchor, seg[0]), direction_between(seg[0], seg[1])) {
        (Some(a), Some(b)) => dot_of(a, b) < -250_000_000_000_000_000,
        _ => false,
    }
}

/// A piece without the first places that lead back to an anchor, at most `n` of them.
pub open spec fn without_backtrack(seg: Seq<(i64, i64)>, anchor: (i64, i64), n: int) -> Seq<
    (i64, i64),
>
    decreases n,
{
    if n > 0 && seg.len() >= 2 && backtracks(seg, anchor) {
        without_backtrack(seg.skip(1), anchor, n - 1)
    } else {
        seg
    }
}

/// Takes the first places off a piece that lead back to an anchor.
pub fn trim_polyline_backtrack_from_anchor(
    seg: &mut Vec<(i64, i64)>,
    anchor: (i64, i64),
    max_trim: usize,
)
    requires
        all_in_plane(old(seg)@),
        in_plane(anchor),
    ensures
        final(seg)@ == without_backtrack(old(seg)@, anchor, max_trim as int),
{
    let mut left: usize = max_trim;
    while left > 0 && seg.len() >= 2
        invariant_except_break
            all_in_plane(seg@),
            in_plane(anchor),
            without_backtrack(old(seg)@, anchor, max_trim as int) == without_backtrack(
                seg@,
                anchor,
                left as int,
            ),
        ensures
            seg@ == without_backtrack(old(seg)@, anchor, max_trim as int),
        decreases left,
    {
        let back: bool = match (direction_from(anchor, seg[0]), direction_from(seg[0], seg[1])) {
            (Some(a), Some(b)) => find_dot(a, b) < -250_000_000_000_000_000,
            _ => false,
        };
        if !back {
            break ;
        }
        let ghost before = seg@;
        let _first: (i64, i64) = seg.remove(0);
        proof {
            assert(seg@ =~= before.skip(1));
        }
        left = left - 1;
    }
}

/// Whether the first place of a piece lies behind a place, seen along a direction, by more than 35
/// centimetres.
pub open spec fn lies_behind(p: (i64, i64), join: (i64, i64), along: (i64, i64)) -> bool {
    dot_of((p.0 - join.0, p.1 - join.1), (along.0 as int, along.1 as int)) < -350_000_000_000_000
}

/// A piece without the first places that lie behind a place, at most `n` of them; the last place
/// always stays.
pub open spec fn without_spike(
    seg: Seq<(i64, i64)>,
    join: (i64, i64),
    along: (i64, i64),
    n: int,
) -> Seq<(i64, i64)>
    decreases n,
{
    if n > 0 && seg.len() > 1 && lies_behind(seg[0], join, along) {
        without_spike(seg.skip(1), join, along, n - 1)
    } else {
        seg
    }
}

/// Takes the first places off a piece that lie behind the end of a connector.
pub fn trim_polyline_outbound_spike_after_connector(
    seg: &mut Vec<(i64, i64)>,
    join: (i64, i64),
    along: (i64, i64),
    max_trim: usize,
)
    requires
        all_in_plane(old(seg)@),
        in_plane(join),
        -FULL <= along.0 <= FULL,
        -FULL <= along.1 <= FULL,
    ensures
        final(seg)@ == without_spike(old(seg)@, join, along, max_trim as int),
{
    let mut left: usize = max_trim;
    while left > 0 && seg.len() > 1
        invariant_except_break
            all_in_plane(seg@),
            in_plane(join),
            -FULL <= along.0 <= FULL,
            -FULL <= along.1 <= FULL,
            without_spike(old(seg)@, join, along, max_trim as int) == without_spike(
                seg@,
                join,
                along,
                left as int,
            ),
        ensures
            seg@ == without_spike(old(seg)@, join, along, max_trim as int),
        decreases left,
    {
        let p: (i64, i64) = seg[0];
        let behind: bool = find_dot((p.0 - join.0, p.1 - join.1), along) < -350_000_000_000_000;
        if !behind {
            break ;
        }
        let ghost before = seg@;
        let _first: (i64, i64) = seg.remove(0);
        proof {
            assert(seg@ =~= before.skip(1));
        }
        left = left - 1;
    }
}

/// A step of a line, with the way along the line to its ends.
#[derive(Clone, Copy, Debug)]
pub struct LineStep {
    pub from: (i64, i64),
    pub to: (i64, i64),
    pub way_from: i64,
    pub way_to: i64,
}

impl LineStep {
    /// Both ends can be measured, and so can the ways.
    pub open spec fn wf(self) -> bool {
        in_plane(self.from) && in_plane(self.to) && in_plane((self.way_from, self.way_to))
    }

    /// The difference of the ends.
    pub open spec fn delta(self) -> (int, int) {
        (self.to.0 - self.from.0, self.to.1 - self.from.1)
    }

    /// The way along the line `part` billionths into the step.
    pub open spec fn way_at(self, part: int) -> int {
        self.way_from + (self.way_to - self.way_from) * part / (FULL as int)
    }
}

/// `num / den` in billionths, between nothing and one.
pub open spec fn part_held(num: int, den: int) -> int {
    between(
        if den > 0 {
            num * FULL / den
        } else {
            (-num) * FULL / (-den)
        },
        0,
        FULL as int,
    )
}

/// Where two steps that touch cross, and the ways along both lines to there; nothing for steps that
/// are as good as parallel.
pub open spec fn steps_cross(a: LineStep, b: LineStep) -> Option<((int, int), int, int)> {
    let p = a.delta();
    let q = b.delta();
    let det = p.0 * q.1 - p.1 * q.0;
    let rel = (b.from.0 - a.from.0, b.from.1 - a.from.1);
    if -1000 < det < 1000 {
        None
    } else {
        let ta = part_held(rel.0 * q.1 - rel.1 * q.0, det);
        let tb = part_held(rel.0 * p.1 - rel.1 * p.0, det);
        Some((place_between(a.from, a.to, ta), a.way_at(ta), b.way_at(tb)))
    }
}

fn find_part(num: i128, den: i128) -> (r: i64)
    requires
        den != 0,
        -0x2000_0000_0000_0000_0000_0000 <= num <= 0x2000_0000_0000_0000_0000_0000,
        -0x2000_0000_0000_0000_0000_0000 <= den <= 0x2000_0000_0000_0000_0000_0000,
    ensures
        r == part_held(num as int, den as int),
        0 <= r <= FULL,
{
    let q: i128 = if den > 0 {
        floor_div(num * 1_000_000_000, den)
    } else {
        floor_div((-num) * 1_000_000_000, -den)
    };
    if q < 0 {
        0
    } else if q > 1_000_000_000 {
        FULL
    } else {
        q as i64
    }
}

proof fn lemma_step_product(a: int, b: int)
    requires
        -0x4000_0000_0000 <= a <= 0x4000_0000_0000,
        -0x4000_0000_0000 <= b <= 0x4000_0000_0000,
    ensures
        -0x1000_0000_0000_0000_0000_0000 <= a * b <= 0x1000_0000_0000_0000_0000_0000,
{
    assert(-0x1000_0000_0000_0000_0000_0000 <= a * b <= 0x1000_0000_0000_0000_0000_0000)
        by (nonlinear_arith)
        requires
            -0x4000_0000_0000 <= a <= 0x4000_0000_0000,
            -0x4000_0000_0000 <= b <= 0x4000_0000_0000,
    ;
}

/// A crossing of two lines: the place, and the ways along both to there.
#[derive(Clone, Copy, Debug)]
pub struct LineCrossing {
    pub place: (i64, i64),
    pub along_a: i64,
    pub along_b: i64,
}

/// Where two steps cross, when they touch.
pub fn polyline_segment_intersection(a: LineStep, b: LineStep, touch: bool) -> (r: Option<
    LineCrossing,
>)
    requires
        a.wf(),
        b.wf(),
    ensures
        (if touch {
            steps_cross(a, b)
        } else {
            None
        }) == (match r {
            Some(c) => Some(
                ((c.place.0 as int, c.place.1 as int), c.along_a as int, c.along_b as int),
            ),
            None => None,
        }),
{
    if !touch {
        return None;
    }
    let px: i128 = a.to.0 as i128 - a.from.0 as i128;
    let py: i128 = a.to.1 as i128 - a.from.1 as i128;
    let qx: i128 = b.to.0 as i128 - b.from.0 as i128;
    let qy: i128 = b.to.1 as i128 - b.from.1 as i128;
    let rx: i128 = b.from.0 as i128 - a.from.0 as i128;
    let ry: i128 = b.from.1 as i128 - a.from.1 as i128;
    proof {
        lemma_step_product(px as int, qy as int);
        lemma_step_product(py as int, qx as int);
        lemma_step_product(rx as int, qy as int);
        lemma_step_product(ry as int, qx as int);
        lemma_step_product(rx as int, py as int);
        lemma_step_product(ry as int, px as int);
    }
    let det: i128 = px * qy - py * qx;
    if -1000 < det && det < 1000 {
        return None;
    }
    let ta: i64 = find_part(rx * qy - ry * qx, det);
    let tb: i64 = find_part(rx * py - ry * px, det);
    let place: (i64, i64) = crate::map::polyline::find_between(a.from, a.to, ta);
    let wa: (i64, i64) = crate::map::polyline::find_between(
        (a.way_from, a.way_from),
        (a.way_to, a.way_to),
        ta,
    );
    let wb: (i64, i64) = crate::map::polyline::find_between(
        (b.way_from, b.way_from),
        (b.way_to, b.way_to),
        tb,
    );
    Some(LineCrossing { place, along_a: wa.0, along_b: wb.0 })
}

/// Trimming only takes places off the front of a piece, and never the last one.
pub proof fn law_trimming_keeps_end(seg: Seq<(i64, i64)>, anchor: (i64, i64), n: int)
    requires
        seg.len() > 0,
        n >= 0,
    ensures
        without_backtrack(seg, anchor, n).len() > 0,
        without_backtrack(seg, anchor, n).last() == seg.last(),
        without_backtrack(seg, anchor, n).len() >= seg.len() - n,
    decreases n,
{
    if n > 0 && seg.len() >= 2 && backtracks(seg, anchor) {
        law_trimming_keeps_end(seg.skip(1), anchor, n - 1);
    }
}

/// The direction in which a route ends; where its last step is too short, the one before.
pub open spec fn end_direction(points: Seq<(i64, i64)>, along: (i64, i64)) -> (i64, i64) {
    if points.len() < 2 {
        along
    } else {
        match direction_between(points[points.len() - 2], points.last()) {
            Some(d) => (d.0 as i64, d.1 as i64),
            None => along,
        }
    }
}

fn find_end_direction(points: &Vec<(i64, i64)>, along: (i64, i64)) -> (r: (i64, i64))
    requires
        all_in_plane(points@),
        is_direction(along),
    ensures
        r == end_direction(points@, along),
        is_direction(r),
{
    let n: usize = points.len();
    if n < 2 {
        return along;
    }
    assert(in_plane(points@[n - 2]) && in_plane(points@[n - 1]));
    match direction_from(points[n - 2], points[n - 1]) {
        Some(d) => d,
        None => along,
    }
}

/// Whether both parts of a direction of length one are in range.
pub open spec fn is_direction(d: (i64, i64)) -> bool {
    -FULL <= d.0 <= FULL && -FULL <= d.1 <= FULL
}

/// A piece turned round where it runs against a direction.
pub open spec fn oriented(seg: Seq<(i64, i64)>, along: (i64, i64)) -> Seq<(i64, i64)> {
    if runs_against(seg, Some(along)) {
        seg.reverse()
    } else {
        seg
    }
}

/// A piece of a lane route as it is drawn: turned the way that the route runs; a lane also without
/// what leads back and, behind a connector, without what lies behind its end.
pub open spec fn fitted(
    seg: Seq<(i64, i64)>,
    is_connector: bool,
    after_connector: bool,
    join: (i64, i64),
    along: (i64, i64),
) -> Seq<(i64, i64)> {
    let turned = oriented(seg, along);
    if is_connector || seg.len() < 2 {
        turned
    } else {
        let forward = without_backtrack(turned, join, MAX_BACKTRACK as int);
        if after_connector {
            without_spike(forward, join, along, MAX_SPIKE as int)
        } else {
            forward
        }
    }
}

/// The route along the first `n` pieces of a lane route, each a connector or not: its places, the
/// direction in which it ends, and whether the last piece was a connector. Pieces without places are
/// passed over.
pub open spec fn stitched_up_to(
    start: (i64, i64),
    heading: (i64, i64),
    pieces: Seq<(bool, Vec<(i64, i64)>)>,
    n: int,
) -> (Seq<(i64, i64)>, (i64, i64), bool)
    decreases n,
{
    if n <= 0 {
        (seq![start], heading, false)
    } else {
        let before = stitched_up_to(start, heading, pieces, n - 1);
        let piece = pieces[n - 1];
        if piece.1@.len() == 0 {
            before
        } else {
            let points = with_places(
                before.0,
                fitted(piece.1@, piece.0, before.2, before.0.last(), before.1),
                SAME_LANE_PLACE as int,
            );
            (points, end_direction(points, before.1), piece.0)
        }
    }
}

/// The route that starts at a place with a heading and leads along the pieces of a lane route.
pub open spec fn stitched(
    start: (i64, i64),
    heading: (i64, i64),
    pieces: Seq<(bool, Vec<(i64, i64)>)>,
) -> Seq<(i64, i64)> {
    stitched_up_to(start, heading, pieces, pieces.len() as int).0
}

proof fn lemma_backtrack_in_plane(seg: Seq<(i64, i64)>, anchor: (i64, i64), n: int)
    requires
        all_in_plane(seg),
    ensures
        all_in_plane(without_backtrack(seg, anchor, n)),
    decreases n,
{
    if n > 0 && seg.len() >= 2 && backtracks(seg, anchor) {
        let rest = seg.skip(1);
        assert forall|i: int| 0 <= i < rest.len() implies in_plane(#[trigger] rest[i]) by {
            assert(rest[i] == seg[i + 1]);
        }
        lemma_backtrack_in_plane(rest, anchor, n - 1);
    }
}

proof fn lemma_spike_in_plane(seg: Seq<(i64, i64)>, join: (i64, i64), along: (i64, i64), n: int)
    requires
        all_in_plane(seg),
    ensures
        all_in_plane(without_spike(seg, join, along, n)),
    decreases n,
{
    if n > 0 && seg.len() > 1 && lies_behind(seg[0], join, along) {
        let rest = seg.skip(1);
        assert forall|i: int| 0 <= i < rest.len() implies in_plane(#[trigger] rest[i]) by {
            assert(rest[i] == seg[i + 1]);
        }
        lemma_spike_in_plane(rest, join, along, n - 1);
    }
}

fn orient(seg: &Vec<(i64, i64)>, along: (i64, i64)) -> (r: Vec<(i64, i64)>)
    requires
        all_in_plane(seg@),
        is_direction(along),
    ensures
        r@ == oriented(seg@, along),
        all_in_plane(r@),
{
    let mut out: Vec<(i64, i64)> = Vec::new();
    let mut i: usize = 0;
    while i < seg.len()
        invariant
            i <= seg@.len(),
            out@ == seg@.take(i as int),
        decreases seg.len() - i,
    {
        out.push(seg[i]);
        i = i + 1;
        assert(out@ =~= seg@.take(i as int));
    }
    assert(out@ =~= seg@);
    orient_polyline_forward(&mut out, Some(along));
    assert forall|k: int| 0 <= k < out@.len() implies in_plane(#[trigger] out@[k]) by {
        if runs_against(seg@, Some(along)) {
            assert(out@[k] == seg@[seg@.len() - 1 - k]);
        }
    }
    out
}

fn fit(
    seg: &Vec<(i64, i64)>,
    is_connector: bool,
    after_connector: bool,
    join: (i64, i64),
    along: (i64, i64),
) -> (r: Vec<(i64, i64)>)
    requires
        all_in_plane(seg@),
        in_plane(join),
        is_direction(along),
    ensures
        r@ == fitted(seg@, is_connector, after_connector, join, along),
        all_in_plane(r@),
{
    let mut out: Vec<(i64, i64)> = orient(seg, along);
    if is_connector || seg.len() < 2 {
        return out;
    }
    proof {
        lemma_backtrack_in_plane(out@, join, MAX_BACKTRACK as int);
    }
    trim_polyline_backtrack_from_anchor(&mut out, join, MAX_BACKTRACK);
    if after_connector {
        proof {
            lemma_spike_in_plane(out@, join, along, MAX_SPIKE as int);
        }
        trim_polyline_outbound_spike_after_connector(&mut out, join, along, MAX_SPIKE);
    }
    out
}

/// The route that starts at a place with a heading and leads along the pieces of a lane route, of each
/// of which is told whether it is a connector.
pub fn stitch_route(
    start: (i64, i64),
    heading: (i64, i64),
    pieces: &Vec<(bool, Vec<(i64, i64)>)>,
) -> (r: Vec<(i64, i64)>)
    requires
        in_plane(start),
        is_direction(heading),
        forall|i: int| 0 <= i < pieces@.len() ==> all_in_plane((#[trigger] pieces@[i]).1@),
    ensures
        r@ == stitched(start, heading, pieces@),
{
    let mut points: Vec<(i64, i64)> = Vec::new();
    points.push(start);
    let mut along: (i64, i64) = heading;
    let mut after_connector: bool = false;
    let mut i: usize = 0;
    assert(points@ =~= seq![start]);
    while i < pieces.len()
        invariant
            i <= pieces@.len(),
            forall|i: int| 0 <= i < pieces@.len() ==> all_in_plane((#[trigger] pieces@[i]).1@),
            is_direction(along),
            points@.len() > 0,
            all_in_plane(points@),
            (points@, along, after_connector) == stitched_up_to(
                start,
                heading,
                pieces@,
                i as int,
            ),
        decreases pieces.len() - i,
    {
        let piece: &(bool, Vec<(i64, i64)>) = &pieces[i];
        assert(all_in_plane(pieces@[i as int].1@));
        if piece.1.len() > 0 {
            let join: (i64, i64) = points[points.len() - 1];
            let seg: Vec<(i64, i64)> = fit(&piece.1, piece.0, after_connector, join, along);
            push_all(&mut points, &seg, SAME_LANE_PLACE);
            along = find_end_direction(&points, along);
            after_connector = piece.0;
        }
        i = i + 1;
    }
    points
}

/// The route up to the end of the turn that a vehicle is making: along its connector, or else along the
/// curve of the turn.
pub open spec fn after_turn(
    start: (i64, i64),
    heading: (i64, i64),
    turn: Option<(bool, Vec<(i64, i64)>)>,
) -> Seq<(i64, i64)> {
    match turn {
        None => seq![start],
        Some((is_connector, seg)) => if is_connector {
            with_places(seq![start], oriented(seg@, heading), SAME_PLACE as int)
        } else {
            let points = with_places(seq![start], seg@, SAME_PLACE as int);
            if points.len() < 3 {
                points
            } else {
                with_places(seq![start], oriented(points.skip(1), heading), SAME_PLACE as int)
            }
        },
    }
}

/// A route led on along the first `n` turns that are still ahead, and the direction in which it ends.
pub open spec fn led_on(
    points: Seq<(i64, i64)>,
    heading: (i64, i64),
    ahead: Seq<Vec<(i64, i64)>>,
    n: int,
) -> (Seq<(i64, i64)>, (i64, i64))
    decreases n,
{
    if n <= 0 {
        (points, end_direction(points, heading))
    } else {
        let before = led_on(points, heading, ahead, n - 1);
        let now = with_places(before.0, oriented(ahead[n - 1]@, before.1), SAME_PLACE as int);
        (now, end_direction(now, before.1))
    }
}

/// The route that starts at a place with a heading and leads along the turn that a vehicle is making and
/// the turns that are still ahead.
pub open spec fn along_turns(
    start: (i64, i64),
    heading: (i64, i64),
    turn: Option<(bool, Vec<(i64, i64)>)>,
    ahead: Seq<Vec<(i64, i64)>>,
) -> Seq<(i64, i64)> {
    led_on(after_turn(start, heading, turn), heading, ahead, ahead.len() as int).0
}

fn draw_turn(
    start: (i64, i64),
    heading: (i64, i64),
    turn: &Option<(bool, Vec<(i64, i64)>)>,
) -> (r: Vec<(i64, i64)>)
    requires
        in_plane(start),
        is_direction(heading),
        turn matches Some(t) ==> all_in_plane(t.1@),
    ensures
        r@ == after_turn(start, heading, *turn),
        all_in_plane(r@),
        r@.len() > 0,
{
    let mut points: Vec<(i64, i64)> = Vec::new();
    points.push(start);
    assert(points@ =~= seq![start]);
    match turn {
        Some(t) => {
            if t.0 {
                let seg: Vec<(i64, i64)> = orient(&t.1, heading);
                push_all(&mut points, &seg, SAME_PLACE);
            } else {
                push_all(&mut points, &t.1, SAME_PLACE);
                if points.len() >= 3 {
                    let ghost all = points@;
                    let _start: (i64, i64) = points.remove(0);
                    assert(points@ =~= all.skip(1));
                    assert forall|i: int| 0 <= i < points@.len() implies in_plane(
                        #[trigger] points@[i],
                    ) by {
                        assert(points@[i] == all[i + 1]);
                    }
                    let seg: Vec<(i64, i64)> = orient(&points, heading);
                    let mut again: Vec<(i64, i64)> = Vec::new();
                    again.push(start);
                    assert(again@ =~= seq![start]);
                    push_all(&mut again, &seg, SAME_PLACE);
                    return again;
                }
            }
        },
        None => {},
    }
    points
}

/// The route of a vehicle as it is drawn: along its lane route, or, where that shows no step, along the
/// turn that it is making and the turns that are still ahead.
pub fn draw_route(
    start: (i64, i64),
    heading: (i64, i64),
    pieces: &Vec<(bool, Vec<(i64, i64)>)>,
    turn: &Option<(bool, Vec<(i64, i64)>)>,
    ahead: &Vec<Vec<(i64, i64)>>,
) -> (r: Vec<(i64, i64)>)
    requires
        in_plane(start),
        is_direction(heading),
        forall|i: int| 0 <= i < pieces@.len() ==> all_in_plane((#[trigger] pieces@[i]).1@),
        turn matches Some(t) ==> all_in_plane(t.1@),
        forall|i: int| 0 <= i < ahead@.len() ==> all_in_plane((#[trigger] ahead@[i])@),
    ensures
        r@ == if stitched(start, heading, pieces@).len() >= 2 {
            stitched(start, heading, pieces@)
        } else {
            along_turns(start, heading, *turn, ahead@)
        },
{
    let line: Vec<(i64, i64)> = stitch_route(start, heading, pieces);
    if line.len() >= 2 {
        return line;
    }
    let mut points: Vec<(i64, i64)> = draw_turn(start, heading, turn);
    let ghost first = points@;
    let mut along: (i64, i64) = find_end_direction(&points, heading);
    let mut i: usize = 0;
    while i < ahead.len()
        invariant
            i <= ahead@.len(),
            is_direction(along),
            points@.len() > 0,
            all_in_plane(points@),
            forall|i: int| 0 <= i < ahead@.len() ==> all_in_plane((#[trigger] ahead@[i])@),
            (points@, along) == led_on(first, heading, ahead@, i as int),
        decreases ahead.len() - i,
    {
        let seg: Vec<(i64, i64)> = orient(&ahead[i], along);
        push_all(&mut points, &seg, SAME_PLACE);
        along = find_end_direction(&points, along);
        i = i + 1;
    }
    points
}

/// Adding places to a route keeps its start, and no place of it is the one before where none was.
pub proof fn law_places_differ(points: Seq<(i64, i64)>, seg: Seq<(i64, i64)>, within: int)
    requires
        points.len() > 0,
        forall|k: int|
            1 <= k < points.len() ==> !same_place(points[k - 1], #[trigger] points[k], within),
    ensures
        with_places(points, seg, within).len() > 0,
        with_places(points, seg, within)[0] == points[0],
        forall|k: int|
            1 <= k < with_places(points, seg, within).len() ==> !same_place(
                with_places(points, seg, within)[k - 1],
                #[trigger] with_places(points, seg, within)[k],
                within,
            ),
    decreases seg.len(),
{
    if seg.len() > 0 {
        law_places_differ(points, seg.drop_last(), within);
    }
}

/// A connector is drawn in steps of at most 55 cm, as few as that allows, but never in fewer than eleven
/// parts or more than 140.
pub proof fn law_parts_of_connectors(total: int)
    ensures
        11 <= connector_parts(total) <= 140,
        11 < connector_parts(total) < 140 ==> (connector_parts(total) - 1) * 550_000 < total
            <= connector_parts(total) * 550_000,
        total <= 11 * 550_000 ==> connector_parts(total) == 11,
        total >= 140 * 550_000 ==> connector_parts(total) == 140,
{
}

/// A route that leads along a piece ends where the piece ends.
pub proof fn law_route_ends_with_piece(points: Seq<(i64, i64)>, seg: Seq<(i64, i64)>, within: int)
    requires
        seg.len() > 0,
    ensures
        with_places(points, seg, within).len() > 0,
        with_places(points, seg, within).last() == seg.last() || same_place(
            with_places(points, seg, within).last(),
            seg.last(),
            within,
        ),
{
}

/// Nothing that a route had is lost when a piece is added.
pub proof fn law_route_is_kept(points: Seq<(i64, i64)>, seg: Seq<(i64, i64)>, within: int)
    ensures
        points.is_prefix_of(with_places(points, seg, within)),
        with_places(points, seg, within).len() <= points.len() + seg.len(),
    decreases seg.len(),
{
    if seg.len() > 0 {
        law_route_is_kept(points, seg.drop_last(), within);
    }
}

/// A trimmed piece does not lead back to where it starts from, unless as many places have been cut off
/// as may be; what is left is the end of the piece.
pub proof fn law_no_backtrack_is_left(seg: Seq<(i64, i64)>, anchor: (i64, i64), n: int)
    requires
        n >= 0,
    ensures
        ({
            let left = without_backtrack(seg, anchor, n);
            &&& left.len() >= 2 && left.len() > seg.len() - n ==> !backtracks(left, anchor)
            &&& left.len() <= seg.len()
            &&& left == seg.skip(seg.len() - left.len())
        }),
    decreases n,
{
    if n > 0 && seg.len() >= 2 && backtracks(seg, anchor) {
        let back = seg.skip(1);
        law_no_backtrack_is_left(back, anchor, n - 1);
        let left = without_backtrack(back, anchor, n - 1);
        assert(back.skip(back.len() - left.len()) =~= seg.skip(seg.len() - left.len()));
    } else {
        assert(seg.skip(0) =~= seg);
    }
}

/// A trimmed piece does not start behind the place that it is joined to, unless as many places have been
/// cut off as may be or one place is left; what is left is the end of the piece.
pub proof fn law_no_spike_is_left(
    seg: Seq<(i64, i64)>,
    join: (i64, i64),
    along: (i64, i64),
    n: int,
)
    requires
        n >= 0,
    ensures
        ({
            let left = without_spike(seg, join, along, n);
            &&& left.len() > 1 && left.len() > seg.len() - n ==> !lies_behind(left[0], join, along)
            &&& left.len() <= seg.len()
            &&& left == seg.skip(seg.len() - left.len())
        }),
    decreases n,
{
    if n > 0 && seg.len() > 1 && lies_behind(seg[0], join, along) {
        let back = seg.skip(1);
        law_no_spike_is_left(back, join, along, n - 1);
        let left = without_spike(back, join, along, n - 1);
        assert(back.skip(back.len() - left.len()) =~= seg.skip(seg.len() - left.len()));
    } else {
        assert(seg.skip(0) =~= seg);
    }
}

/// What lies further along a direction is not behind; a place a metre back along it is.
pub proof fn law_what_lies_behind(join: (i64, i64), x: i64)
    requires
        x >= join.0,
    ensures
        !lies_behind((x, join.1), join, (1_000_000_000, 0)),
        join.0 >= -0x4000_0000_0000_0000 ==> lies_behind(
            ((join.0 - 1_000_000) as i64, join.1),
            join,
            (1_000_000_000, 0),
        ),
{
    let d = x - join.0;
    assert(d * 1_000_000_000 >= 0) by (nonlinear_arith)
        requires
            d >= 0,
    ;
}

/// Two ways cross at the same ways along them whichever comes first, and the place lies on the step of
/// the first.
pub proof fn law_steps_cross_mutually(a: LineStep, b: LineStep)
    ensures
        steps_cross(a, b) is Some <==> steps_cross(b, a) is Some,
        steps_cross(a, b) is Some ==> steps_cross(a, b)->Some_0.1 == steps_cross(b, a)->Some_0.2
            && steps_cross(a, b)->Some_0.2 == steps_cross(b, a)->Some_0.1,
        steps_cross(a, b) is Some && a.from.0 <= a.to.0 ==> a.from.0 <= steps_cross(
            a,
            b,
        )->Some_0.0.0 <= a.to.0,
        steps_cross(a, b) is Some && a.from.1 <= a.to.1 ==> a.from.1 <= steps_cross(
            a,
            b,
        )->Some_0.0.1 <= a.to.1,
{
    let p = a.delta();
    let q = b.delta();
    let det = p.0 * q.1 - p.1 * q.0;
    let rel = (b.from.0 - a.from.0, b.from.1 - a.from.1);
    let back = (a.from.0 - b.from.0, a.from.1 - b.from.1);
    assert(q.0 * p.1 - q.1 * p.0 == -det) by (nonlinear_arith)
        requires
            det == p.0 * q.1 - p.1 * q.0,
    ;
    let (x, y) = (rel.0 * q.1 - rel.1 * q.0, rel.0 * p.1 - rel.1 * p.0);
    assert(back.0 * p.1 - back.1 * p.0 == -y) by (nonlinear_arith)
        requires
            y == rel.0 * p.1 - rel.1 * p.0,
            back.0 == -rel.0,
            back.1 == -rel.1,
    ;
    assert(back.0 * q.1 - back.1 * q.0 == -x) by (nonlinear_arith)
        requires
            x == rel.0 * q.1 - rel.1 * q.0,
            back.0 == -rel.0,
            back.1 == -rel.1,
    ;
    if det != 0 {
        assert(part_held(-y, -det) == part_held(y, det));
        assert(part_held(-x, -det) == part_held(x, det));
    }
    let t = part_held(x, det);
    crate::map::polyline::lemma_within_step(a.from.0 as int, a.to.0 as int, t);
    crate::map::polyline::lemma_within_step(a.from.1 as int, a.to.1 as int, t);
}

} // verus!
