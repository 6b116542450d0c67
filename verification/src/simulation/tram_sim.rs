//! Trams on their lines.

use vstd::prelude::*;
use vstd::string::*;

use crate::map::tram_network::{TramData, TramLine, TramNode};
use crate::simulation::obstacle::{interpolate, interpolated};
use crate::units::{
    between, clamp_to, larger, max_of, remaining, remaining_length, root, saturate, saturated,
    scale, scaled, share, share_of, square_root, FULL, METRE,
};

verus! {

/// Speed of a tram, 40 km/h.
pub const TRAM_SPEED: i64 = 11_100_000;

/// Largest acceleration of a tram.
pub const TRAM_ACCEL: i64 = 1_200_000;

/// Largest deceleration of a tram.
pub const TRAM_DECEL: i64 = 2_000_000;

/// Distance to the next stop at which a tram begins to brake.
pub const TRAM_BRAKE_START: i64 = 60_000_000;

/// How long a tram waits before it first leaves.
pub const FIRST_DWELL: i64 = 30_000_000;

/// A tram on its line.
pub struct TramVehicle {
    pub id: u32,
    pub lat: i64,
    pub lng: i64,
    pub angle: i64,
    pub speed: i64,
    pub line_ref: String,
    pub stop_sequence: Vec<usize>,
    /// The distance from each stop to the next.
    pub segments: Vec<i64>,
    /// The place of the stop that the tram comes from.
    pub current_stop_idx: usize,
    pub edge_progress: i64,
    pub edge_length: i64,
    /// Time left at the stop, in game time.
    pub dwell_timer: i64,
    pub is_dwelling: bool,
    pub trip_kind: u8,
    pub frustration: i64,
}

/// The distance from a stop to the next, at least a metre.
pub open spec fn segment_length(segments: Seq<i64>, i: int) -> int {
    if segments.len() < 2 {
        METRE as int
    } else {
        larger(segments[i] as int, METRE as int)
    }
}

fn length_of_segment(segments: &Vec<i64>, i: usize) -> (r: i64)
    requires
        i < segments@.len() || segments@.len() < 2,
    ensures
        r == segment_length(segments@, i as int),
{
    if segments.len() < 2 {
        METRE
    } else {
        max_of(segments[i], METRE)
    }
}

/// The speed that a tram aims for: near a stop it falls with the root of the distance.
pub open spec fn tram_target(distance: int) -> int {
    if distance < TRAM_BRAKE_START {
        root(TRAM_SPEED * TRAM_SPEED * larger(distance, 0) / (TRAM_BRAKE_START as int))
    } else {
        TRAM_SPEED as int
    }
}

fn target_speed(distance: i64) -> (r: i64)
    ensures
        r == tram_target(distance as int),
        0 <= r <= TRAM_SPEED,
{
    if distance >= TRAM_BRAKE_START {
        return TRAM_SPEED;
    }
    let d: u128 = max_of(distance, 0) as u128;
    let n: u128 = 11_100_000 * 11_100_000 * d / 60_000_000;
    assert(n <= 11_100_000 * 11_100_000) by {
        let q = 11_100_000int * 11_100_000 * d;
        assert(q / 60_000_000 <= 11_100_000 * 11_100_000) by (nonlinear_arith)
            requires
                q == 11_100_000int * 11_100_000 * d,
                0 <= d < 60_000_000,
        ;
    }
    let r: u64 = square_root(n);
    proof {
        let k = r as int;
        assert(k <= 11_100_000) by (nonlinear_arith)
            requires
                k * k <= n,
                n <= 11_100_000 * 11_100_000,
                k >= 0,
        ;
    }
    r as i64
}

/// The speed of a tram after some time on its way to a speed.
pub open spec fn tram_speed_after(speed: int, target: int, dt: int) -> int {
    let accel = between(
        saturated(saturated(target - speed) * 5 / 2),
        -(TRAM_DECEL as int),
        TRAM_ACCEL as int,
    );
    between(saturated(speed + saturated(scaled(accel, dt))), 0, TRAM_SPEED as int)
}

fn speed_after(speed: i64, target: i64, dt: i64) -> (r: i64)
    ensures
        r == tram_speed_after(speed as int, target as int, dt as int),
{
    let gap: i64 = saturate(target as i128 - speed as i128);
    let wish: i64 = saturate(crate::units::floor_div(gap as i128 * 5, 2));
    let accel: i64 = clamp_to(wish, -TRAM_DECEL, TRAM_ACCEL);
    clamp_to(saturate(speed as i128 + scale(accel, dt) as i128), 0, TRAM_SPEED)
}

/// The place of the next stop of a line, which starts over after the last.
pub open spec fn next_stop(n: int, i: int) -> int {
    if i + 1 == n {
        0
    } else {
        i + 1
    }
}

impl TramVehicle {
    /// Each stop is a node of the network, has a distance to the next, and the tram comes from one.
    pub open spec fn wf(&self, nodes: Seq<TramNode>) -> bool {
        &&& self.segments@.len() == self.stop_sequence@.len()
        &&& self.current_stop_idx < self.stop_sequence@.len()
        &&& forall|i: int|
            0 <= i < self.stop_sequence@.len() ==> #[trigger] self.stop_sequence@[i] < nodes.len()
    }

    /// A tram that waits at the first stop of its line.
    pub open spec fn waits_at_start(
        &self,
        id: u32,
        line_ref: Seq<char>,
        stops: Seq<usize>,
        segments: Seq<i64>,
        nodes: Seq<TramNode>,
    ) -> bool {
        &&& self.id == id
        &&& self.lat == nodes[stops[0] as int].lat
        &&& self.lng == nodes[stops[0] as int].lng
        &&& self.angle == 0
        &&& self.speed == 0
        &&& self.line_ref@ == line_ref
        &&& self.stop_sequence@ == stops
        &&& self.segments@ == segments
        &&& self.current_stop_idx == 0
        &&& self.edge_progress == 0
        &&& self.edge_length == segment_length(segments, 0)
        &&& self.dwell_timer == FIRST_DWELL
        &&& self.is_dwelling
        &&& self.trip_kind == 1
        &&& self.frustration == 0
    }

    /// A tram after some time, in the world and in the game. At a stop it waits; on the way it
    /// drives towards the next stop, where it waits for the time that the stop asks for. A tram
    /// with one stop only stays.
    pub open spec fn advanced(self, dt: i64, game_dt: i64, nodes: Seq<TramNode>) -> TramVehicle {
        let n = self.stop_sequence@.len() as int;
        if self.is_dwelling {
            let left = saturated(self.dwell_timer - game_dt);
            TramVehicle { dwell_timer: left as i64, is_dwelling: left > 0, ..self }
        } else if n < 2 {
            self
        } else {
            let next = next_stop(n, self.current_stop_idx as int);
            let from = nodes[self.stop_sequence@[self.current_stop_idx as int] as int];
            let to = nodes[self.stop_sequence@[next] as int];
            let left = saturated(
                remaining_length(self.edge_length as int, self.edge_progress as int),
            );
            let speed = tram_speed_after(self.speed as int, tram_target(left), dt as int);
            let progress = if self.edge_length > 0 {
                saturated(
                    self.edge_progress + saturated(
                        share(saturated(scaled(speed, dt as int)), self.edge_length as int),
                    ),
                )
            } else {
                self.edge_progress as int
            };
            if progress >= FULL {
                TramVehicle {
                    edge_progress: 0,
                    current_stop_idx: next as usize,
                    is_dwelling: true,
                    dwell_timer: to.stop_dwell,
                    edge_length: segment_length(self.segments@, next) as i64,
                    speed: 0,
                    lat: from.lat,
                    lng: from.lng,
                    ..self
                }
            } else {
                TramVehicle {
                    edge_progress: progress as i64,
                    speed: speed as i64,
                    lat: interpolated(from.lat as int, to.lat as int, progress) as i64,
                    lng: interpolated(from.lng as int, to.lng as int, progress) as i64,
                    ..self
                }
            }
        }
    }

    /// Advances the tram by `dt` of the world's time and `game_dt` of the game's.
    pub fn advance(&mut self, dt: i64, game_dt: i64, data: &TramData)
        requires
            old(self).wf(data.nodes@),
        ensures
            *final(self) == old(self).advanced(dt, game_dt, data.nodes@),
    {
        if self.is_dwelling {
            self.dwell_timer = saturate(self.dwell_timer as i128 - game_dt as i128);
            if self.dwell_timer <= 0 {
                self.is_dwelling = false;
            }
            return ;
        }
        let n: usize = self.stop_sequence.len();
        if n < 2 {
            return ;
        }
        assert(n == self.stop_sequence@.len());
        let next: usize = if self.current_stop_idx + 1 == n {
            0
        } else {
            self.current_stop_idx + 1
        };
        let from: TramNode = data.nodes[self.stop_sequence[self.current_stop_idx]];
        let to: TramNode = data.nodes[self.stop_sequence[next]];
        let left: i64 = remaining(self.edge_length, self.edge_progress);
        let speed: i64 = speed_after(self.speed, target_speed(left), dt);
        let mut progress: i64 = self.edge_progress;
        if self.edge_length > 0 {
            let part: i64 = share_of(scale(speed, dt), self.edge_length);
            progress = saturate(progress as i128 + part as i128);
        }
        if progress >= FULL {
            self.edge_progress = 0;
            self.current_stop_idx = next;
            self.is_dwelling = true;
            self.dwell_timer = to.stop_dwell;
            self.edge_length = length_of_segment(&self.segments, next);
            self.speed = 0;
            self.lat = from.lat;
            self.lng = from.lng;
        } else {
            self.edge_progress = progress;
            self.speed = speed;
            self.lat = interpolate(from.lat, to.lat, progress);
            self.lng = interpolate(from.lng, to.lng, progress);
        }
    }
}

/// All trams.
pub struct TramSim {
    pub trams: Vec<TramVehicle>,
    /// The id of the next tram.
    pub next_id: u32,
}

/// The places of the lines with at least two stops, among the first `n`.
pub open spec fn served_lines(lines: Seq<TramLine>, n: int) -> Seq<int>
    decreases n,
{
    if n <= 0 {
        Seq::empty()
    } else if lines[n - 1].stop_sequence@.len() >= 2 {
        served_lines(lines, n - 1).push(n - 1)
    } else {
        served_lines(lines, n - 1)
    }
}

/// The id that follows `offset` by `k`; ids start over after the last.
pub open spec fn tram_id(offset: u32, k: nat) -> u32
    decreases k,
{
    if k == 0 {
        offset
    } else {
        tram_id(offset, (k - 1) as nat).wrapping_add(1)
    }
}

fn copy_text(s: &String) -> (r: String)
    ensures
        r@ == s@,
{
    s.as_str().to_owned()
}

fn copy_places(v: &Vec<usize>) -> (r: Vec<usize>)
    ensures
        r@ == v@,
{
    let mut out: Vec<usize> = Vec::new();
    let mut i: usize = 0;
    while i < v.len()
        invariant
            i <= v@.len(),
            out@ == v@.take(i as int),
        decreases v.len() - i,
    {
        out.push(v[i]);
        i = i + 1;
        assert(v@.take(i as int) =~= v@.take(i - 1).push(v@[i - 1]));
    }
    assert(v@.take(i as int) =~= v@);
    out
}

fn copy_lengths(v: &Vec<i64>) -> (r: Vec<i64>)
    ensures
        r@ == v@,
{
    let mut out: Vec<i64> = Vec::new();
    let mut i: usize = 0;
    while i < v.len()
        invariant
            i <= v@.len(),
            out@ == v@.take(i as int),
        decreases v.len() - i,
    {
        out.push(v[i]);
        i = i + 1;
        assert(v@.take(i as int) =~= v@.take(i - 1).push(v@[i - 1]));
    }
    assert(v@.take(i as int) =~= v@);
    out
}

impl TramSim {
    /// Every tram is on its line.
    pub open spec fn wf(&self, nodes: Seq<TramNode>) -> bool {
        forall|i: int| 0 <= i < self.trams@.len() ==> (#[trigger] self.trams@[i]).wf(nodes)
    }

    /// One tram for each line with at least two stops, waiting at the first. `lengths` lists for
    /// each line the distances from each stop to the next.
    pub fn new(data: &TramData, lengths: &Vec<Vec<i64>>, id_offset: u32) -> (r: TramSim)
        requires
            lengths@.len() == data.lines@.len(),
            forall|i: int|
                0 <= i < lengths@.len() ==> (#[trigger] lengths@[i])@.len()
                    == data.lines@[i].stop_sequence@.len(),
            forall|i: int, k: int|
                0 <= i < data.lines@.len() && 0 <= k < data.lines@[i].stop_sequence@.len()
                    ==> #[trigger] data.lines@[i].stop_sequence@[k] < data.nodes@.len(),
        ensures
            r.wf(data.nodes@),
            r.trams@.len() == served_lines(data.lines@, data.lines@.len() as int).len(),
            forall|k: int|
                0 <= k < r.trams@.len() ==> {
                    let l = served_lines(data.lines@, data.lines@.len() as int)[k];
                    (#[trigger] r.trams@[k]).waits_at_start(
                        tram_id(id_offset, k as nat),
                        data.lines@[l].line_ref@,
                        data.lines@[l].stop_sequence@,
                        lengths@[l]@,
                        data.nodes@,
                    )
                },
            r.next_id == tram_id(id_offset, r.trams@.len()),
    {
        let mut trams: Vec<TramVehicle> = Vec::new();
        let mut next_id: u32 = id_offset;
        let mut i: usize = 0;
        while i < data.lines.len()
            invariant
                i <= data.lines@.len(),
                lengths@.len() == data.lines@.len(),
                forall|i: int|
                    0 <= i < lengths@.len() ==> (#[trigger] lengths@[i])@.len()
                        == data.lines@[i].stop_sequence@.len(),
                forall|i: int, k: int|
                    0 <= i < data.lines@.len() && 0 <= k < data.lines@[i].stop_sequence@.len()
                        ==> #[trigger] data.lines@[i].stop_sequence@[k] < data.nodes@.len(),
                trams@.len() == served_lines(data.lines@, i as int).len(),
                next_id == tram_id(id_offset, trams@.len()),
                forall|k: int| 0 <= k < trams@.len() ==> (#[trigger] trams@[k]).wf(data.nodes@),
                forall|k: int|
                    0 <= k < trams@.len() ==> {
                        let l = served_lines(data.lines@, i as int)[k];
                        (#[trigger] trams@[k]).waits_at_start(
                            tram_id(id_offset, k as nat),
                            data.lines@[l].line_ref@,
                            data.lines@[l].stop_sequence@,
                            lengths@[l]@,
                            data.nodes@,
                        )
                    },
            decreases data.lines.len() - i,
        {
            let line: &TramLine = &data.lines[i];
            if line.stop_sequence.len() >= 2 {
                let start: usize = line.stop_sequence[0];
                let tram = TramVehicle {
                    id: next_id,
                    lat: data.nodes[start].lat,
                    lng: data.nodes[start].lng,
                    angle: 0,
                    speed: 0,
                    line_ref: copy_text(&line.line_ref),
                    stop_sequence: copy_places(&line.stop_sequence),
                    segments: copy_lengths(&lengths[i]),
                    current_stop_idx: 0,
                    edge_progress: 0,
                    edge_length: length_of_segment(&lengths[i], 0),
                    dwell_timer: FIRST_DWELL,
                    is_dwelling: true,
                    trip_kind: 1,
                    frustration: 0,
                };
                assert(tram.wf(data.nodes@)) by {
                    assert forall|k: int|
                        0 <= k < tram.stop_sequence@.len() implies #[trigger] tram.stop_sequence@[k]
                        < data.nodes@.len() by {
                        assert(data.lines@[i as int].stop_sequence@[k] < data.nodes@.len());
                    }
                }
                trams.push(tram);
                next_id = next_id.wrapping_add(1);
            }
            i = i + 1;
        }
        TramSim { trams, next_id }
    }

    /// Whether there are no trams.
    pub fn is_empty(&self) -> (r: bool)
        ensures
            r == (self.trams@.len() == 0),
    {
        self.trams.len() == 0
    }

    /// Advances all trams.
    pub fn tick(&mut self, dt: i64, game_dt: i64, data: &TramData)
        requires
            old(self).wf(data.nodes@),
        ensures
            final(self).wf(data.nodes@),
            final(self).next_id == old(self).next_id,
            final(self).trams@.len() == old(self).trams@.len(),
            forall|i: int|
                0 <= i < old(self).trams@.len() ==> #[trigger] final(self).trams@[i] == old(
                    self,
                ).trams@[i].advanced(dt, game_dt, data.nodes@),
    {
        let mut i: usize = 0;
        while i < self.trams.len()
            invariant
                i <= self.trams@.len(),
                self.next_id == old(self).next_id,
                self.trams@.len() == old(self).trams@.len(),
                self.wf(data.nodes@),
                forall|k: int|
                    0 <= k < i ==> #[trigger] self.trams@[k] == old(self).trams@[k].advanced(
                        dt,
                        game_dt,
                        data.nodes@,
                    ),
                forall|k: int|
                    i <= k < self.trams@.len() ==> #[trigger] self.trams@[k] == old(
                        self,
                    ).trams@[k],
            decreases self.trams.len() - i,
        {
            proof {
                law_tram_stays_on_line(self.trams@[i as int], dt, game_dt, data.nodes@);
            }
            self.trams[i].advance(dt, game_dt, data);
            i = i + 1;
        }
    }
}

/// A tram stays on its line: it always comes from one of its stops.
pub proof fn law_tram_stays_on_line(t: TramVehicle, dt: i64, game_dt: i64, nodes: Seq<TramNode>)
    requires
        t.wf(nodes),
    ensures
        t.advanced(dt, game_dt, nodes).wf(nodes),
        t.advanced(dt, game_dt, nodes).stop_sequence@ == t.stop_sequence@,
        t.advanced(dt, game_dt, nodes).id == t.id,
{
}

/// A tram never drives backwards or faster than trams do, and it stands while it waits.
pub proof fn law_tram_speed(t: TramVehicle, dt: i64, game_dt: i64, nodes: Seq<TramNode>)
    requires
        0 <= t.speed <= TRAM_SPEED,
        t.is_dwelling ==> t.speed == 0,
    ensures
        0 <= t.advanced(dt, game_dt, nodes).speed <= TRAM_SPEED,
        t.advanced(dt, game_dt, nodes).is_dwelling ==> t.advanced(dt, game_dt, nodes).speed == 0,
{
}

/// A tram waits at a stop until the time of the game that it waits for is over, and does not move.
pub proof fn law_tram_waits(t: TramVehicle, dt: i64, game_dt: i64, nodes: Seq<TramNode>)
    requires
        t.is_dwelling,
        0 <= game_dt,
        0 <= t.dwell_timer,
    ensures
        ({
            let a = t.advanced(dt, game_dt, nodes);
            &&& a.is_dwelling <==> t.dwell_timer > game_dt
            &&& t.dwell_timer > game_dt ==> a.dwell_timer == t.dwell_timer - game_dt
            &&& a.lat == t.lat && a.lng == t.lng && a.current_stop_idx == t.current_stop_idx
            &&& a.edge_progress == t.edge_progress && a.speed == t.speed
        }),
{
}

/// On its way a tram comes on towards the next stop; once it is there it comes from that stop, stands
/// and waits for as long as the stop asks for. After the last stop of its line comes the first.
pub proof fn law_tram_drives(t: TramVehicle, dt: i64, game_dt: i64, nodes: Seq<TramNode>)
    requires
        t.wf(nodes),
        !t.is_dwelling,
        t.stop_sequence@.len() >= 2,
        0 <= dt <= 1_000_000_000,
        0 <= t.edge_progress < 1_000_000_000,
        1_000_000 <= t.edge_length <= 1_000_000_000_000,
    ensures
        ({
            let a = t.advanced(dt, game_dt, nodes);
            let n = t.stop_sequence@.len() as int;
            let next = (t.current_stop_idx + 1) % n;
            &&& a.current_stop_idx == t.current_stop_idx || a.current_stop_idx == next
            &&& !a.is_dwelling ==> a.current_stop_idx == t.current_stop_idx && t.edge_progress
                <= a.edge_progress < 1_000_000_000 && (a.edge_progress - t.edge_progress)
                * t.edge_length <= (a.speed * dt / 1_000_000) * 1_000_000_000
            &&& a.is_dwelling ==> a.current_stop_idx == next && a.speed == 0 && a.edge_progress == 0
                && a.dwell_timer == nodes[t.stop_sequence@[next] as int].stop_dwell
        }),
{
    let n = t.stop_sequence@.len() as int;
    let i = t.current_stop_idx as int;
    if i + 1 < n {
        assert((i + 1) % n == i + 1) by (nonlinear_arith)
            requires
                0 <= i,
                i + 1 < n,
        ;
    } else {
        assert((i + 1) % n == 0) by (nonlinear_arith)
            requires
                i + 1 == n,
                n > 0,
        ;
    }
    let left = saturated(remaining_length(t.edge_length as int, t.edge_progress as int));
    let speed = tram_speed_after(t.speed as int, tram_target(left), dt as int);
    let d = dt as int;
    assert(0 <= speed <= 11_100_000);
    assert(0 <= speed * d <= 11_100_000_000_000_000) by (nonlinear_arith)
        requires
            0 <= speed <= 11_100_000,
            0 <= d <= 1_000_000_000,
    ;
    let w = speed * d / 1_000_000;
    let m = w * 1_000_000_000;
    let l = t.edge_length as int;
    let q = m / l;
    assert(q * l <= m && 0 <= q <= m / 1_000_000) by (nonlinear_arith)
        requires
            0 <= m,
            1_000_000 <= l,
            q == m / l,
    ;
    let a = t.advanced(dt, game_dt, nodes);
    assert(t.stop_sequence.len() == t.stop_sequence@.len());
    if !a.is_dwelling {
        assert(a.edge_progress == t.edge_progress + q);
        assert(a.edge_progress - t.edge_progress == q);
    }
}

/// Farther than 60 m from a stop a tram aims for its full speed, at the stop for standing, and the
/// nearer it is the slower; its speed changes by no more than 1.2 m/s² up and 2 m/s² down.
pub proof fn law_tram_brakes_for_stops(distance: int, speed: int, target: int, dt: int)
    requires
        0 <= distance,
        0 <= speed <= 11_100_000,
        0 <= target <= 11_100_000,
        0 <= dt <= 1_000_000_000,
    ensures
        distance >= 60_000_000 ==> tram_target(distance) == 11_100_000,
        distance < 60_000_000 ==> {
            let t = tram_target(distance);
            0 <= t <= 11_100_000 && t * t <= 11_100_000 * 11_100_000 * distance / 60_000_000 < (t
                + 1) * (t + 1)
        },
        ({
            let s = tram_speed_after(speed, target, dt);
            &&& s <= speed + 1_200_000 * dt / 1_000_000
            &&& s >= speed - 2_000_000 * dt / 1_000_000 - 1 || s == 0
            &&& 0 <= s <= 11_100_000
            &&& target >= speed ==> s >= speed
            &&& target <= speed ==> s <= speed
        }),
{
    if distance < 60_000_000 {
        let n: int = TRAM_SPEED * TRAM_SPEED * distance / (TRAM_BRAKE_START as int);
        assert(0 <= n <= 123_210_000_000_000);
        crate::units::lemma_root_exists(n);
        let t = root(n);
        assert(t <= 11_100_000) by (nonlinear_arith)
            requires
                t * t <= n,
                n <= 123_210_000_000_000,
                0 <= t,
        ;
    }
    let a = between((target - speed) * 5 / 2, -2_000_000, 1_200_000);
    assert(-2_000_000 * dt <= a * dt <= 1_200_000 * dt) by (nonlinear_arith)
        requires
            -2_000_000 <= a <= 1_200_000,
            0 <= dt,
    ;
    assert(target >= speed ==> 0 <= a * dt) by (nonlinear_arith)
        requires
            target >= speed ==> a >= 0,
            0 <= dt,
    ;
    assert(target <= speed ==> a * dt <= 0) by (nonlinear_arith)
        requires
            target <= speed ==> a <= 0,
            0 <= dt,
    ;
}

/// A tram runs on every line with two stops or more and on no other.
pub proof fn law_lines_served(lines: Seq<TramLine>, n: int, k: int)
    requires
        0 <= n <= lines.len(),
    ensures
        served_lines(lines, n).contains(k) <==> 0 <= k < n && lines[k].stop_sequence@.len() >= 2,
    decreases n,
{
    if n > 0 {
        law_lines_served(lines, n - 1, k);
        let before = served_lines(lines, n - 1);
        let now = served_lines(lines, n);
        if before.contains(k) {
            let i = choose|i: int| 0 <= i < before.len() && before[i] == k;
            assert(now[i] == k);
        }
        if lines[n - 1].stop_sequence@.len() >= 2 {
            assert(now[before.len() as int] == n - 1);
        }
        if now.contains(k) {
            let i = choose|i: int| 0 <= i < now.len() && now[i] == k;
            if i < before.len() {
                assert(before[i] == k);
            }
        }
    }
}

/// Trams have ids of their own, which follow each other.
pub proof fn law_tram_ids(offset: u32, k: nat)
    requires
        offset + k <= u32::MAX,
    ensures
        tram_id(offset, k) == offset + k,
    decreases k,
{
    if k > 0 {
        law_tram_ids(offset, (k - 1) as nat);
    }
}

/// After each stop comes the next one of the line, and after the last one the first again; no two stops
/// are counted as less than a metre apart.
pub proof fn law_stops_come_round(n: int, i: int, segments: Seq<i64>)
    requires
        0 <= i < n,
    ensures
        next_stop(n, i) == (i + 1) % n,
        segment_length(segments, i) >= 1_000_000,
        segments.len() >= 2 && segments[i] >= 1_000_000 ==> segment_length(segments, i)
            == segments[i],
{
    if i + 1 < n {
        vstd::arithmetic::div_mod::lemma_small_mod((i + 1) as nat, n as nat);
    } else {
        vstd::arithmetic::div_mod::lemma_mod_self_0(n);
    }
}

} // verus!
