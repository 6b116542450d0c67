//! Reservations of the places where paths through a junction cross.
//!
//! Every path through a junction carries the points where it meets other paths. A vehicle
//! claims the points ahead of it before it enters, extends its claim while it turns and gives
//! points back as it passes them.

use vstd::prelude::*;

use crate::units::{closer_than, larger, max_of, saturate, saturated, square_distance, within, METRE};

verus! {

/// How far along the path points are claimed before a vehicle enters the junction.
pub const RESERVE_INITIAL_ARC: i64 = 18_000_000;

/// How far ahead of its front a vehicle extends its claim while it turns.
pub const RESERVE_HORIZON_AHEAD: i64 = 22_000_000;

/// A point is given back once the vehicle's centre is this far past it.
pub const CLEAN_CENTER_PAST: i64 = 350_000;

/// A point is given back once the vehicle's rear is this far past it.
pub const CLEAN_REAR_PAST: i64 = 1_000_000;

/// Progress that counts as motion of a reservation's owner.
pub const MOTION_STEP: i64 = 150_000;

/// A reservation older than this whose owner stands still lapses.
pub const STALLED_TTL: i64 = 10_000_000;

/// Margin around vehicle and conflict shapes.
pub const SHAPE_BUFFER: i64 = 1_000_000;

/// Extra margin around a vehicle's centre when it occupies a point.
pub const PATCH_ENVELOPE: i64 = 850_000;

/// Smallest radius that a conflict point is given.
pub const MIN_PATCH_RADIUS: i64 = 100_000;

/// How long a standoff may last before one vehicle is sent first.
pub const DEADLOCK_BREAK: i64 = 3_000_000;

/// One way through a junction: from a lane of one edge to a lane of another.
#[derive(Clone, Copy, Debug, PartialEq, Eq, Structural)]
pub struct LaneMovementKey {
    pub in_edge: usize,
    pub out_edge: usize,
    pub in_lane: u8,
    pub out_lane: u8,
}

/// A place on a path where another path crosses it.
#[derive(Clone, Copy, Debug)]
pub struct ConflictPoint {
    pub id: u64,
    pub x: i64,
    pub y: i64,
    pub distance_on_path: i64,
    pub radius: i64,
    pub reserved_by: Option<u32>,
    pub reserved_at: Option<i64>,
    pub last_progress: Option<i64>,
    pub last_motion: Option<i64>,
}

/// The conflict points of one way through a junction, in path order.
pub struct ConflictPath {
    pub key: LaneMovementKey,
    pub points: Vec<ConflictPoint>,
}

/// The paths through one junction and the state of its deadlock watch.
pub struct IntersectionConflictData {
    pub node: usize,
    pub by_movement: Vec<ConflictPath>,
    pub deadlock_timer: i64,
    pub deadlock_first_move: Option<u32>,
}

/// All junctions with their paths.
pub struct ConflictSystem {
    pub nodes: Vec<IntersectionConflictData>,
}

/// What the conflict rules read of a vehicle: where its centre and its hood are, how large it
/// is and whether it is turning.
#[derive(Clone, Copy, Debug)]
pub struct VehicleBody {
    pub id: u32,
    pub despawned: bool,
    pub on_turn_connector: bool,
    pub x: i64,
    pub y: i64,
    pub hood_x: i64,
    pub hood_y: i64,
    pub path_radius: u32,
    pub nose_radius: u32,
}

/// Why a claim failed: the place of the point and the vehicle that holds or occupies it.
#[derive(Clone, Copy, Debug)]
pub struct Blocked {
    pub x: i64,
    pub y: i64,
    pub by: u32,
}

/// The radius used for a conflict point.
pub open spec fn patch_radius(p: ConflictPoint) -> int {
    larger(p.radius as int, MIN_PATCH_RADIUS as int)
}

/// Whether the vehicle's centre is so close that its shape covers the point.
pub open spec fn centroid_engulfs(v: VehicleBody, p: ConflictPoint) -> bool {
    let r = saturated(v.path_radius + patch_radius(p) + SHAPE_BUFFER + PATCH_ENVELOPE);
    square_distance(v.x as int, v.y as int, p.x as int, p.y as int) <= r * r
}

/// Whether the vehicle's hood touches the ball around the point.
pub open spec fn hood_conflicts(v: VehicleBody, p: ConflictPoint) -> bool {
    let r = saturated(v.nose_radius + patch_radius(p) + SHAPE_BUFFER / 2);
    square_distance(v.hood_x as int, v.hood_y as int, p.x as int, p.y as int) <= r * r
}

/// Whether the vehicle's body is on the point.
pub open spec fn body_overlaps(v: VehicleBody, p: ConflictPoint) -> bool {
    centroid_engulfs(v, p) || hood_conflicts(v, p)
}

/// Whether a vehicle other than `me` that is still driving is on the point.
pub open spec fn occupies(v: VehicleBody, me: u32, p: ConflictPoint) -> bool {
    v.id != me && !v.despawned && body_overlaps(v, p)
}

/// The first other vehicle that is on the point.
pub open spec fn occupant_of(vehicles: Seq<VehicleBody>, me: u32, p: ConflictPoint) -> Option<u32>
    decreases vehicles.len(),
{
    if vehicles.len() == 0 {
        None
    } else if occupies(vehicles[0], me, p) {
        Some(vehicles[0].id)
    } else {
        occupant_of(vehicles.skip(1), me, p)
    }
}

/// Whether the vehicle's hood touches the ball around the point.
pub fn hood_conflicts_conflict_ball(v: &VehicleBody, p: &ConflictPoint) -> (r: bool)
    ensures
        r == hood_conflicts(*v, *p),
{
    let patch: i64 = max_of(p.radius, MIN_PATCH_RADIUS);
    let reach: i64 = saturate(v.nose_radius as i128 + patch as i128 + (SHAPE_BUFFER / 2) as i128);
    within(v.hood_x, v.hood_y, p.x, p.y, reach)
}

/// Whether the vehicle's centre is so close that its shape covers the point.
pub fn vehicle_centroid_engulfs_conflict_patch(v: &VehicleBody, p: &ConflictPoint) -> (r: bool)
    ensures
        r == centroid_engulfs(*v, *p),
{
    let patch: i64 = max_of(p.radius, MIN_PATCH_RADIUS);
    let reach: i64 = saturate(
        v.path_radius as i128 + patch as i128 + SHAPE_BUFFER as i128 + PATCH_ENVELOPE as i128,
    );
    within(v.x, v.y, p.x, p.y, reach)
}

/// Whether the vehicle's body is on the point.
pub fn vehicle_body_physically_overlaps_conflict_patch(v: &VehicleBody, p: &ConflictPoint) -> (r:
    bool)
    ensures
        r == body_overlaps(*v, *p),
{
    vehicle_centroid_engulfs_conflict_patch(v, p) || hood_conflicts_conflict_ball(v, p)
}

/// The first vehicle other than `me` that is on the point.
pub fn conflict_patch_physical_occupied_by_other(
    vehicles: &Vec<VehicleBody>,
    me: u32,
    p: &ConflictPoint,
) -> (r: Option<u32>)
    ensures
        r == occupant_of(vehicles@, me, *p),
{
    let mut i: usize = 0;
    assert(vehicles@.skip(0) =~= vehicles@);
    while i < vehicles.len()
        invariant
            i <= vehicles.len(),
            occupant_of(vehicles@, me, *p) == occupant_of(vehicles@.skip(i as int), me, *p),
        decreases vehicles.len() - i,
    {
        let v: VehicleBody = vehicles[i];
        assert(vehicles@.skip(i as int)[0] == v);
        assert(vehicles@.skip(i as int).skip(1) =~= vehicles@.skip(i + 1));
        if v.id != me && !v.despawned && vehicle_body_physically_overlaps_conflict_patch(&v, p) {
            return Some(v.id);
        }
        i = i + 1;
    }
    None
}

/// A point without its reservation.
pub open spec fn freed(p: ConflictPoint) -> ConflictPoint {
    ConflictPoint {
        reserved_by: None,
        reserved_at: None,
        last_progress: None,
        last_motion: None,
        ..p
    }
}

/// A point claimed by `me` at `now`, with the owner at `progress` along the path.
pub open spec fn claimed(p: ConflictPoint, me: u32, now: i64, progress: i64) -> ConflictPoint {
    ConflictPoint {
        reserved_by: Some(me),
        reserved_at: Some(now),
        last_progress: Some(progress),
        last_motion: Some(now),
        ..p
    }
}

fn free_point(p: ConflictPoint) -> (r: ConflictPoint)
    ensures
        r == freed(p),
{
    ConflictPoint {
        id: p.id,
        x: p.x,
        y: p.y,
        distance_on_path: p.distance_on_path,
        radius: p.radius,
        reserved_by: None,
        reserved_at: None,
        last_progress: None,
        last_motion: None,
    }
}

fn claim_point(p: ConflictPoint, me: u32, now: i64, progress: i64) -> (r: ConflictPoint)
    ensures
        r == claimed(p, me, now, progress),
{
    ConflictPoint {
        id: p.id,
        x: p.x,
        y: p.y,
        distance_on_path: p.distance_on_path,
        radius: p.radius,
        reserved_by: Some(me),
        reserved_at: Some(now),
        last_progress: Some(progress),
        last_motion: Some(now),
    }
}

/// One sweep over all reservations.
pub enum Sweep<'a> {
    /// Give back everything the vehicle holds.
    ReleaseVehicle { vehicle: u32 },
    /// Give back what the vehicle has passed on its way from one edge to another.
    CleanPassed { vehicle: u32, in_edge: usize, out_edge: usize, center: i64, half_length: i64 },
    /// Note how far the vehicle has come on its way from one edge to another.
    NoteMotion { vehicle: u32, in_edge: usize, out_edge: usize, progress: i64, now: i64 },
    /// Give back points on which another vehicle stands.
    ReleaseOverridden { vehicles: &'a Vec<VehicleBody> },
    /// Give back points whose owner is gone, or turning but stalled for too long.
    ExpireStale { vehicles: &'a Vec<VehicleBody>, now: i64 },
}

/// The first vehicle with the given id.
pub open spec fn body_of(vehicles: Seq<VehicleBody>, id: u32) -> Option<VehicleBody>
    decreases vehicles.len(),
{
    if vehicles.len() == 0 {
        None
    } else if vehicles[0].id == id {
        Some(vehicles[0])
    } else {
        body_of(vehicles.skip(1), id)
    }
}

fn find_body(vehicles: &Vec<VehicleBody>, id: u32) -> (r: Option<VehicleBody>)
    ensures
        r == body_of(vehicles@, id),
{
    let mut i: usize = 0;
    assert(vehicles@.skip(0) =~= vehicles@);
    while i < vehicles.len()
        invariant
            i <= vehicles.len(),
            body_of(vehicles@, id) == body_of(vehicles@.skip(i as int), id),
        decreases vehicles.len() - i,
    {
        let v: VehicleBody = vehicles[i];
        assert(vehicles@.skip(i as int)[0] == v);
        assert(vehicles@.skip(i as int).skip(1) =~= vehicles@.skip(i + 1));
        if v.id == id {
            return Some(v);
        }
        i = i + 1;
    }
    None
}

/// Whether a vehicle with its centre and rear at the given distances has passed the point.
pub open spec fn has_passed(p: ConflictPoint, center: int, half_length: int) -> bool {
    let rear = larger(center - half_length, 0);
    larger(center, 0) > p.distance_on_path + CLEAN_CENTER_PAST || rear > p.distance_on_path
        + CLEAN_REAR_PAST
}

/// Whether the owner has moved along the path since its progress was last noted.
pub open spec fn has_moved(p: ConflictPoint, progress: int) -> bool {
    match p.last_progress {
        Some(prev) => progress - prev > MOTION_STEP || prev - progress > MOTION_STEP,
        None => true,
    }
}

/// Whether a reservation lapses: its owner is gone, or is turning and has stood still for the
/// whole allowed time.
pub open spec fn is_stale(p: ConflictPoint, owner: Option<VehicleBody>, now: int) -> bool {
    match owner {
        None => true,
        Some(v) => v.despawned || {
            let taken = match p.reserved_at {
                Some(t) => t as int,
                None => now,
            };
            let moved = match p.last_motion {
                Some(t) => t as int,
                None => taken,
            };
            now - taken >= STALLED_TTL && v.on_turn_connector && now - moved >= STALLED_TTL
        },
    }
}

/// What a sweep makes of one point on the path `key`.
pub open spec fn swept(op: Sweep<'_>, key: LaneMovementKey, p: ConflictPoint) -> ConflictPoint {
    match op {
        Sweep::ReleaseVehicle { vehicle } => if p.reserved_by == Some(vehicle) {
            freed(p)
        } else {
            p
        },
        Sweep::CleanPassed { vehicle, in_edge, out_edge, center, half_length } => if key.in_edge
            == in_edge && key.out_edge == out_edge && p.reserved_by == Some(vehicle) && has_passed(
            p,
            center as int,
            half_length as int,
        ) {
            freed(p)
        } else {
            p
        },
        Sweep::NoteMotion { vehicle, in_edge, out_edge, progress, now } => if key.in_edge == in_edge
            && key.out_edge == out_edge && p.reserved_by == Some(vehicle) {
            ConflictPoint {
                last_progress: Some(progress),
                last_motion: if has_moved(p, progress as int) {
                    Some(now)
                } else {
                    p.last_motion
                },
                ..p
            }
        } else {
            p
        },
        Sweep::ReleaseOverridden { vehicles } => match p.reserved_by {
            Some(owner) => if occupant_of(vehicles@, owner, p) is Some {
                freed(p)
            } else {
                p
            },
            None => p,
        },
        Sweep::ExpireStale { vehicles, now } => match p.reserved_by {
            Some(owner) => if is_stale(p, body_of(vehicles@, owner), now as int) {
                freed(p)
            } else {
                p
            },
            None => p,
        },
    }
}

fn owned_by(p: &ConflictPoint, vehicle: u32) -> (r: bool)
    ensures
        r == (p.reserved_by == Some(vehicle)),
{
    match p.reserved_by {
        Some(owner) => owner == vehicle,
        None => false,
    }
}

fn sweep_point(op: &Sweep<'_>, key: LaneMovementKey, p: ConflictPoint) -> (r: ConflictPoint)
    ensures
        r == swept(*op, key, p),
{
    match op {
        Sweep::ReleaseVehicle { vehicle } => {
            if owned_by(&p, *vehicle) {
                free_point(p)
            } else {
                p
            }
        },
        Sweep::CleanPassed { vehicle, in_edge, out_edge, center, half_length } => {
            let c: i128 = *center as i128;
            let rear: i128 = c - *half_length as i128;
            let s_rear: i128 = if rear >= 0 {
                rear
            } else {
                0
            };
            let s_center: i128 = if c >= 0 {
                c
            } else {
                0
            };
            let d: i128 = p.distance_on_path as i128;
            if key.in_edge == *in_edge && key.out_edge == *out_edge && owned_by(&p, *vehicle) && (
            s_center > d + CLEAN_CENTER_PAST as i128 || s_rear > d + CLEAN_REAR_PAST as i128) {
                free_point(p)
            } else {
                p
            }
        },
        Sweep::NoteMotion { vehicle, in_edge, out_edge, progress, now } => {
            if key.in_edge == *in_edge && key.out_edge == *out_edge && owned_by(&p, *vehicle) {
                let moved: bool = match p.last_progress {
                    Some(prev) => {
                        let diff: i128 = *progress as i128 - prev as i128;
                        diff > MOTION_STEP as i128 || -diff > MOTION_STEP as i128
                    },
                    None => true,
                };
                ConflictPoint {
                    id: p.id,
                    x: p.x,
                    y: p.y,
                    distance_on_path: p.distance_on_path,
                    radius: p.radius,
                    reserved_by: p.reserved_by,
                    reserved_at: p.reserved_at,
                    last_progress: Some(*progress),
                    last_motion: if moved {
                        Some(*now)
                    } else {
                        p.last_motion
                    },
                }
            } else {
                p
            }
        },
        Sweep::ReleaseOverridden { vehicles } => match p.reserved_by {
            Some(owner) => match conflict_patch_physical_occupied_by_other(vehicles, owner, &p) {
                Some(_) => free_point(p),
                None => p,
            },
            None => p,
        },
        Sweep::ExpireStale { vehicles, now } => match p.reserved_by {
            Some(owner) => {
                let stale: bool = match find_body(vehicles, owner) {
                    None => true,
                    Some(v) => {
                        let n: i128 = *now as i128;
                        let taken: i128 = match p.reserved_at {
                            Some(t) => t as i128,
                            None => n,
                        };
                        let moved: i128 = match p.last_motion {
                            Some(t) => t as i128,
                            None => taken,
                        };
                        v.despawned || (n - taken >= STALLED_TTL as i128 && v.on_turn_connector && n
                            - moved >= STALLED_TTL as i128)
                    },
                };
                if stale {
                    free_point(p)
                } else {
                    p
                }
            },
            None => p,
        },
    }
}

/// Every point of a path as the sweep leaves it.
pub open spec fn path_swept(op: Sweep<'_>, before: ConflictPath, after: ConflictPath) -> bool {
    &&& after.key == before.key
    &&& after.points@.len() == before.points@.len()
    &&& forall|k: int|
        0 <= k < before.points@.len() ==> #[trigger] after.points@[k] == swept(
            op,
            before.key,
            before.points@[k],
        )
}

/// Every path of a junction as the sweep leaves it.
pub open spec fn node_swept(
    op: Sweep<'_>,
    before: IntersectionConflictData,
    after: IntersectionConflictData,
) -> bool {
    &&& after.node == before.node
    &&& after.deadlock_timer == before.deadlock_timer
    &&& after.deadlock_first_move == before.deadlock_first_move
    &&& after.by_movement@.len() == before.by_movement@.len()
    &&& forall|j: int|
        0 <= j < before.by_movement@.len() ==> path_swept(
            op,
            #[trigger] before.by_movement@[j],
            after.by_movement@[j],
        )
}

/// Every junction as the sweep leaves it.
pub open spec fn system_swept(op: Sweep<'_>, before: ConflictSystem, after: ConflictSystem) -> bool {
    &&& after.nodes@.len() == before.nodes@.len()
    &&& forall|i: int|
        0 <= i < before.nodes@.len() ==> node_swept(
            op,
            #[trigger] before.nodes@[i],
            after.nodes@[i],
        )
}

fn sweep_points(op: &Sweep<'_>, key: LaneMovementKey, points: &mut Vec<ConflictPoint>)
    ensures
        final(points)@.len() == old(points)@.len(),
        forall|k: int|
            0 <= k < old(points)@.len() ==> #[trigger] final(points)@[k] == swept(
                *op,
                key,
                old(points)@[k],
            ),
{
    let mut k: usize = 0;
    while k < points.len()
        invariant
            k <= points.len(),
            points@.len() == old(points)@.len(),
            forall|m: int|
                0 <= m < k ==> #[trigger] points@[m] == swept(*op, key, old(points)@[m]),
            forall|m: int| k <= m < points@.len() ==> #[trigger] points@[m] == old(points)@[m],
        decreases points.len() - k,
    {
        let p: ConflictPoint = sweep_point(op, key, points[k]);
        points.set(k, p);
        k = k + 1;
    }
}

fn sweep_paths(op: &Sweep<'_>, paths: &mut Vec<ConflictPath>)
    ensures
        final(paths)@.len() == old(paths)@.len(),
        forall|j: int|
            0 <= j < old(paths)@.len() ==> path_swept(
                *op,
                #[trigger] old(paths)@[j],
                final(paths)@[j],
            ),
{
    let mut j: usize = 0;
    while j < paths.len()
        invariant
            j <= paths.len(),
            paths@.len() == old(paths)@.len(),
            forall|m: int|
                0 <= m < j ==> path_swept(*op, #[trigger] old(paths)@[m], paths@[m]),
            forall|m: int| j <= m < paths@.len() ==> #[trigger] paths@[m] == old(paths)@[m],
        decreases paths.len() - j,
    {
        let key: LaneMovementKey = paths[j].key;
        sweep_points(op, key, &mut paths[j].points);
        j = j + 1;
    }
}

impl ConflictSystem {
    fn sweep(&mut self, op: &Sweep<'_>)
        ensures
            system_swept(*op, *old(self), *final(self)),
    {
        let mut i: usize = 0;
        while i < self.nodes.len()
            invariant
                i <= self.nodes.len(),
                self.nodes@.len() == old(self).nodes@.len(),
                forall|m: int|
                    0 <= m < i ==> node_swept(
                        *op,
                        #[trigger] old(self).nodes@[m],
                        self.nodes@[m],
                    ),
                forall|m: int|
                    i <= m < self.nodes@.len() ==> #[trigger] self.nodes@[m] == old(self).nodes@[m],
            decreases self.nodes.len() - i,
        {
            sweep_paths(op, &mut self.nodes[i].by_movement);
            i = i + 1;
        }
    }

    /// No junction and no path of a junction is listed twice.
    pub open spec fn wf(&self) -> bool {
        &&& forall|i: int, j: int|
            0 <= i < self.nodes@.len() && 0 <= j < self.nodes@.len() && i != j ==> (
            #[trigger] self.nodes@[i]).node != (#[trigger] self.nodes@[j]).node
        &&& forall|i: int| 0 <= i < self.nodes@.len() ==> (#[trigger] self.nodes@[i]).wf()
    }

    /// Gives back every point that the vehicle holds.
    pub fn release_all_for_vehicle(&mut self, vehicle_id: u32)
        ensures
            system_swept(
                Sweep::ReleaseVehicle { vehicle: vehicle_id },
                *old(self),
                *final(self),
            ),
    {
        self.sweep(&Sweep::ReleaseVehicle { vehicle: vehicle_id });
    }

    /// Gives back the points that the vehicle has passed on its way between two edges.
    pub fn clean_passed_points_for_vehicle(
        &mut self,
        vehicle_id: u32,
        from_edge: usize,
        to_edge: usize,
        center: i64,
        half_length: i64,
    )
        ensures
            system_swept(
                (Sweep::CleanPassed {
                    vehicle: vehicle_id,
                    in_edge: from_edge,
                    out_edge: to_edge,
                    center,
                    half_length,
                }),
                *old(self),
                *final(self),
            ),
    {
        let op: Sweep<'_> = Sweep::CleanPassed {
            vehicle: vehicle_id,
            in_edge: from_edge,
            out_edge: to_edge,
            center,
            half_length,
        };
        self.sweep(&op);
    }

    /// Notes how far the vehicle has come and whether that counts as motion.
    pub fn update_reservation_motion_for_vehicle(
        &mut self,
        vehicle_id: u32,
        from_edge: usize,
        to_edge: usize,
        progress: i64,
        now: i64,
    )
        ensures
            system_swept(
                (Sweep::NoteMotion {
                    vehicle: vehicle_id,
                    in_edge: from_edge,
                    out_edge: to_edge,
                    progress,
                    now,
                }),
                *old(self),
                *final(self),
            ),
    {
        let op: Sweep<'_> = Sweep::NoteMotion {
            vehicle: vehicle_id,
            in_edge: from_edge,
            out_edge: to_edge,
            progress,
            now,
        };
        self.sweep(&op);
    }

    /// Gives back points on which a vehicle other than the owner stands.
    pub fn release_reservations_overridden_by_foreign_occupants(
        &mut self,
        vehicles: &Vec<VehicleBody>,
    )
        ensures
            system_swept(
                (Sweep::ReleaseOverridden { vehicles }),
                *old(self),
                *final(self),
            ),
    {
        let op: Sweep<'_> = Sweep::ReleaseOverridden { vehicles };
        self.sweep(&op);
    }

    /// Gives back points whose owner is gone, or turning but stalled for too long.
    pub fn expire_stale_reservations(&mut self, vehicles: &Vec<VehicleBody>, now: i64)
        ensures
            system_swept((Sweep::ExpireStale { vehicles, now }), *old(self), *final(self)),
    {
        let op: Sweep<'_> = Sweep::ExpireStale { vehicles, now };
        self.sweep(&op);
    }

    /// The place of the junction at `node` in the list.
    fn find_node(&self, node: usize) -> (r: Option<usize>)
        ensures
            match r {
                Some(i) => i < self.nodes@.len() && self.nodes@[i as int].node == node,
                None => forall|i: int|
                    0 <= i < self.nodes@.len() ==> (#[trigger] self.nodes@[i]).node != node,
            },
    {
        let mut i: usize = 0;
        while i < self.nodes.len()
            invariant
                i <= self.nodes.len(),
                forall|m: int| 0 <= m < i ==> (#[trigger] self.nodes@[m]).node != node,
            decreases self.nodes.len() - i,
        {
            if self.nodes[i].node == node {
                return Some(i);
            }
            i = i + 1;
        }
        None
    }

    /// The places of junction and path in the lists.
    fn find_path(&self, node: usize, key: LaneMovementKey) -> (r: Option<(usize, usize)>)
        requires
            self.wf(),
        ensures
            match r {
                Some(p) => self.has_path_at(p.0 as int, p.1 as int, node, key),
                None => forall|i: int, j: int| !#[trigger] self.has_path_at(i, j, node, key),
            },
    {
        match self.find_node(node) {
            Some(i) => {
                let mut j: usize = 0;
                while j < self.nodes[i].by_movement.len()
                    invariant
                        i < self.nodes@.len(),
                        self.nodes@[i as int].node == node,
                        j <= self.nodes@[i as int].by_movement@.len(),
                        forall|m: int|
                            0 <= m < j ==> (#[trigger] self.nodes@[i as int].by_movement@[m]).key
                                != key,
                    decreases self.nodes@[i as int].by_movement@.len() - j,
                {
                    if self.nodes[i].by_movement[j].key == key {
                        return Some((i, j));
                    }
                    j = j + 1;
                }
                proof {
                    assert forall|a: int, b: int| !#[trigger] self.has_path_at(a, b, node, key) by {
                        if self.has_path_at(a, b, node, key) && a != i {
                            assert(self.nodes@[a].node != self.nodes@[i as int].node);
                        }
                    }
                }
                None
            },
            None => None,
        }
    }

    /// The path `key` through the junction `node` is the `j`-th path of the `i`-th junction.
    pub open spec fn has_path_at(&self, i: int, j: int, node: usize, key: LaneMovementKey) -> bool {
        &&& 0 <= i < self.nodes@.len()
        &&& self.nodes@[i].node == node
        &&& 0 <= j < self.nodes@[i].by_movement@.len()
        &&& self.nodes@[i].by_movement@[j].key == key
    }

    /// The points of one path of one junction.
    pub open spec fn points_at(&self, i: int, j: int) -> Seq<ConflictPoint> {
        self.nodes@[i].by_movement@[j].points@
    }

    /// `after` differs from this system in the points of one path at most.
    pub open spec fn only_path_differs(&self, after: &ConflictSystem, i: int, j: int) -> bool {
        &&& after.nodes@.len() == self.nodes@.len()
        &&& forall|m: int|
            0 <= m < self.nodes@.len() && m != i ==> #[trigger] after.nodes@[m] == self.nodes@[m]
        &&& after.nodes@[i].node == self.nodes@[i].node
        &&& after.nodes@[i].deadlock_timer == self.nodes@[i].deadlock_timer
        &&& after.nodes@[i].deadlock_first_move == self.nodes@[i].deadlock_first_move
        &&& after.nodes@[i].by_movement@.len() == self.nodes@[i].by_movement@.len()
        &&& forall|m: int|
            0 <= m < self.nodes@[i].by_movement@.len() && m != j
                ==> #[trigger] after.nodes@[i].by_movement@[m] == self.nodes@[i].by_movement@[m]
        &&& after.nodes@[i].by_movement@[j].key == self.nodes@[i].by_movement@[j].key
    }

    /// `after` is this system after the near points of a path were claimed, or refused with `r`:
    /// nothing is claimed when another vehicle stands on or holds any point of the path.
    pub open spec fn entry_claimed(
        &self,
        after: &ConflictSystem,
        vehicle_id: u32,
        movement: LaneMovementKey,
        node: usize,
        now: i64,
        vehicles: Seq<VehicleBody>,
        r: Result<(), Blocked>,
    ) -> bool {
        &&& (forall|i: int, j: int| !#[trigger] self.has_path_at(i, j, node, movement)) ==> r
            == Ok::<(), Blocked>(()) && *after == *self
        &&& forall|i: int, j: int|
            #[trigger] self.has_path_at(i, j, node, movement) ==> {
                let points = self.points_at(i, j);
                match entry_block(points, vehicles, vehicle_id) {
                    Some(b) => r == Err::<(), Blocked>(b) && *after == *self,
                    None => {
                        &&& r == Ok::<(), Blocked>(())
                        &&& self.only_path_differs(after, i, j)
                        &&& after.points_at(i, j) == points.map_values(
                            |p: ConflictPoint| claimed_on_entry(p, vehicle_id, now),
                        )
                    },
                }
            }
    }

    /// `after` is this system after a claim was extended along a path, with the outcome `r`: points
    /// up to the horizon are claimed up to the first that another vehicle stands on or holds.
    pub open spec fn arc_claimed(
        &self,
        after: &ConflictSystem,
        vehicle_id: u32,
        movement: LaneMovementKey,
        node: usize,
        center: i64,
        half_length: i64,
        now: i64,
        vehicles: Seq<VehicleBody>,
        r: Result<(), Blocked>,
    ) -> bool {
        &&& (forall|i: int, j: int| !#[trigger] self.has_path_at(i, j, node, movement)) ==> r
            == Ok::<(), Blocked>(()) && *after == *self
        &&& forall|i: int, j: int|
            #[trigger] self.has_path_at(i, j, node, movement) ==> {
                let points = self.points_at(i, j);
                let horizon = center + half_length + RESERVE_HORIZON_AHEAD;
                let stop = extension_end(points, vehicles, vehicle_id, horizon);
                &&& self.only_path_differs(after, i, j)
                &&& after.points_at(i, j).len() == points.len()
                &&& forall|k: int|
                    0 <= k < points.len() ==> #[trigger] after.points_at(i, j)[k] == (if k < stop {
                        claimed_on_arc(points[k], vehicle_id, now, center, horizon)
                    } else {
                        points[k]
                    })
                &&& r == (if stop < points.len() {
                    Err::<(), Blocked>(
                        arc_block(points[stop], vehicles, vehicle_id, horizon).unwrap(),
                    )
                } else {
                    Ok(())
                })
            }
    }

    /// Claims the near points of a path before the vehicle enters the junction.
    ///
    /// Nothing is claimed when another vehicle stands on or holds any point of the path; the
    /// first such point and vehicle are reported. Without conflict data for the path the way
    /// is free.
    pub fn try_reserve_all_for_vehicle(
        &mut self,
        vehicle_id: u32,
        movement: LaneMovementKey,
        node: usize,
        now: i64,
        vehicles: &Vec<VehicleBody>,
    ) -> (r: Result<(), Blocked>)
        requires
            old(self).wf(),
        ensures
            final(self).wf(),
            old(self).entry_claimed(final(self), vehicle_id, movement, node, now, vehicles@, r),
    {
        let place: Option<(usize, usize)> = self.find_path(node, movement);
        match place {
            None => Ok(()),
            Some(ij) => {
                let i: usize = ij.0;
                let j: usize = ij.1;
                proof {
                    assert(self.has_path_at(i as int, j as int, node, movement));
                    self.lemma_path_unique(node, movement, i as int, j as int);
                }
                let block: Option<Blocked> = find_entry_block(
                    &self.nodes[i].by_movement[j].points,
                    vehicles,
                    vehicle_id,
                );
                match block {
                    Some(b) => Err(b),
                    None => {
                        claim_near_points(
                            &mut self.nodes[i].by_movement[j].points,
                            vehicle_id,
                            now,
                        );
                        proof {
                            let ghost nf = |p: ConflictPoint| claimed_on_entry(p, vehicle_id, now);
                            assert(self.points_at(i as int, j as int) =~= old(self).points_at(
                                i as int,
                                j as int,
                            ).map_values(nf));
                            self.lemma_wf_kept(old(self), i as int, j as int);
                        }
                        Ok(())
                    },
                }
            },
        }
    }

    /// Extends the vehicle's claim along its path while it turns.
    ///
    /// Points up to the horizon ahead of the vehicle's front are claimed in path order. The
    /// first point that another vehicle stands on or holds ends the extension and is reported;
    /// points claimed before it stay claimed.
    pub fn expand_connector_conflict_reservations_along_arc(
        &mut self,
        vehicle_id: u32,
        movement: LaneMovementKey,
        node: usize,
        center: i64,
        half_length: i64,
        now: i64,
        vehicles: &Vec<VehicleBody>,
    ) -> (r: Result<(), Blocked>)
        requires
            old(self).wf(),
        ensures
            final(self).wf(),
            old(self).arc_claimed(
                final(self),
                vehicle_id,
                movement,
                node,
                center,
                half_length,
                now,
                vehicles@,
                r,
            ),
    {
        let place: Option<(usize, usize)> = self.find_path(node, movement);
        match place {
            None => Ok(()),
            Some(ij) => {
                let i: usize = ij.0;
                let j: usize = ij.1;
                proof {
                    assert(self.has_path_at(i as int, j as int, node, movement));
                    self.lemma_path_unique(node, movement, i as int, j as int);
                }
                let horizon: i128 = center as i128 + half_length as i128
                    + RESERVE_HORIZON_AHEAD as i128;
                let r: Result<(), Blocked> = extend_claim(
                    &mut self.nodes[i].by_movement[j].points,
                    vehicle_id,
                    center,
                    horizon,
                    now,
                    vehicles,
                );
                proof {
                    self.lemma_wf_kept(old(self), i as int, j as int);
                }
                r
            },
        }
    }

    /// In a well-formed system a path is found in one place only.
    proof fn lemma_path_unique(&self, node: usize, key: LaneMovementKey, i: int, j: int)
        requires
            self.wf(),
            self.has_path_at(i, j, node, key),
        ensures
            forall|a: int, b: int|
                #[trigger] self.has_path_at(a, b, node, key) ==> a == i && b == j,
    {
        assert forall|a: int, b: int| #[trigger] self.has_path_at(a, b, node, key) implies a == i
            && b == j by {
            if a != i {
                assert(self.nodes@[a].node != self.nodes@[i].node);
            }
            assert(self.nodes@[i].wf());
        }
    }

    /// Changing the points of one path keeps a system well-formed.
    proof fn lemma_wf_kept(&self, before: &ConflictSystem, i: int, j: int)
        requires
            before.wf(),
            0 <= i < before.nodes@.len(),
            0 <= j < before.nodes@[i].by_movement@.len(),
            before.only_path_differs(self, i, j),
        ensures
            self.wf(),
    {
        assert forall|m: int| 0 <= m < self.nodes@.len() implies (#[trigger] self.nodes@[m]).node
            == before.nodes@[m].node by {
            if m != i {
                assert(self.nodes@[m] == before.nodes@[m]);
            }
        }
        assert forall|a: int, b: int|
            0 <= a < self.nodes@.len() && 0 <= b < self.nodes@.len() && a != b implies (
        #[trigger] self.nodes@[a]).node != (#[trigger] self.nodes@[b]).node by {
            assert(before.nodes@[a].node != before.nodes@[b].node);
        }
        assert forall|m: int| 0 <= m < self.nodes@.len() implies (#[trigger] self.nodes@[m]).wf() by {
            assert(before.nodes@[m].wf());
            if m == i {
                let old_paths = before.nodes@[i].by_movement@;
                let new_paths = self.nodes@[i].by_movement@;
                assert forall|a: int, b: int|
                    0 <= a < new_paths.len() && 0 <= b < new_paths.len() && a != b implies (
                #[trigger] new_paths[a]).key != (#[trigger] new_paths[b]).key by {
                    assert(new_paths[a].key == old_paths[a].key) by {
                        if a != j {
                            assert(self.nodes@[i].by_movement@[a] == before.nodes@[i].by_movement@[a]);
                        }
                    }
                    assert(new_paths[b].key == old_paths[b].key) by {
                        if b != j {
                            assert(self.nodes@[i].by_movement@[b] == before.nodes@[i].by_movement@[b]);
                        }
                    }
                    assert(old_paths[a].key != old_paths[b].key);
                }
            } else {
                assert(self.nodes@[m] == before.nodes@[m]);
            }
        }
    }
}

impl IntersectionConflictData {
    /// No path is listed twice.
    pub open spec fn wf(&self) -> bool {
        forall|a: int, b: int|
            0 <= a < self.by_movement@.len() && 0 <= b < self.by_movement@.len() && a != b ==> (
            #[trigger] self.by_movement@[a]).key != (#[trigger] self.by_movement@[b]).key
    }
}

/// The first point of the path that another vehicle stands on.
pub open spec fn occupied_block(
    points: Seq<ConflictPoint>,
    vehicles: Seq<VehicleBody>,
    me: u32,
) -> Option<Blocked>
    decreases points.len(),
{
    if points.len() == 0 {
        None
    } else {
        match occupant_of(vehicles, me, points[0]) {
            Some(by) => Some(Blocked { x: points[0].x, y: points[0].y, by }),
            None => occupied_block(points.skip(1), vehicles, me),
        }
    }
}

/// The first point of the path that another vehicle holds.
pub open spec fn reserved_block(points: Seq<ConflictPoint>, me: u32) -> Option<Blocked>
    decreases points.len(),
{
    if points.len() == 0 {
        None
    } else if points[0].reserved_by is Some && points[0].reserved_by != Some(me) {
        Some(
            Blocked { x: points[0].x, y: points[0].y, by: points[0].reserved_by.unwrap() },
        )
    } else {
        reserved_block(points.skip(1), me)
    }
}

/// What keeps a vehicle from claiming a path: first any occupied point, then any point held by
/// another vehicle.
pub open spec fn entry_block(
    points: Seq<ConflictPoint>,
    vehicles: Seq<VehicleBody>,
    me: u32,
) -> Option<Blocked> {
    match occupied_block(points, vehicles, me) {
        Some(b) => Some(b),
        None => reserved_block(points, me),
    }
}

/// A point after a successful entry claim: the near ones are claimed.
pub open spec fn claimed_on_entry(p: ConflictPoint, me: u32, now: i64) -> ConflictPoint {
    if p.distance_on_path <= RESERVE_INITIAL_ARC {
        claimed(p, me, now, 0)
    } else {
        p
    }
}

fn find_entry_block(
    points: &Vec<ConflictPoint>,
    vehicles: &Vec<VehicleBody>,
    me: u32,
) -> (r: Option<Blocked>)
    ensures
        r == entry_block(points@, vehicles@, me),
{
    let mut k: usize = 0;
    assert(points@.skip(0) =~= points@);
    while k < points.len()
        invariant
            k <= points.len(),
            occupied_block(points@, vehicles@, me) == occupied_block(
                points@.skip(k as int),
                vehicles@,
                me,
            ),
        decreases points.len() - k,
    {
        let p: ConflictPoint = points[k];
        assert(points@.skip(k as int)[0] == p);
        assert(points@.skip(k as int).skip(1) =~= points@.skip(k + 1));
        match conflict_patch_physical_occupied_by_other(vehicles, me, &p) {
            Some(by) => {
                return Some(Blocked { x: p.x, y: p.y, by });
            },
            None => {},
        }
        k = k + 1;
    }
    let mut m: usize = 0;
    while m < points.len()
        invariant
            m <= points.len(),
            occupied_block(points@, vehicles@, me) is None,
            reserved_block(points@, me) == reserved_block(points@.skip(m as int), me),
        decreases points.len() - m,
    {
        let p: ConflictPoint = points[m];
        assert(points@.skip(m as int)[0] == p);
        assert(points@.skip(m as int).skip(1) =~= points@.skip(m + 1));
        match p.reserved_by {
            Some(owner) => {
                if owner != me {
                    return Some(Blocked { x: p.x, y: p.y, by: owner });
                }
            },
            None => {},
        }
        m = m + 1;
    }
    None
}

fn claim_near_points(points: &mut Vec<ConflictPoint>, me: u32, now: i64)
    ensures
        final(points)@.len() == old(points)@.len(),
        forall|k: int|
            0 <= k < old(points)@.len() ==> #[trigger] final(points)@[k] == claimed_on_entry(
                old(points)@[k],
                me,
                now,
            ),
{
    let mut k: usize = 0;
    while k < points.len()
        invariant
            k <= points.len(),
            points@.len() == old(points)@.len(),
            forall|m: int|
                0 <= m < k ==> #[trigger] points@[m] == claimed_on_entry(old(points)@[m], me, now),
            forall|m: int| k <= m < points@.len() ==> #[trigger] points@[m] == old(points)@[m],
        decreases points.len() - k,
    {
        let p: ConflictPoint = points[k];
        if p.distance_on_path <= RESERVE_INITIAL_ARC {
            points.set(k, claim_point(p, me, now, 0));
        }
        k = k + 1;
    }
}

/// What keeps a turning vehicle from extending its claim over a point. Points beyond the
/// horizon and points that it already holds do not.
pub open spec fn arc_block(
    p: ConflictPoint,
    vehicles: Seq<VehicleBody>,
    me: u32,
    horizon: int,
) -> Option<Blocked> {
    if p.distance_on_path > horizon || p.reserved_by == Some(me) {
        None
    } else {
        match occupant_of(vehicles, me, p) {
            Some(by) => Some(Blocked { x: p.x, y: p.y, by }),
            None => match p.reserved_by {
                Some(owner) => Some(Blocked { x: p.x, y: p.y, by: owner }),
                None => None,
            },
        }
    }
}

/// A point after the claim has been extended over it.
pub open spec fn claimed_on_arc(
    p: ConflictPoint,
    me: u32,
    now: i64,
    center: i64,
    horizon: int,
) -> ConflictPoint {
    if p.distance_on_path > horizon || p.reserved_by == Some(me) {
        p
    } else {
        claimed(p, me, now, center)
    }
}

/// The first point that stops the extension, or the number of points.
pub open spec fn extension_end(
    points: Seq<ConflictPoint>,
    vehicles: Seq<VehicleBody>,
    me: u32,
    horizon: int,
) -> int
    decreases points.len(),
{
    if points.len() == 0 || arc_block(points[0], vehicles, me, horizon) is Some {
        0
    } else {
        1 + extension_end(points.skip(1), vehicles, me, horizon)
    }
}

fn extend_claim(
    points: &mut Vec<ConflictPoint>,
    me: u32,
    center: i64,
    horizon: i128,
    now: i64,
    vehicles: &Vec<VehicleBody>,
) -> (r: Result<(), Blocked>)
    ensures
        ({
            let stop = extension_end(old(points)@, vehicles@, me, horizon as int);
            &&& 0 <= stop <= old(points)@.len()
            &&& final(points)@.len() == old(points)@.len()
            &&& forall|k: int|
                0 <= k < old(points)@.len() ==> #[trigger] final(points)@[k] == (if k < stop {
                    claimed_on_arc(old(points)@[k], me, now, center, horizon as int)
                } else {
                    old(points)@[k]
                })
            &&& r == (if stop < old(points)@.len() {
                Err::<(), Blocked>(
                    arc_block(old(points)@[stop], vehicles@, me, horizon as int).unwrap(),
                )
            } else {
                Ok(())
            })
        }),
{
    let ghost before = points@;
    let mut k: usize = 0;
    assert(before.skip(0) =~= before);
    while k < points.len()
        invariant
            k <= points.len(),
            before == old(points)@,
            points@.len() == before.len(),
            extension_end(before, vehicles@, me, horizon as int) == k + extension_end(
                before.skip(k as int),
                vehicles@,
                me,
                horizon as int,
            ),
            forall|m: int|
                0 <= m < k ==> #[trigger] points@[m] == claimed_on_arc(
                    before[m],
                    me,
                    now,
                    center,
                    horizon as int,
                ),
            forall|m: int| k <= m < points@.len() ==> #[trigger] points@[m] == before[m],
        decreases points.len() - k,
    {
        let p: ConflictPoint = points[k];
        assert(before.skip(k as int)[0] == p);
        assert(before.skip(k as int).skip(1) =~= before.skip(k + 1));
        if p.distance_on_path as i128 <= horizon && !owned_by(&p, me) {
            match conflict_patch_physical_occupied_by_other(vehicles, me, &p) {
                Some(by) => {
                    return Err(Blocked { x: p.x, y: p.y, by });
                },
                None => {},
            }
            match p.reserved_by {
                Some(owner) => {
                    return Err(Blocked { x: p.x, y: p.y, by: owner });
                },
                None => {},
            }
            points.set(k, claim_point(p, me, now, center));
        }
        k = k + 1;
    }
    Ok(())
}

/// A reservation that a vehicle meets on its path.
#[derive(Clone, Copy, Debug)]
pub struct BlockingConflict {
    pub gap: i64,
    pub x: i64,
    pub y: i64,
    pub owner: u32,
    pub point_id: u64,
}

/// Smallest gap handed to the car-following model.
pub const MIN_IDM_GAP: i64 = 100_000;

/// Raw distance below which a point under the hood stops an approaching vehicle at once.
pub const HARD_STOP_APPROACH: i64 = 14_000_000;

/// Raw distance below which a point under the hood stops a turning vehicle at once.
pub const HARD_STOP_CONNECTOR: i64 = 28_000_000;

/// Extra clearance beyond which a point is no obstacle for a turning vehicle.
pub const EUCLIDEAN_CLEAR_EXTRA: i64 = 3_250_000;

/// From where a vehicle looks for reservations on its path.
#[derive(Clone, Copy, Debug)]
pub enum Outlook {
    /// On the approach, at this distance before the path begins.
    Approaching { to_entry: i64 },
    /// On the path, with its front at this distance along it.
    OnArc { front: i64 },
}

/// Whether a point lies so far from the vehicle's centre that it cannot matter.
pub open spec fn clear_of(v: VehicleBody, p: ConflictPoint) -> bool {
    let r = saturated(
        v.path_radius + patch_radius(p) + SHAPE_BUFFER + EUCLIDEAN_CLEAR_EXTRA,
    );
    square_distance(v.x as int, v.y as int, p.x as int, p.y as int) > r * r
}

/// The distance to a point along the path.
pub open spec fn raw_distance(from: Outlook, p: ConflictPoint) -> int {
    match from {
        Outlook::Approaching { to_entry } => to_entry + p.distance_on_path,
        Outlook::OnArc { front } => p.distance_on_path - front,
    }
}

/// The raw distance below which a point under the hood stops the vehicle at once.
pub open spec fn hard_stop_reach(from: Outlook) -> int {
    match from {
        Outlook::Approaching { .. } => HARD_STOP_APPROACH as int,
        Outlook::OnArc { .. } => HARD_STOP_CONNECTOR as int,
    }
}

/// The gap that a point held by another vehicle leaves, where the point is an obstacle: own
/// and free points are none, nor points that the vehicle is already on, nor points beyond the
/// look-ahead; on the arc also not points behind the front or clear of the vehicle.
pub open spec fn blocking_gap(
    v: VehicleBody,
    from: Outlook,
    look_ahead: int,
    p: ConflictPoint,
) -> Option<int> {
    let raw = raw_distance(from, p);
    let gap = if raw <= hard_stop_reach(from) && hood_conflicts(v, p) {
        MIN_IDM_GAP as int
    } else {
        larger(raw - v.path_radius - SHAPE_BUFFER, MIN_IDM_GAP as int)
    };
    if p.reserved_by is None || p.reserved_by == Some(v.id) || body_overlaps(v, p) {
        None
    } else if from is OnArc && (clear_of(v, p) || raw < 0) {
        None
    } else if gap > look_ahead {
        None
    } else {
        Some(saturated(gap))
    }
}

fn point_blocking_gap(v: &VehicleBody, from: Outlook, look_ahead: i64, p: &ConflictPoint) -> (r:
    Option<i64>)
    ensures
        match r {
            Some(g) => blocking_gap(*v, from, look_ahead as int, *p) == Some(g as int),
            None => blocking_gap(*v, from, look_ahead as int, *p) is None,
        },
{
    match p.reserved_by {
        None => {
            return None;
        },
        Some(owner) => {
            if owner == v.id {
                return None;
            }
        },
    }
    if vehicle_body_physically_overlaps_conflict_patch(v, p) {
        return None;
    }
    let raw: i128 = match from {
        Outlook::Approaching { to_entry } => to_entry as i128 + p.distance_on_path as i128,
        Outlook::OnArc { front } => p.distance_on_path as i128 - front as i128,
    };
    let reach: i64 = match from {
        Outlook::Approaching { .. } => HARD_STOP_APPROACH,
        Outlook::OnArc { .. } => {
            let patch: i64 = max_of(p.radius, MIN_PATCH_RADIUS);
            let cap: i64 = saturate(
                v.path_radius as i128 + patch as i128 + SHAPE_BUFFER as i128
                    + EUCLIDEAN_CLEAR_EXTRA as i128,
            );
            if !within(v.x, v.y, p.x, p.y, cap) {
                return None;
            }
            if raw < 0 {
                return None;
            }
            HARD_STOP_CONNECTOR
        },
    };
    let shaped: i128 = raw - v.path_radius as i128 - SHAPE_BUFFER as i128;
    let gap: i128 = if raw <= reach as i128 && hood_conflicts_conflict_ball(v, p) {
        MIN_IDM_GAP as i128
    } else if shaped >= MIN_IDM_GAP as i128 {
        shaped
    } else {
        MIN_IDM_GAP as i128
    };
    if gap > look_ahead as i128 {
        return None;
    }
    Some(saturate(gap))
}

/// Whether the `k`-th point is the nearest obstacle of the path, the first one among equals.
pub open spec fn nearest_block(
    v: VehicleBody,
    from: Outlook,
    look_ahead: int,
    points: Seq<ConflictPoint>,
    k: int,
) -> bool {
    &&& 0 <= k < points.len()
    &&& blocking_gap(v, from, look_ahead, points[k]) is Some
    &&& forall|m: int|
        0 <= m < points.len() && blocking_gap(v, from, look_ahead, #[trigger] points[m]) is Some
            ==> {
            let mine = blocking_gap(v, from, look_ahead, points[k]).unwrap();
            let other = blocking_gap(v, from, look_ahead, points[m]).unwrap();
            mine <= other && (m < k ==> mine < other)
        }
}

fn nearest_of(v: &VehicleBody, from: Outlook, look_ahead: i64, points: &Vec<ConflictPoint>) -> (r:
    Option<BlockingConflict>)
    ensures
        match r {
            Some(b) => exists|k: int|
                {
                    &&& #[trigger] nearest_block(*v, from, look_ahead as int, points@, k)
                    &&& b == conflict_report(*v, from, look_ahead as int, points@[k])
                },
            None => forall|m: int|
                0 <= m < points@.len() ==> blocking_gap(
                    *v,
                    from,
                    look_ahead as int,
                    #[trigger] points@[m],
                ) is None,
        },
{
    let mut best: Option<BlockingConflict> = None;
    let ghost mut at: int = 0;
    let ghost la = look_ahead as int;
    let mut k: usize = 0;
    while k < points.len()
        invariant
            k <= points.len(),
            la == look_ahead as int,
            match best {
                Some(b) => {
                    &&& 0 <= at < k
                    &&& b == conflict_report(*v, from, la, points@[at])
                    &&& blocking_gap(*v, from, la, points@[at]) == Some(b.gap as int)
                    &&& forall|m: int|
                        0 <= m < k && blocking_gap(*v, from, la, #[trigger] points@[m]) is Some ==> {
                            let other = blocking_gap(*v, from, la, points@[m]).unwrap();
                            b.gap <= other && (m < at ==> b.gap < other)
                        }
                },
                None => forall|m: int|
                    0 <= m < k ==> blocking_gap(*v, from, la, #[trigger] points@[m]) is None,
            },
        decreases points.len() - k,
    {
        let p: ConflictPoint = points[k];
        match point_blocking_gap(v, from, look_ahead, &p) {
            Some(gap) => {
                let better: bool = match best {
                    Some(b) => gap < b.gap,
                    None => true,
                };
                if better {
                    let owner: u32 = match p.reserved_by {
                        Some(o) => o,
                        None => 0,
                    };
                    best = Some(BlockingConflict { gap, x: p.x, y: p.y, owner, point_id: p.id });
                    proof {
                        at = k as int;
                    }
                }
            },
            None => {},
        }
        k = k + 1;
    }
    proof {
        if best is Some {
            assert(nearest_block(*v, from, la, points@, at));
        }
    }
    best
}

/// What is reported of a point that blocks a vehicle.
pub open spec fn conflict_report(
    v: VehicleBody,
    from: Outlook,
    look_ahead: int,
    p: ConflictPoint,
) -> BlockingConflict {
    BlockingConflict {
        gap: blocking_gap(v, from, look_ahead, p).unwrap() as i64,
        x: p.x,
        y: p.y,
        owner: p.reserved_by.unwrap(),
        point_id: p.id,
    }
}

impl ConflictSystem {
    /// The nearest reservation of another vehicle on the path `movement` through `node`.
    fn first_blocking(
        &self,
        vehicle: &VehicleBody,
        movement: LaneMovementKey,
        from: Outlook,
        look_ahead: i64,
        node: usize,
    ) -> (r: Option<BlockingConflict>)
        requires
            self.wf(),
        ensures
            self.blocks_as_reported(*vehicle, movement, from, look_ahead, node, r),
    {
        match self.find_path(node, movement) {
            None => None,
            Some(ij) => {
                proof {
                    assert(self.has_path_at(ij.0 as int, ij.1 as int, node, movement));
                    self.lemma_path_unique(node, movement, ij.0 as int, ij.1 as int);
                }
                nearest_of(vehicle, from, look_ahead, &self.nodes[ij.0].by_movement[ij.1].points)
            },
        }
    }

    /// `r` is the nearest reservation of another vehicle on the path; `None` without conflict
    /// data for the path or without an obstacle on it.
    pub open spec fn blocks_as_reported(
        &self,
        vehicle: VehicleBody,
        movement: LaneMovementKey,
        from: Outlook,
        look_ahead: i64,
        node: usize,
        r: Option<BlockingConflict>,
    ) -> bool {
        &&& (forall|i: int, j: int| !#[trigger] self.has_path_at(i, j, node, movement)) ==> r is None
        &&& forall|i: int, j: int|
            #[trigger] self.has_path_at(i, j, node, movement) ==> match r {
                Some(b) => exists|k: int|
                    {
                        &&& #[trigger] nearest_block(
                            vehicle,
                            from,
                            look_ahead as int,
                            self.points_at(i, j),
                            k,
                        )
                        &&& b == conflict_report(
                            vehicle,
                            from,
                            look_ahead as int,
                            self.points_at(i, j)[k],
                        )
                    },
                None => forall|m: int|
                    0 <= m < self.points_at(i, j).len() ==> blocking_gap(
                        vehicle,
                        from,
                        look_ahead as int,
                        #[trigger] self.points_at(i, j)[m],
                    ) is None,
            }
    }

    /// The nearest reservation that an approaching vehicle has to stop for.
    pub fn first_blocking_conflict_distance(
        &self,
        vehicle: &VehicleBody,
        movement: LaneMovementKey,
        dist_to_entry: i64,
        look_ahead: i64,
        node: usize,
    ) -> (r: Option<BlockingConflict>)
        requires
            self.wf(),
        ensures
            self.blocks_as_reported(
                *vehicle,
                movement,
                (Outlook::Approaching { to_entry: dist_to_entry }),
                look_ahead,
                node,
                r,
            ),
    {
        let from: Outlook = Outlook::Approaching { to_entry: dist_to_entry };
        self.first_blocking(vehicle, movement, from, look_ahead, node)
    }

    /// The nearest reservation that a turning vehicle has to stop for.
    pub fn first_blocking_conflict_on_arc(
        &self,
        vehicle: &VehicleBody,
        movement: LaneMovementKey,
        front: i64,
        look_ahead: i64,
        node: usize,
    ) -> (r: Option<BlockingConflict>)
        requires
            self.wf(),
        ensures
            self.blocks_as_reported(
                *vehicle,
                movement,
                (Outlook::OnArc { front }),
                look_ahead,
                node,
                r,
            ),
    {
        let from: Outlook = Outlook::OnArc { front };
        self.first_blocking(vehicle, movement, from, look_ahead, node)
    }

    /// Two ways through a junction meet: some path of the one and some path of the other have
    /// conflict points less than a metre apart.
    pub open spec fn movements_meet(
        &self,
        a: (usize, usize),
        b: (usize, usize),
        node: usize,
    ) -> bool {
        exists|i: int, ja: int, jb: int|
            {
                &&& 0 <= i < self.nodes@.len()
                &&& self.nodes@[i].node == node
                &&& #[trigger] self.path_serves(i, ja, a)
                &&& #[trigger] self.path_serves(i, jb, b)
                &&& points_meet(self.points_at(i, ja), self.points_at(i, jb))
            }
    }

    /// The `j`-th path of the `i`-th junction leads from edge `m.0` to edge `m.1`.
    pub open spec fn path_serves(&self, i: int, j: int, m: (usize, usize)) -> bool {
        &&& 0 <= j < self.nodes@[i].by_movement@.len()
        &&& self.nodes@[i].by_movement@[j].key.in_edge == m.0
        &&& self.nodes@[i].by_movement@[j].key.out_edge == m.1
    }

    /// Whether two ways through a junction meet.
    pub fn movements_conflict(&self, a: (usize, usize), b: (usize, usize), node: usize) -> (r: bool)
        requires
            self.wf(),
        ensures
            r == self.movements_meet(a, b, node),
    {
        match self.find_node(node) {
            None => false,
            Some(i) => {
                let n: usize = self.nodes[i].by_movement.len();
                let mut ja: usize = 0;
                while ja < n
                    invariant
                        self.wf(),
                        i < self.nodes@.len(),
                        self.nodes@[i as int].node == node,
                        n == self.nodes@[i as int].by_movement@.len(),
                        ja <= n,
                        forall|x: int, y: int|
                            0 <= x < ja && #[trigger] self.path_serves(i as int, x, a)
                                && #[trigger] self.path_serves(i as int, y, b) ==> !points_meet(
                                self.points_at(i as int, x),
                                self.points_at(i as int, y),
                            ),
                    decreases n - ja,
                {
                    let ka: LaneMovementKey = self.nodes[i].by_movement[ja].key;
                    if ka.in_edge == a.0 && ka.out_edge == a.1 {
                        let mut jb: usize = 0;
                        while jb < n
                            invariant
                                self.wf(),
                                i < self.nodes@.len(),
                                self.nodes@[i as int].node == node,
                                n == self.nodes@[i as int].by_movement@.len(),
                                ja < n,
                                jb <= n,
                                self.path_serves(i as int, ja as int, a),
                                forall|y: int|
                                    0 <= y < jb && #[trigger] self.path_serves(i as int, y, b)
                                        ==> !points_meet(
                                        self.points_at(i as int, ja as int),
                                        self.points_at(i as int, y),
                                    ),
                            decreases n - jb,
                        {
                            let kb: LaneMovementKey = self.nodes[i].by_movement[jb].key;
                            if kb.in_edge == b.0 && kb.out_edge == b.1 {
                                assert(self.path_serves(i as int, jb as int, b));
                                if any_points_meet(
                                    &self.nodes[i].by_movement[ja].points,
                                    &self.nodes[i].by_movement[jb].points,
                                ) {
                                    return true;
                                }
                            }
                            jb = jb + 1;
                        }
                    }
                    ja = ja + 1;
                }
                proof {
                    if self.movements_meet(a, b, node) {
                        let (x, ja0, jb0) = choose|x: int, ja0: int, jb0: int|
                            {
                                &&& 0 <= x < self.nodes@.len()
                                &&& self.nodes@[x].node == node
                                &&& #[trigger] self.path_serves(x, ja0, a)
                                &&& #[trigger] self.path_serves(x, jb0, b)
                                &&& points_meet(self.points_at(x, ja0), self.points_at(x, jb0))
                            };
                        if x != i {
                            assert(self.nodes@[x].node != self.nodes@[i as int].node);
                        }
                        assert(self.path_serves(i as int, ja0, a));
                        assert(self.path_serves(i as int, jb0, b));
                    }
                }
                false
            },
        }
    }

    /// Advances the deadlock watch of every junction.
    ///
    /// `waiting` lists the junction and id of each vehicle that stands at a stop line giving
    /// way. Where two or more wait at one junction its timer runs; once it has run for the
    /// allowed time the waiting vehicle with the smallest id may go first. Otherwise the watch
    /// is reset.
    pub fn update_deadlock_state(&mut self, waiting: &Vec<(usize, u32)>, dt: i64)
        ensures
            final(self).nodes@.len() == old(self).nodes@.len(),
            forall|i: int|
                0 <= i < old(self).nodes@.len() ==> deadlock_stepped(
                    #[trigger] old(self).nodes@[i],
                    final(self).nodes@[i],
                    waiting@,
                    dt,
                ),
    {
        let mut i: usize = 0;
        while i < self.nodes.len()
            invariant
                i <= self.nodes.len(),
                self.nodes@.len() == old(self).nodes@.len(),
                forall|m: int|
                    0 <= m < i ==> deadlock_stepped(
                        #[trigger] old(self).nodes@[m],
                        self.nodes@[m],
                        waiting@,
                        dt,
                    ),
                forall|m: int|
                    i <= m < self.nodes@.len() ==> #[trigger] self.nodes@[m] == old(self).nodes@[m],
            decreases self.nodes.len() - i,
        {
            let node: usize = self.nodes[i].node;
            let queue: (usize, Option<u32>) = count_waiting(waiting, node);
            if queue.0 >= 2 {
                let t: i64 = saturate(self.nodes[i].deadlock_timer as i128 + dt as i128);
                self.nodes[i].deadlock_timer = t;
                if t >= DEADLOCK_BREAK {
                    self.nodes[i].deadlock_first_move = queue.1;
                }
            } else {
                self.nodes[i].deadlock_timer = 0;
                self.nodes[i].deadlock_first_move = None;
            }
            i = i + 1;
        }
    }
}

/// Some point of one path lies less than a metre from some point of the other.
pub open spec fn points_meet(a: Seq<ConflictPoint>, b: Seq<ConflictPoint>) -> bool {
    exists|i: int, j: int|
        0 <= i < a.len() && 0 <= j < b.len() && near_each_other(#[trigger] a[i], #[trigger] b[j])
}

/// Two points lie less than a metre apart.
pub open spec fn near_each_other(a: ConflictPoint, b: ConflictPoint) -> bool {
    square_distance(a.x as int, a.y as int, b.x as int, b.y as int) < METRE * METRE
}

fn any_points_meet(a: &Vec<ConflictPoint>, b: &Vec<ConflictPoint>) -> (r: bool)
    ensures
        r == points_meet(a@, b@),
{
    let mut i: usize = 0;
    while i < a.len()
        invariant
            i <= a.len(),
            forall|x: int, y: int|
                0 <= x < i && 0 <= y < b@.len() ==> !near_each_other(
                    #[trigger] a@[x],
                    #[trigger] b@[y],
                ),
        decreases a.len() - i,
    {
        let mut j: usize = 0;
        while j < b.len()
            invariant
                i < a.len(),
                j <= b.len(),
                forall|y: int| 0 <= y < j ==> !near_each_other(a@[i as int], #[trigger] b@[y]),
            decreases b.len() - j,
        {
            if closer_than(a[i].x, a[i].y, b[j].x, b[j].y, METRE) {
                assert(near_each_other(a@[i as int], b@[j as int]));
                return true;
            }
            j = j + 1;
        }
        i = i + 1;
    }
    false
}

/// How many of the listed vehicles wait at `node`.
pub open spec fn waiting_count(waiting: Seq<(usize, u32)>, node: usize) -> nat
    decreases waiting.len(),
{
    if waiting.len() == 0 {
        0
    } else {
        waiting_count(waiting.drop_last(), node) + (if waiting.last().0 == node {
            1nat
        } else {
            0nat
        })
    }
}

/// The smallest id among the listed vehicles that wait at `node`.
pub open spec fn first_waiting(waiting: Seq<(usize, u32)>, node: usize) -> Option<u32>
    decreases waiting.len(),
{
    if waiting.len() == 0 {
        None
    } else {
        let before = first_waiting(waiting.drop_last(), node);
        if waiting.last().0 != node {
            before
        } else {
            match before {
                Some(id) => if id <= waiting.last().1 {
                    Some(id)
                } else {
                    Some(waiting.last().1)
                },
                None => Some(waiting.last().1),
            }
        }
    }
}

fn count_waiting(waiting: &Vec<(usize, u32)>, node: usize) -> (r: (usize, Option<u32>))
    ensures
        r.0 == waiting_count(waiting@, node),
        r.1 == first_waiting(waiting@, node),
{
    let mut count: usize = 0;
    let mut first: Option<u32> = None;
    let mut k: usize = 0;
    assert(waiting@.take(0) =~= Seq::<(usize, u32)>::empty());
    while k < waiting.len()
        invariant
            k <= waiting.len(),
            count <= k,
            count == waiting_count(waiting@.take(k as int), node),
            first == first_waiting(waiting@.take(k as int), node),
        decreases waiting.len() - k,
    {
        let w: (usize, u32) = waiting[k];
        assert(waiting@.take(k + 1).drop_last() =~= waiting@.take(k as int));
        assert(waiting@.take(k + 1).last() == w);
        if w.0 == node {
            count = count + 1;
            first = match first {
                Some(id) => if id <= w.1 {
                    Some(id)
                } else {
                    Some(w.1)
                },
                None => Some(w.1),
            };
        }
        k = k + 1;
    }
    assert(waiting@.take(k as int) =~= waiting@);
    (count, first)
}

/// One step of the deadlock watch of a junction.
pub open spec fn deadlock_stepped(
    before: IntersectionConflictData,
    after: IntersectionConflictData,
    waiting: Seq<(usize, u32)>,
    dt: i64,
) -> bool {
    &&& after.node == before.node
    &&& after.by_movement == before.by_movement
    &&& if waiting_count(waiting, before.node) >= 2 {
        let t = saturated(before.deadlock_timer + dt);
        &&& after.deadlock_timer == t
        &&& after.deadlock_first_move == (if t >= DEADLOCK_BREAK {
            first_waiting(waiting, before.node)
        } else {
            before.deadlock_first_move
        })
    } else {
        &&& after.deadlock_timer == 0
        &&& after.deadlock_first_move is None
    }
}

/// No sweep hands a point to a vehicle: after it a point has its former owner or none.
pub proof fn law_sweeps_only_release(op: Sweep<'_>, key: LaneMovementKey, p: ConflictPoint)
    ensures
        swept(op, key, p).reserved_by == p.reserved_by || swept(op, key, p).reserved_by is None,
        swept(op, key, p).id == p.id,
        swept(op, key, p).distance_on_path == p.distance_on_path,
{
}

/// After a release no point of any path is held by the vehicle, and points of other vehicles
/// are as before.
pub proof fn law_release_frees_all(
    before: ConflictSystem,
    after: ConflictSystem,
    vehicle: u32,
    i: int,
    j: int,
    k: int,
)
    requires
        system_swept((Sweep::ReleaseVehicle { vehicle }), before, after),
        0 <= i < before.nodes@.len(),
        0 <= j < before.nodes@[i].by_movement@.len(),
        0 <= k < before.points_at(i, j).len(),
    ensures
        after.points_at(i, j)[k].reserved_by != Some(vehicle),
        before.points_at(i, j)[k].reserved_by != Some(vehicle) ==> after.points_at(i, j)[k]
            == before.points_at(i, j)[k],
{
    let op = Sweep::ReleaseVehicle { vehicle };
    assert(node_swept(op, before.nodes@[i], after.nodes@[i]));
    assert(path_swept(op, before.nodes@[i].by_movement@[j], after.nodes@[i].by_movement@[j]));
    assert(after.points_at(i, j)[k] == swept(
        op,
        before.nodes@[i].by_movement@[j].key,
        before.points_at(i, j)[k],
    ));
}

/// A claim never takes a point from another vehicle: where it succeeds, every point of the
/// path was free or already the claimant's, and none had another vehicle on it.
pub proof fn law_claim_takes_nothing(
    points: Seq<ConflictPoint>,
    vehicles: Seq<VehicleBody>,
    me: u32,
    k: int,
)
    requires
        entry_block(points, vehicles, me) is None,
        0 <= k < points.len(),
    ensures
        points[k].reserved_by is None || points[k].reserved_by == Some(me),
        occupant_of(vehicles, me, points[k]) is None,
    decreases points.len(),
{
    if k > 0 {
        assert(points.skip(1)[k - 1] == points[k]);
        law_claim_takes_nothing(points.skip(1), vehicles, me, k - 1);
    }
}

/// The vehicle sent first out of a deadlock is one of those that wait, and no waiting vehicle
/// has a smaller id.
pub proof fn law_first_mover_waits(waiting: Seq<(usize, u32)>, node: usize)
    ensures
        first_waiting(waiting, node) is Some <==> waiting_count(waiting, node) > 0,
        first_waiting(waiting, node) is None ==> forall|k: int|
            0 <= k < waiting.len() ==> (#[trigger] waiting[k]).0 != node,
        first_waiting(waiting, node) matches Some(id) ==> waiting.contains((node, id)) && forall|k: int|
            0 <= k < waiting.len() && (#[trigger] waiting[k]).0 == node ==> id <= waiting[k].1,
    decreases waiting.len(),
{
    if waiting.len() > 0 {
        let rest = waiting.drop_last();
        law_first_mover_waits(rest, node);
        let last = waiting.last();
        assert(waiting[waiting.len() - 1] == last);
        assert forall|w: (usize, u32)| rest.contains(w) implies waiting.contains(w) by {
            let i = choose|i: int| 0 <= i < rest.len() && rest[i] == w;
            assert(waiting[i] == w);
        }
        if first_waiting(waiting, node) is None {
            assert forall|k: int| 0 <= k < waiting.len() implies (#[trigger] waiting[k]).0
                != node by {
                if k < rest.len() {
                    assert(rest[k] == waiting[k]);
                }
            }
        }
        if first_waiting(waiting, node) is Some {
            let id = first_waiting(waiting, node).unwrap();
            assert(waiting.contains(last));
            assert forall|k: int|
                0 <= k < waiting.len() && (#[trigger] waiting[k]).0 == node implies id
                <= waiting[k].1 by {
                if k < rest.len() {
                    assert(rest[k] == waiting[k]);
                }
            }
        }
    }
}

/// The vehicle that may go first at `node`, by the first entry of the list for it.
pub open spec fn first_mover_of(nodes: Seq<IntersectionConflictData>, node: usize) -> Option<u32>
    decreases nodes.len(),
{
    if nodes.len() == 0 {
        None
    } else if nodes[0].node == node {
        nodes[0].deadlock_first_move
    } else {
        first_mover_of(nodes.skip(1), node)
    }
}

impl ConflictSystem {
    /// The vehicle that may go first at a junction to end a standoff.
    pub fn first_mover(&self, node: usize) -> (r: Option<u32>)
        ensures
            r == first_mover_of(self.nodes@, node),
    {
        let mut i: usize = 0;
        assert(self.nodes@.skip(0) =~= self.nodes@);
        while i < self.nodes.len()
            invariant
                i <= self.nodes@.len(),
                first_mover_of(self.nodes@, node) == first_mover_of(
                    self.nodes@.skip(i as int),
                    node,
                ),
            decreases self.nodes.len() - i,
        {
            assert(self.nodes@.skip(i as int)[0] == self.nodes@[i as int]);
            assert(self.nodes@.skip(i as int).skip(1) =~= self.nodes@.skip(i + 1));
            if self.nodes[i].node == node {
                return self.nodes[i].deadlock_first_move;
            }
            i = i + 1;
        }
        None
    }
}

/// A sweep keeps the lists of junctions and paths, so that none is listed twice after it.
pub proof fn lemma_swept_wf(op: Sweep<'_>, before: ConflictSystem, after: ConflictSystem)
    requires
        before.wf(),
        system_swept(op, before, after),
    ensures
        after.wf(),
{
    assert forall|i: int, j: int|
        0 <= i < after.nodes@.len() && 0 <= j < after.nodes@.len() && i != j implies (
    #[trigger] after.nodes@[i]).node != (#[trigger] after.nodes@[j]).node by {
        assert(node_swept(op, before.nodes@[i], after.nodes@[i]));
        assert(node_swept(op, before.nodes@[j], after.nodes@[j]));
    }
    assert forall|i: int| 0 <= i < after.nodes@.len() implies (#[trigger] after.nodes@[i]).wf() by {
        let b = before.nodes@[i];
        let a = after.nodes@[i];
        assert(b.wf());
        assert(node_swept(op, b, a));
        assert forall|m: int, n: int|
            0 <= m < a.by_movement@.len() && 0 <= n < a.by_movement@.len() && m != n implies (
        #[trigger] a.by_movement@[m]).key != (#[trigger] a.by_movement@[n]).key by {
            assert(path_swept(op, b.by_movement@[m], a.by_movement@[m]));
            assert(path_swept(op, b.by_movement@[n], a.by_movement@[n]));
        }
    }
}

/// A point is occupied exactly when some vehicle other than the asking one that is still driving is on
/// it, and the one that is told of is such a vehicle.
pub proof fn law_occupants(vehicles: Seq<VehicleBody>, me: u32, p: ConflictPoint)
    ensures
        occupant_of(vehicles, me, p) is Some <==> exists|i: int|
            0 <= i < vehicles.len() && (#[trigger] vehicles[i]).id != me && !vehicles[i].despawned
                && body_overlaps(vehicles[i], p),
        occupant_of(vehicles, me, p) matches Some(id) ==> id != me && exists|i: int|
            0 <= i < vehicles.len() && (#[trigger] vehicles[i]).id == id && !vehicles[i].despawned
                && body_overlaps(vehicles[i], p),
    decreases vehicles.len(),
{
    if vehicles.len() > 0 && !occupies(vehicles[0], me, p) {
        let rest = vehicles.skip(1);
        law_occupants(rest, me, p);
        assert forall|i: int| 0 <= i < rest.len() implies #[trigger] rest[i] == vehicles[i
            + 1] by {}
        if exists|i: int|
            0 <= i < vehicles.len() && (#[trigger] vehicles[i]).id != me && !vehicles[i].despawned
                && body_overlaps(vehicles[i], p) {
            let i = choose|i: int|
                0 <= i < vehicles.len() && (#[trigger] vehicles[i]).id != me
                    && !vehicles[i].despawned && body_overlaps(vehicles[i], p);
            assert(rest[i - 1] == vehicles[i]);
        }
    } else if vehicles.len() > 0 {
        assert(vehicles[0].id != me);
    }
}

/// A vehicle is on a point when its centre is closer to it than its radius, that of the point and 1.85 m
/// together, or its hood closer than the radius of its nose, that of the point and half a metre.
pub proof fn law_when_bodies_overlap(v: VehicleBody, p: ConflictPoint)
    requires
        100_000 <= p.radius <= 1_000_000_000,
    ensures
        ({
            let (dx, dy) = (v.x - p.x, v.y - p.y);
            let (hx, hy) = (v.hood_x - p.x, v.hood_y - p.y);
            let far = v.path_radius + p.radius + 1_850_000;
            let near = v.nose_radius + p.radius + 500_000;
            body_overlaps(v, p) <==> dx * dx + dy * dy <= far * far || hx * hx + hy * hy <= near
                * near
        }),
{
}

proof fn lemma_entry_block(points: Seq<ConflictPoint>, vehicles: Seq<VehicleBody>, me: u32)
    ensures
        entry_block(points, vehicles, me) matches Some(b) ==> b.by != me && exists|k: int|
            0 <= k < points.len() && b.x == (#[trigger] points[k]).x && b.y == points[k].y && (
            points[k].reserved_by == Some(b.by) || occupant_of(vehicles, me, points[k]) == Some(
                b.by,
            )),
    decreases points.len(),
{
    if points.len() > 0 {
        let rest = points.skip(1);
        lemma_entry_block(rest, vehicles, me);
        lemma_first_blocks(points, vehicles, me);
    }
}

proof fn lemma_first_blocks(points: Seq<ConflictPoint>, vehicles: Seq<VehicleBody>, me: u32)
    ensures
        occupied_block(points, vehicles, me) matches Some(b) ==> b.by != me && exists|k: int|
            0 <= k < points.len() && b.x == (#[trigger] points[k]).x && b.y == points[k].y
                && occupant_of(vehicles, me, points[k]) == Some(b.by),
        reserved_block(points, me) matches Some(b) ==> b.by != me && exists|k: int|
            0 <= k < points.len() && b.x == (#[trigger] points[k]).x && b.y == points[k].y
                && points[k].reserved_by == Some(b.by),
    decreases points.len(),
{
    if points.len() > 0 {
        let rest = points.skip(1);
        lemma_first_blocks(rest, vehicles, me);
        law_occupants(vehicles, me, points[0]);
        assert forall|k: int| 0 <= k < rest.len() implies #[trigger] rest[k] == points[k
            + 1] by {}
        match occupied_block(rest, vehicles, me) {
            Some(b) => {
                let k = choose|k: int|
                    0 <= k < rest.len() && b.x == (#[trigger] rest[k]).x && b.y == rest[k].y
                        && occupant_of(vehicles, me, rest[k]) == Some(b.by);
                assert(points[k + 1] == rest[k]);
            },
            None => {},
        }
        match reserved_block(rest, me) {
            Some(b) => {
                let k = choose|k: int|
                    0 <= k < rest.len() && b.x == (#[trigger] rest[k]).x && b.y == rest[k].y
                        && rest[k].reserved_by == Some(b.by);
                assert(points[k + 1] == rest[k]);
            },
            None => {},
        }
    }
}

/// A vehicle that asks for its way through a junction gets it exactly when no other vehicle holds or is
/// on any point of it: then it holds the points within 18 m and the others stay as they were. Else
/// nothing changes, and it is told of a point that another vehicle holds or is on.
pub proof fn law_claims_on_entry(
    before: ConflictSystem,
    after: ConflictSystem,
    me: u32,
    movement: LaneMovementKey,
    node: usize,
    now: i64,
    vehicles: Seq<VehicleBody>,
    r: Result<(), Blocked>,
    i: int,
    j: int,
)
    requires
        before.entry_claimed(&after, me, movement, node, now, vehicles, r),
        before.has_path_at(i, j, node, movement),
    ensures
        ({
            let points = before.points_at(i, j);
            let free = forall|k: int|
                0 <= k < points.len() ==> ((#[trigger] points[k]).reserved_by is None
                    || points[k].reserved_by == Some(me)) && occupant_of(vehicles, me, points[k])
                    is None;
            &&& r is Ok <==> free
            &&& r is Ok ==> after.points_at(i, j).len() == points.len() && forall|k: int|
                0 <= k < points.len() ==> (#[trigger] after.points_at(i, j)[k]).reserved_by
                    == if points[k].distance_on_path <= 18_000_000 {
                    Some(me)
                } else {
                    points[k].reserved_by
                }
            &&& r is Err ==> after == before
            &&& r matches Err(b) ==> b.by != me && exists|k: int|
                0 <= k < points.len() && b.x == (#[trigger] points[k]).x && b.y == points[k].y && (
                points[k].reserved_by == Some(b.by) || occupant_of(vehicles, me, points[k])
                    == Some(b.by))
        }),
{
    let points = before.points_at(i, j);
    lemma_entry_block(points, vehicles, me);
    if entry_block(points, vehicles, me) is None {
        assert forall|k: int| 0 <= k < points.len() implies ((#[trigger] points[k]).reserved_by
            is None || points[k].reserved_by == Some(me)) && occupant_of(vehicles, me, points[k])
            is None by {
            law_claim_takes_nothing(points, vehicles, me, k);
        }
    }
}

/// While a vehicle extends its claim it never takes a point from another one, and never gives one up.
pub proof fn law_claims_on_the_way(
    before: ConflictSystem,
    after: ConflictSystem,
    me: u32,
    movement: LaneMovementKey,
    node: usize,
    center: i64,
    half_length: i64,
    now: i64,
    vehicles: Seq<VehicleBody>,
    r: Result<(), Blocked>,
    i: int,
    j: int,
    k: int,
)
    requires
        before.arc_claimed(
            &after,
            me,
            movement,
            node,
            center,
            half_length,
            now,
            vehicles,
            r,
        ),
        before.has_path_at(i, j, node, movement),
        0 <= k < before.points_at(i, j).len(),
    ensures
        ({
            let (p, q) = (before.points_at(i, j)[k], after.points_at(i, j)[k]);
            &&& p.reserved_by is Some ==> q.reserved_by == p.reserved_by
            &&& p.reserved_by is None ==> q.reserved_by is None || q.reserved_by == Some(me)
                && p.distance_on_path <= center + half_length + 22_000_000 && occupant_of(
                vehicles,
                me,
                p,
            ) is None
            &&& r is Ok && p.distance_on_path <= center + half_length + 22_000_000 ==> q.reserved_by
                == Some(me)
        }),
{
    let points = before.points_at(i, j);
    let horizon = center + half_length + RESERVE_HORIZON_AHEAD;
    lemma_extension(points, vehicles, me, horizon, k);
}

proof fn lemma_extension(
    points: Seq<ConflictPoint>,
    vehicles: Seq<VehicleBody>,
    me: u32,
    horizon: int,
    k: int,
)
    requires
        0 <= k < points.len(),
    ensures
        0 <= extension_end(points, vehicles, me, horizon) <= points.len(),
        k < extension_end(points, vehicles, me, horizon) ==> arc_block(
            points[k],
            vehicles,
            me,
            horizon,
        ) is None,
    decreases points.len(),
{
    if arc_block(points[0], vehicles, me, horizon) is None {
        let rest = points.skip(1);
        if k > 0 {
            assert(rest[k - 1] == points[k]);
            lemma_extension(rest, vehicles, me, horizon, k - 1);
        } else if rest.len() > 0 {
            lemma_extension(rest, vehicles, me, horizon, 0);
        }
    }
}

/// A vehicle gives a point back only once it has passed it: its centre is beyond the point by more than
/// 0.35 m or its rear by more than a metre.
pub proof fn law_points_are_kept_until_passed(
    key: LaneMovementKey,
    p: ConflictPoint,
    vehicle: u32,
    center: i64,
    half_length: i64,
)
    requires
        half_length >= 0,
        p.distance_on_path >= 0,
        p.reserved_by == Some(vehicle),
    ensures
        ({
            let q = swept(
                (Sweep::CleanPassed {
                    vehicle,
                    in_edge: key.in_edge,
                    out_edge: key.out_edge,
                    center,
                    half_length,
                }),
                key,
                p,
            );
            &&& center <= p.distance_on_path ==> q.reserved_by == Some(vehicle)
            &&& center > p.distance_on_path + 350_000 ==> q.reserved_by is None
            &&& center - half_length > p.distance_on_path + 1_000_000 ==> q.reserved_by is None
        }),
{
}

/// A reservation lapses when its owner has left the road, and one of a turning vehicle when it has been
/// held and not moved along for ten seconds; no other does.
pub proof fn law_when_reservations_lapse(
    key: LaneMovementKey,
    p: ConflictPoint,
    vehicles: &Vec<VehicleBody>,
    now: i64,
    owner: u32,
    taken: i64,
    moved: i64,
)
    requires
        p.reserved_by == Some(owner),
        p.reserved_at == Some(taken),
        p.last_motion == Some(moved),
    ensures
        ({
            let q = swept((Sweep::ExpireStale { vehicles, now }), key, p);
            match body_of(vehicles@, owner) {
                None => q.reserved_by is None,
                Some(v) => q.reserved_by is None <==> v.despawned || v.on_turn_connector && now
                    - taken >= 10_000_000 && now - moved >= 10_000_000,
            }
        }),
{
}

/// Only a point that another vehicle holds blocks a vehicle, and not one that it is on itself; the gap
/// to it is the way to it less the radius of the vehicle and a metre, and never below the smallest gap.
pub proof fn law_what_blocks(v: VehicleBody, from: Outlook, look_ahead: int, p: ConflictPoint)
    requires
        look_ahead <= i64::MAX,
    ensures
        ({
            let g = blocking_gap(v, from, look_ahead, p);
            let way = match from {
                Outlook::Approaching { to_entry } => to_entry + p.distance_on_path,
                Outlook::OnArc { front } => p.distance_on_path - front,
            };
            &&& g is Some ==> p.reserved_by is Some && p.reserved_by != Some(v.id)
                && !body_overlaps(v, p)
            &&& g is Some ==> 100_000 <= g->Some_0 <= look_ahead
            &&& g is Some && !hood_conflicts(v, p) && way - v.path_radius - 1_000_000 >= 100_000
                ==> g->Some_0 == way - v.path_radius - 1_000_000
            &&& from is Approaching && p.reserved_by is Some && p.reserved_by != Some(v.id)
                && !body_overlaps(v, p) && way - v.path_radius - 1_000_000 <= look_ahead && 100_000
                <= look_ahead ==> g is Some
        }),
{
}

/// Whether two ways meet does not depend on which is looked at first.
pub proof fn law_meeting_is_mutual(
    sys: ConflictSystem,
    a: (usize, usize),
    b: (usize, usize),
    node: usize,
)
    ensures
        sys.movements_meet(a, b, node) == sys.movements_meet(b, a, node),
{
    lemma_meeting(sys, a, b, node);
    lemma_meeting(sys, b, a, node);
}

proof fn lemma_meeting(
    sys: ConflictSystem,
    a: (usize, usize),
    b: (usize, usize),
    node: usize,
)
    ensures
        sys.movements_meet(a, b, node) ==> sys.movements_meet(b, a, node),
{
    if sys.movements_meet(a, b, node) {
        let (i, ja, jb) = choose|i: int, ja: int, jb: int|
            {
                &&& 0 <= i < sys.nodes@.len()
                &&& sys.nodes@[i].node == node
                &&& #[trigger] sys.path_serves(i, ja, a)
                &&& #[trigger] sys.path_serves(i, jb, b)
                &&& points_meet(sys.points_at(i, ja), sys.points_at(i, jb))
            };
        let (p, q) = (sys.points_at(i, ja), sys.points_at(i, jb));
        let (x, y) = choose|x: int, y: int|
            0 <= x < p.len() && 0 <= y < q.len() && near_each_other(#[trigger] p[x], #[trigger] q[y]);
        let (dx, dy) = (p[x].x - q[y].x, p[x].y - q[y].y);
        assert(dx * dx == (-dx) * (-dx) && dy * dy == (-dy) * (-dy)) by (nonlinear_arith);
        assert(near_each_other(q[y], p[x]));
        assert(points_meet(q, p));
        assert(sys.path_serves(i, jb, b) && sys.path_serves(i, ja, a));
    }
}

/// The vehicle that is sent first out of a standoff is the one of those waiting with the smallest id.
pub proof fn law_smallest_id_goes_first(waiting: Seq<(usize, u32)>, node: usize, k: int)
    requires
        0 <= k < waiting.len(),
        waiting[k].0 == node,
    ensures
        first_waiting(waiting, node) matches Some(id) && id <= waiting[k].1 && waiting.contains(
            (node, id),
        ),
    decreases waiting.len(),
{
    let front = waiting.drop_last();
    let before = first_waiting(front, node);
    if k < front.len() {
        assert(front[k] == waiting[k]);
        law_smallest_id_goes_first(front, node, k);
    } else if before is Some {
        lemma_first_waiting_listed(front, node);
    }
    if before is Some {
        let i = choose|i: int| 0 <= i < front.len() && front[i] == (node, before->Some_0);
        assert(waiting[i] == front[i]);
    }
    assert(waiting[waiting.len() - 1] == waiting.last());
}

proof fn lemma_first_waiting_listed(waiting: Seq<(usize, u32)>, node: usize)
    ensures
        first_waiting(waiting, node) matches Some(id) ==> waiting.contains((node, id)),
    decreases waiting.len(),
{
    if waiting.len() > 0 {
        let front = waiting.drop_last();
        lemma_first_waiting_listed(front, node);
        let before = first_waiting(front, node);
        if before is Some {
            let i = choose|i: int| 0 <= i < front.len() && front[i] == (node, before->Some_0);
            assert(waiting[i] == front[i]);
        }
        assert(waiting[waiting.len() - 1] == waiting.last());
    }
}

/// A standoff of two or more vehicles is broken after three seconds, and without one nobody is sent
/// first.
pub proof fn law_standoffs_are_broken(
    before: IntersectionConflictData,
    after: IntersectionConflictData,
    waiting: Seq<(usize, u32)>,
    dt: i64,
)
    requires
        deadlock_stepped(before, after, waiting, dt),
        0 <= before.deadlock_timer + dt <= i64::MAX,
    ensures
        waiting_count(waiting, before.node) < 2 ==> after.deadlock_first_move is None
            && after.deadlock_timer == 0,
        waiting_count(waiting, before.node) >= 2 && before.deadlock_timer + dt >= 3_000_000
            ==> after.deadlock_first_move is Some && waiting.contains(
            (before.node, after.deadlock_first_move->Some_0),
        ),
        waiting_count(waiting, before.node) >= 2 ==> after.deadlock_timer == before.deadlock_timer
            + dt,
        waiting_count(waiting, before.node) == waiting.filter(
            |w: (usize, u32)| w.0 == before.node,
        ).len(),
{
    law_first_mover_waits(waiting, before.node);
    lemma_first_waiting_listed(waiting, before.node);
    lemma_waiting_counted(waiting, before.node);
}

proof fn lemma_waiting_counted(waiting: Seq<(usize, u32)>, node: usize)
    ensures
        waiting_count(waiting, node) == waiting.filter(|w: (usize, u32)| w.0 == node).len(),
    decreases waiting.len(),
{
    reveal(Seq::filter);
    if waiting.len() > 0 {
        lemma_waiting_counted(waiting.drop_last(), node);
    }
}

} // verus!
