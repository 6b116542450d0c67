//! Where trips begin and end.

use std::collections::HashMap;

use rand::rngs::StdRng;
use vstd::prelude::*;

use crate::map::building::{BuildingType, OdBuilding};
use crate::util::random::{draw_below, draw_chance};

verus! {

/// Shorter trips are made on foot.
pub const WALK_THRESHOLD: i64 = 400_000_000;

/// What a trip is made for.
#[derive(Clone, Copy, Debug, PartialEq, Eq, Structural)]
pub enum TripType {
    HomeToWork,
    WorkToHome,
    HomeToShop,
    ShopToHome,
    LunchTrip,
}

/// Where a trip leads with regard to the map.
#[derive(Clone, Copy, Debug, PartialEq, Eq, Structural)]
pub enum TripKind {
    LocalOD,
    Transit,
    ExternalInbound,
    ExternalOutbound,
}

impl TripKind {
    /// The number of the kind in messages.
    pub open spec fn code(self) -> u8 {
        match self {
            TripKind::LocalOD => 0,
            TripKind::Transit => 1,
            TripKind::ExternalInbound => 2,
            TripKind::ExternalOutbound => 3,
        }
    }

    /// The number of the kind in messages.
    pub fn to_u8(self) -> (r: u8)
        ensures
            r == self.code(),
    {
        match self {
            TripKind::LocalOD => 0,
            TripKind::Transit => 1,
            TripKind::ExternalInbound => 2,
            TripKind::ExternalOutbound => 3,
        }
    }
}

/// Which buildings are looked for.
#[derive(Clone, Copy, Debug, PartialEq, Eq, Structural)]
pub enum Pool {
    Kind(BuildingType),
    NotResidential,
    ReachableKind(BuildingType),
    Reachable,
}

/// Whether a building belongs to a pool.
pub open spec fn in_pool(b: OdBuilding, p: Pool) -> bool {
    match p {
        Pool::Kind(t) => b.building_type == t,
        Pool::NotResidential => b.building_type != BuildingType::Residential,
        Pool::ReachableKind(t) => b.building_type == t && b.access_node is Some,
        Pool::Reachable => b.access_node is Some,
    }
}

fn belongs(b: &OdBuilding, p: Pool) -> (r: bool)
    ensures
        r == in_pool(*b, p),
{
    match p {
        Pool::Kind(t) => b.building_type == t,
        Pool::NotResidential => b.building_type != BuildingType::Residential,
        Pool::ReachableKind(t) => b.building_type == t && b.access_node.is_some(),
        Pool::Reachable => b.access_node.is_some(),
    }
}

/// The places of the buildings of a pool among the first `n`, in order.
pub open spec fn pool_places(buildings: Seq<OdBuilding>, p: Pool, n: int) -> Seq<usize>
    decreases n,
{
    if n <= 0 {
        Seq::empty()
    } else if in_pool(buildings[n - 1], p) {
        pool_places(buildings, p, n - 1).push((n - 1) as usize)
    } else {
        pool_places(buildings, p, n - 1)
    }
}

/// The places of the buildings of a pool, in order.
pub open spec fn pool_of(buildings: Seq<OdBuilding>, p: Pool) -> Seq<usize> {
    pool_places(buildings, p, buildings.len() as int)
}

proof fn lemma_pool(buildings: Seq<OdBuilding>, p: Pool, n: int)
    requires
        n <= buildings.len() <= usize::MAX,
    ensures
        forall|i: int|
            0 <= i < pool_places(buildings, p, n).len() ==> 0 <= #[trigger] pool_places(
                buildings,
                p,
                n,
            )[i] < n && in_pool(buildings[pool_places(buildings, p, n)[i] as int], p),
    decreases n,
{
    if n > 0 {
        lemma_pool(buildings, p, n - 1);
        let all = pool_places(buildings, p, n);
        let before = pool_places(buildings, p, n - 1);
        assert forall|i: int| 0 <= i < all.len() implies 0 <= #[trigger] all[i] < n && in_pool(
            buildings[all[i] as int],
            p,
        ) by {
            if i < before.len() {
                assert(all[i] == before[i]);
            } else {
                assert(all[i] == (n - 1) as usize);
            }
        }
    }
}

fn collect_pool(buildings: &Vec<OdBuilding>, p: Pool) -> (r: Vec<usize>)
    ensures
        r@ == pool_of(buildings@, p),
        forall|i: int|
            0 <= i < r@.len() ==> #[trigger] r@[i] < buildings@.len() && in_pool(
                buildings@[r@[i] as int],
                p,
            ),
{
    let mut out: Vec<usize> = Vec::new();
    let mut n: usize = 0;
    while n < buildings.len()
        invariant
            n <= buildings@.len(),
            out@ == pool_places(buildings@, p, n as int),
        decreases buildings.len() - n,
    {
        if belongs(&buildings[n], p) {
            out.push(n);
        }
        n = n + 1;
    }
    proof {
        assert(buildings.len() == buildings@.len());
        lemma_pool(buildings@, p, buildings@.len() as int);
    }
    out
}

/// Where the people of each residential building work and shop: places in the list of buildings, by
/// the id of the residential building.
pub struct OdAssignment {
    pub work: HashMap<u64, usize>,
    pub shop: HashMap<u64, usize>,
}

/// The buildings to work in: offices, else all that are not residential.
pub open spec fn work_pool(buildings: Seq<OdBuilding>) -> Seq<usize> {
    if pool_of(buildings, Pool::Kind(BuildingType::Office)).len() > 0 {
        pool_of(buildings, Pool::Kind(BuildingType::Office))
    } else {
        pool_of(buildings, Pool::NotResidential)
    }
}

/// The buildings to shop in: commercial ones, else all that are not residential.
pub open spec fn shop_pool(buildings: Seq<OdBuilding>) -> Seq<usize> {
    if pool_of(buildings, Pool::Kind(BuildingType::Commercial)).len() > 0 {
        pool_of(buildings, Pool::Kind(BuildingType::Commercial))
    } else {
        pool_of(buildings, Pool::NotResidential)
    }
}

/// The assignment of the residential buildings of a list to the buildings of a pool by draws, one
/// for each; a later building with the same id takes over.
pub open spec fn assigned(
    buildings: Seq<OdBuilding>,
    homes: Seq<usize>,
    pool: Seq<usize>,
    draws: Seq<usize>,
) -> Map<u64, usize>
    decreases homes.len(),
{
    if homes.len() == 0 {
        Map::empty()
    } else {
        assigned(buildings, homes.drop_last(), pool, draws).insert(
            buildings[homes.last() as int].id,
            pool[draws[homes.len() - 1] as int],
        )
    }
}

/// The places of the residential buildings.
pub open spec fn homes_of(buildings: Seq<OdBuilding>) -> Seq<usize> {
    pool_of(buildings, Pool::Kind(BuildingType::Residential))
}

/// Whether people can be assigned: there are buildings to work and to shop in.
pub open spec fn assignable(buildings: Seq<OdBuilding>) -> bool {
    work_pool(buildings).len() > 0 && shop_pool(buildings).len() > 0
}

fn assign(
    buildings: &Vec<OdBuilding>,
    homes: &Vec<usize>,
    pool: &Vec<usize>,
    draws: &Vec<usize>,
) -> (r: HashMap<u64, usize>)
    requires
        forall|i: int| 0 <= i < homes@.len() ==> #[trigger] homes@[i] < buildings@.len(),
        draws@.len() == homes@.len(),
        forall|i: int| 0 <= i < draws@.len() ==> #[trigger] draws@[i] < pool@.len(),
    ensures
        r@ == assigned(buildings@, homes@, pool@, draws@),
{
    broadcast use vstd::std_specs::hash::group_hash_axioms;

    let mut m: HashMap<u64, usize> = HashMap::new();
    let mut i: usize = 0;
    assert(homes@.take(0) =~= Seq::<usize>::empty());
    assert(m@ =~= Map::<u64, usize>::empty());
    while i < homes.len()
        invariant
            i <= homes@.len(),
            forall|i: int| 0 <= i < homes@.len() ==> #[trigger] homes@[i] < buildings@.len(),
            draws@.len() == homes@.len(),
            forall|i: int| 0 <= i < draws@.len() ==> #[trigger] draws@[i] < pool@.len(),
            m@ == assigned(buildings@, homes@.take(i as int), pool@, draws@),
        decreases homes.len() - i,
    {
        assert(homes@.take(i + 1).drop_last() =~= homes@.take(i as int));
        assert(homes@.take(i + 1).last() == homes@[i as int]);
        let id: u64 = buildings[homes[i]].id;
        let place: usize = pool[draws[i]];
        m.insert(id, place);
        i = i + 1;
    }
    assert(homes@.take(i as int) =~= homes@);
    m
}

fn draw_many(rng: &mut StdRng, count: usize, below: usize) -> (r: Vec<usize>)
    requires
        below > 0,
    ensures
        r@.len() == count,
        forall|i: int| 0 <= i < r@.len() ==> #[trigger] r@[i] < below,
{
    let mut out: Vec<usize> = Vec::new();
    let mut i: usize = 0;
    while i < count
        invariant
            i <= count,
            below > 0,
            out@.len() == i,
            forall|j: int| 0 <= j < out@.len() ==> #[trigger] out@[j] < below,
        decreases count - i,
    {
        let d: usize = draw_below(rng, below);
        out.push(d);
        i = i + 1;
    }
    out
}

impl OdAssignment {
    /// Each residential building is assigned to a building to work in and one to shop in by the
    /// draws.
    pub open spec fn follows(
        &self,
        buildings: Seq<OdBuilding>,
        w: Seq<usize>,
        s: Seq<usize>,
    ) -> bool {
        &&& w.len() == homes_of(buildings).len()
        &&& s.len() == homes_of(buildings).len()
        &&& forall|i: int| 0 <= i < w.len() ==> #[trigger] w[i] < work_pool(buildings).len()
        &&& forall|i: int| 0 <= i < s.len() ==> #[trigger] s[i] < shop_pool(buildings).len()
        &&& self.work@ == assigned(buildings, homes_of(buildings), work_pool(buildings), w)
        &&& self.shop@ == assigned(buildings, homes_of(buildings), shop_pool(buildings), s)
    }

    /// The assignment follows some draws where people can be assigned; else it is empty.
    pub open spec fn drawn_for(&self, buildings: Seq<OdBuilding>) -> bool {
        if assignable(buildings) {
            exists|w: Seq<usize>, s: Seq<usize>| #[trigger] self.follows(buildings, w, s)
        } else {
            self.work@ == Map::<u64, usize>::empty() && self.shop@ == Map::<u64, usize>::empty()
        }
    }

    /// The assignment by draws, one for work and one for shopping for each residential building.
    pub fn from_draws(
        buildings: &Vec<OdBuilding>,
        work_draws: &Vec<usize>,
        shop_draws: &Vec<usize>,
    ) -> (r: OdAssignment)
        requires
            assignable(buildings@),
            work_draws@.len() == homes_of(buildings@).len(),
            shop_draws@.len() == homes_of(buildings@).len(),
            forall|i: int|
                0 <= i < work_draws@.len() ==> #[trigger] work_draws@[i] < work_pool(
                    buildings@,
                ).len(),
            forall|i: int|
                0 <= i < shop_draws@.len() ==> #[trigger] shop_draws@[i] < shop_pool(
                    buildings@,
                ).len(),
        ensures
            r.work@ == assigned(
                buildings@,
                homes_of(buildings@),
                work_pool(buildings@),
                work_draws@,
            ),
            r.shop@ == assigned(
                buildings@,
                homes_of(buildings@),
                shop_pool(buildings@),
                shop_draws@,
            ),
    {
        let homes: Vec<usize> = collect_pool(buildings, Pool::Kind(BuildingType::Residential));
        let (work, shop) = pools_of(buildings);
        OdAssignment {
            work: assign(buildings, &homes, &work, work_draws),
            shop: assign(buildings, &homes, &shop, shop_draws),
        }
    }

    /// An assignment drawn by chance. Where people can be assigned, each residential building has
    /// one, to a building to work in and one to shop in; else there are none.
    pub fn new(buildings: &Vec<OdBuilding>, rng: &mut StdRng) -> (r: OdAssignment)
        ensures
            r.drawn_for(buildings@),
    {
        broadcast use vstd::std_specs::hash::group_hash_axioms;

        let homes: Vec<usize> = collect_pool(buildings, Pool::Kind(BuildingType::Residential));
        let (work, shop) = pools_of(buildings);
        if work.len() == 0 || shop.len() == 0 {
            let r = OdAssignment { work: HashMap::new(), shop: HashMap::new() };
            assert(r.work@ =~= Map::<u64, usize>::empty());
            assert(r.shop@ =~= Map::<u64, usize>::empty());
            return r;
        }
        let w: Vec<usize> = draw_many(rng, homes.len(), work.len());
        let s: Vec<usize> = draw_many(rng, homes.len(), shop.len());
        let r = OdAssignment::from_draws(buildings, &w, &s);
        assert(r.follows(buildings@, w@, s@));
        r
    }
}

fn pools_of(buildings: &Vec<OdBuilding>) -> (r: (Vec<usize>, Vec<usize>))
    ensures
        r.0@ == work_pool(buildings@),
        r.1@ == shop_pool(buildings@),
{
    let offices: Vec<usize> = collect_pool(buildings, Pool::Kind(BuildingType::Office));
    let commercial: Vec<usize> = collect_pool(buildings, Pool::Kind(BuildingType::Commercial));
    let work: Vec<usize> = if offices.len() > 0 {
        offices
    } else {
        collect_pool(buildings, Pool::NotResidential)
    };
    let shop: Vec<usize> = if commercial.len() > 0 {
        commercial
    } else {
        collect_pool(buildings, Pool::NotResidential)
    };
    (work, shop)
}

/// The buildings between which trips are made.
pub struct OdModel {
    pub buildings: Vec<OdBuilding>,
    pub assignments: OdAssignment,
    pub residential: Vec<usize>,
    pub offices: Vec<usize>,
    pub commercial: Vec<usize>,
    pub any_accessible: Vec<usize>,
}

/// The chance that a trip depends on at an hour, in millionths of an hour: none in the rush hours,
/// two in five at lunchtime, else one in two.
pub open spec fn trip_chance(hour: int) -> Option<(int, int)> {
    if 6_000_000 <= hour < 9_500_000 || 16_000_000 <= hour < 18_500_000 {
        None
    } else if 12_000_000 <= hour < 13_500_000 {
        Some((2, 5))
    } else {
        Some((1, 2))
    }
}

/// What a trip at an hour is made for, given a coin.
pub open spec fn trip_type_of(hour: int, coin: bool) -> TripType {
    if 6_000_000 <= hour < 9_500_000 {
        TripType::HomeToWork
    } else if 16_000_000 <= hour < 18_500_000 {
        TripType::WorkToHome
    } else if 12_000_000 <= hour < 13_500_000 {
        if coin {
            TripType::LunchTrip
        } else {
            TripType::HomeToShop
        }
    } else if 10_000_000 <= hour < 13_000_000 || 17_000_000 <= hour < 19_000_000 {
        if coin {
            TripType::HomeToShop
        } else {
            TripType::ShopToHome
        }
    } else {
        if coin {
            TripType::HomeToWork
        } else {
            TripType::WorkToHome
        }
    }
}

/// What a trip at an hour is made for, given a coin.
pub fn trip_type_for(hour: i64, coin: bool) -> (r: TripType)
    ensures
        r == trip_type_of(hour as int, coin),
{
    if hour >= 6_000_000 && hour < 9_500_000 {
        TripType::HomeToWork
    } else if hour >= 16_000_000 && hour < 18_500_000 {
        TripType::WorkToHome
    } else if hour >= 12_000_000 && hour < 13_500_000 {
        if coin {
            TripType::LunchTrip
        } else {
            TripType::HomeToShop
        }
    } else if (hour >= 10_000_000 && hour < 13_000_000) || (hour >= 17_000_000 && hour
        < 19_000_000) {
        if coin {
            TripType::HomeToShop
        } else {
            TripType::ShopToHome
        }
    } else {
        if coin {
            TripType::HomeToWork
        } else {
            TripType::WorkToHome
        }
    }
}

impl OdModel {
    /// The lists hold the places of the buildings that can be reached.
    pub open spec fn wf(&self) -> bool {
        let b = self.buildings@;
        &&& self.residential@ == pool_of(b, Pool::ReachableKind(BuildingType::Residential))
        &&& self.offices@ == pool_of(b, Pool::ReachableKind(BuildingType::Office))
        &&& self.commercial@ == pool_of(b, Pool::ReachableKind(BuildingType::Commercial))
        &&& self.any_accessible@ == pool_of(b, Pool::Reachable)
    }

    /// The model of some buildings, with assignments drawn by chance.
    pub fn new(buildings: Vec<OdBuilding>, rng: &mut StdRng) -> (r: OdModel)
        ensures
            r.wf(),
            r.buildings@ == buildings@,
            r.assignments.drawn_for(buildings@),
    {
        let residential: Vec<usize> = collect_pool(
            &buildings,
            Pool::ReachableKind(BuildingType::Residential),
        );
        let offices: Vec<usize> = collect_pool(
            &buildings,
            Pool::ReachableKind(BuildingType::Office),
        );
        let commercial: Vec<usize> = collect_pool(
            &buildings,
            Pool::ReachableKind(BuildingType::Commercial),
        );
        let any_accessible: Vec<usize> = collect_pool(&buildings, Pool::Reachable);
        let assignments = OdAssignment::new(&buildings, rng);
        OdModel { buildings, assignments, residential, offices, commercial, any_accessible }
    }

    /// Whether no building can be reached.
    pub fn is_empty(&self) -> (r: bool)
        ensures
            r == (self.any_accessible@.len() == 0),
    {
        self.any_accessible.len() == 0
    }

    /// What a trip at an hour is made for, by chance where the hour leaves it open.
    pub fn select_trip_type(hour: i64, rng: &mut StdRng) -> (r: TripType)
        ensures
            exists|coin: bool| r == #[trigger] trip_type_of(hour as int, coin),
            trip_chance(hour as int) is None ==> r == trip_type_of(hour as int, true),
    {
        let coin: bool = if (hour >= 6_000_000 && hour < 9_500_000) || (hour >= 16_000_000 && hour
            < 18_500_000) {
            true
        } else if hour >= 12_000_000 && hour < 13_500_000 {
            draw_chance(rng, 2, 5)
        } else {
            draw_chance(rng, 1, 2)
        };
        trip_type_for(hour, coin)
    }

    /// The buildings at which a kind of trip begins: those of its kind, else all that can be
    /// reached.
    pub open spec fn origins(&self, t: TripType) -> Seq<usize> {
        let own = match t {
            TripType::WorkToHome => self.offices@,
            TripType::ShopToHome => self.commercial@,
            _ => self.residential@,
        };
        if own.len() == 0 {
            self.any_accessible@
        } else {
            own
        }
    }

    /// The buildings at which a kind of trip ends: those of its kind, else all that can be reached.
    pub open spec fn destinations(&self, t: TripType) -> Seq<usize> {
        let own = match t {
            TripType::HomeToWork => self.offices@,
            TripType::WorkToHome | TripType::ShopToHome => self.residential@,
            TripType::HomeToShop | TripType::LunchTrip => self.commercial@,
        };
        if own.len() == 0 {
            self.any_accessible@
        } else {
            own
        }
    }

    fn origin_pool(&self, t: TripType) -> (r: &Vec<usize>)
        ensures
            r@ == self.origins(t),
    {
        let own: &Vec<usize> = match t {
            TripType::WorkToHome => &self.offices,
            TripType::ShopToHome => &self.commercial,
            _ => &self.residential,
        };
        if own.len() == 0 {
            &self.any_accessible
        } else {
            own
        }
    }

    fn dest_pool(&self, t: TripType) -> (r: &Vec<usize>)
        ensures
            r@ == self.destinations(t),
    {
        let own: &Vec<usize> = match t {
            TripType::HomeToWork => &self.offices,
            TripType::WorkToHome | TripType::ShopToHome => &self.residential,
            TripType::HomeToShop | TripType::LunchTrip => &self.commercial,
        };
        if own.len() == 0 {
            &self.any_accessible
        } else {
            own
        }
    }

    proof fn lemma_pools(&self, t: TripType)
        requires
            self.wf(),
            self.buildings@.len() <= usize::MAX,
        ensures
            forall|i: int|
                0 <= i < self.origins(t).len() ==> #[trigger] self.origins(t)[i]
                    < self.buildings@.len() && self.buildings@[self.origins(
                    t,
                )[i] as int].access_node is Some,
            forall|i: int|
                0 <= i < self.destinations(t).len() ==> #[trigger] self.destinations(t)[i]
                    < self.buildings@.len() && self.buildings@[self.destinations(
                    t,
                )[i] as int].access_node is Some,
    {
        let b = self.buildings@;
        let n = b.len() as int;
        lemma_pool(b, Pool::ReachableKind(BuildingType::Residential), n);
        lemma_pool(b, Pool::ReachableKind(BuildingType::Office), n);
        lemma_pool(b, Pool::ReachableKind(BuildingType::Commercial), n);
        lemma_pool(b, Pool::Reachable, n);
    }

    /// Whether a trip at an hour may lead from one building to another: one of the two kinds of trip
    /// that a coin decides between starts at the first and ends at the second.
    pub open spec fn may_draw(&self, hour: i64, origin: usize, destination: usize) -> bool {
        &&& origin < self.buildings@.len()
        &&& destination < self.buildings@.len()
        &&& exists|coin: bool|
            {
                let t = #[trigger] trip_type_of(hour as int, coin);
                self.origins(t).contains(origin) && self.destinations(t).contains(destination)
            }
    }

    /// Two buildings between which a trip at an hour may be made, drawn by chance; none where no
    /// building can be reached.
    pub fn draw_od_buildings(&self, hour: i64, rng: &mut StdRng) -> (r: Option<(usize, usize)>)
        requires
            self.wf(),
        ensures
            r is None <==> self.any_accessible@.len() == 0,
            r matches Some(p) ==> self.may_draw(hour, p.0, p.1),
    {
        if self.any_accessible.len() == 0 {
            return None;
        }
        let t = OdModel::select_trip_type(hour, rng);
        proof {
            assert(self.buildings.len() == self.buildings@.len());
            self.lemma_pools(t);
        }
        let from: &Vec<usize> = self.origin_pool(t);
        let to: &Vec<usize> = self.dest_pool(t);
        let oi: usize = from[draw_below(rng, from.len())];
        let di: usize = to[draw_below(rng, to.len())];
        Some((oi, di))
    }

    /// The nodes between which a trip between two buildings that are `distance` apart is made: none
    /// for the same building, for a way that is walked, or where both are reached from one node.
    pub open spec fn pair_of(&self, oi: usize, di: usize, distance: int) -> Option<
        (usize, usize, TripKind),
    > {
        if oi == di || distance < WALK_THRESHOLD {
            None
        } else {
            match (
                self.buildings@[oi as int].access_node,
                self.buildings@[di as int].access_node,
            ) {
                (Some(a), Some(b)) => if a == b {
                    None
                } else {
                    Some((a, b, TripKind::LocalOD))
                },
                _ => None,
            }
        }
    }

    /// The nodes between which a trip between two buildings that are `distance` apart is made.
    pub fn generate_od_pair(&self, oi: usize, di: usize, distance: i64) -> (r: Option<
        (usize, usize, TripKind),
    >)
        requires
            oi < self.buildings@.len(),
            di < self.buildings@.len(),
        ensures
            r == self.pair_of(oi, di, distance as int),
    {
        if oi == di || distance < WALK_THRESHOLD {
            return None;
        }
        match (self.buildings[oi].access_node, self.buildings[di].access_node) {
            (Some(a), Some(b)) => if a == b {
                None
            } else {
                Some((a, b, TripKind::LocalOD))
            },
            _ => None,
        }
    }
}

/// A trip between buildings leads between two different nodes and is not one that is walked.
pub proof fn law_trips_lead_somewhere(m: OdModel, oi: usize, di: usize, distance: int)
    requires
        m.pair_of(oi, di, distance) is Some,
    ensures
        m.pair_of(oi, di, distance)->Some_0.0 != m.pair_of(oi, di, distance)->Some_0.1,
        oi != di,
        distance >= WALK_THRESHOLD,
{
}

/// In the morning people drive to work, and in the afternoon home, whatever the coin.
pub proof fn law_rush_hours(hour: int, coin: bool)
    ensures
        6_000_000 <= hour < 9_500_000 ==> trip_type_of(hour, coin) == TripType::HomeToWork,
        16_000_000 <= hour < 18_500_000 ==> trip_type_of(hour, coin) == TripType::WorkToHome,
        trip_chance(hour) is None ==> trip_type_of(hour, true) == trip_type_of(hour, false),
{
}

/// A pool holds exactly the buildings that belong to it, each once and in order.
pub proof fn law_pools_complete(buildings: Seq<OdBuilding>, p: Pool, n: int, x: usize)
    requires
        0 <= n <= buildings.len() <= usize::MAX,
    ensures
        pool_places(buildings, p, n).contains(x) <==> x < n && in_pool(buildings[x as int], p),
    decreases n,
{
    if n > 0 {
        law_pools_complete(buildings, p, n - 1, x);
        let before = pool_places(buildings, p, n - 1);
        let now = pool_places(buildings, p, n);
        if before.contains(x) {
            let i = choose|i: int| 0 <= i < before.len() && before[i] == x;
            assert(now[i] == x);
        }
        if in_pool(buildings[n - 1], p) {
            assert(now[before.len() as int] == (n - 1) as usize);
        }
        if now.contains(x) {
            let i = choose|i: int| 0 <= i < now.len() && now[i] == x;
            if i < before.len() {
                assert(before[i] == x);
            }
        }
    }
}

/// People go to work from a home to an office and back, shop between a home and a shop, and all these
/// can be reached; where no building of a kind can be reached, any that can be takes its place.
pub proof fn law_where_trips_lead(m: OdModel, t: TripType, x: usize, y: usize)
    requires
        m.wf(),
        m.buildings@.len() <= usize::MAX,
        m.origins(t).contains(x),
        m.destinations(t).contains(y),
    ensures
        x < m.buildings@.len() && y < m.buildings@.len(),
        m.buildings@[x as int].access_node is Some,
        m.buildings@[y as int].access_node is Some,
        m.residential@.len() > 0 && (t == TripType::HomeToWork || t == TripType::HomeToShop || t
            == TripType::LunchTrip) ==> m.buildings@[x as int].building_type
            == BuildingType::Residential,
        m.residential@.len() > 0 && (t == TripType::WorkToHome || t == TripType::ShopToHome)
            ==> m.buildings@[y as int].building_type == BuildingType::Residential,
        m.offices@.len() > 0 && t == TripType::HomeToWork ==> m.buildings@[y as int].building_type
            == BuildingType::Office,
        m.offices@.len() > 0 && t == TripType::WorkToHome ==> m.buildings@[x as int].building_type
            == BuildingType::Office,
        m.commercial@.len() > 0 && (t == TripType::HomeToShop || t == TripType::LunchTrip)
            ==> m.buildings@[y as int].building_type == BuildingType::Commercial,
        m.commercial@.len() > 0 && t == TripType::ShopToHome
            ==> m.buildings@[x as int].building_type == BuildingType::Commercial,
{
    let b = m.buildings@;
    let n = b.len() as int;
    law_pools_complete(b, Pool::ReachableKind(BuildingType::Residential), n, x);
    law_pools_complete(b, Pool::ReachableKind(BuildingType::Office), n, x);
    law_pools_complete(b, Pool::ReachableKind(BuildingType::Commercial), n, x);
    law_pools_complete(b, Pool::Reachable, n, x);
    law_pools_complete(b, Pool::ReachableKind(BuildingType::Residential), n, y);
    law_pools_complete(b, Pool::ReachableKind(BuildingType::Office), n, y);
    law_pools_complete(b, Pool::ReachableKind(BuildingType::Commercial), n, y);
    law_pools_complete(b, Pool::Reachable, n, y);
}

/// At lunchtime people go out to eat or shop; from ten to one and around six they shop; at all other
/// hours outside the rush they commute.
pub proof fn law_other_hours(hour: int, coin: bool)
    requires
        !(6_000_000 <= hour < 9_500_000),
        !(16_000_000 <= hour < 18_500_000),
    ensures
        ({
            let t = trip_type_of(hour, coin);
            &&& 12_000_000 <= hour < 13_500_000 ==> t == if coin {
                TripType::LunchTrip
            } else {
                TripType::HomeToShop
            }
            &&& 10_000_000 <= hour < 12_000_000 || 18_500_000 <= hour < 19_000_000 ==> t == if coin {
                TripType::HomeToShop
            } else {
                TripType::ShopToHome
            }
            &&& hour < 10_000_000 || 13_500_000 <= hour < 18_500_000 || hour >= 19_000_000 ==> t
                == if coin {
                TripType::HomeToWork
            } else {
                TripType::WorkToHome
            }
        }),
{
}

/// A trip is driven between two buildings exactly where they differ, are at least 400 m apart and are
/// reached from two different nodes, and it leads from the node of the first to that of the second.
pub proof fn law_driven_trips(m: OdModel, oi: usize, di: usize, distance: int)
    requires
        oi < m.buildings@.len(),
        di < m.buildings@.len(),
    ensures
        ({
            let (a, b) = (
                m.buildings@[oi as int].access_node,
                m.buildings@[di as int].access_node,
            );
            let r = m.pair_of(oi, di, distance);
            &&& r is Some <==> oi != di && distance >= 400_000_000 && a is Some && b is Some && a
                != b
            &&& r is Some ==> r == Some((a->Some_0, b->Some_0, TripKind::LocalOD))
        }),
{
}

/// In the morning trips are drawn from homes to work and in the late afternoon back.
pub proof fn law_trips_of_the_hour(m: OdModel, hour: i64, origin: usize, destination: usize)
    requires
        m.wf(),
        m.buildings@.len() <= usize::MAX,
        m.may_draw(hour, origin, destination),
        m.residential@.len() > 0,
        m.offices@.len() > 0,
    ensures
        6_000_000 <= hour < 9_500_000 ==> m.buildings@[origin as int].building_type
            == BuildingType::Residential && m.buildings@[destination as int].building_type
            == BuildingType::Office,
        16_000_000 <= hour < 18_500_000 ==> m.buildings@[origin as int].building_type
            == BuildingType::Office && m.buildings@[destination as int].building_type
            == BuildingType::Residential,
        m.buildings@[origin as int].access_node is Some,
        m.buildings@[destination as int].access_node is Some,
{
    let coin = choose|coin: bool|
        {
            let t = #[trigger] trip_type_of(hour as int, coin);
            m.origins(t).contains(origin) && m.destinations(t).contains(destination)
        };
    law_where_trips_lead(m, trip_type_of(hour as int, coin), origin, destination);
}

} // verus!
