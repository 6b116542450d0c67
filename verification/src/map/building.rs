//! Buildings as origins and destinations of trips.

use vstd::prelude::*;

use crate::map::osm::{tag_of, tag_value, NodeTable, OsmData, OsmNode, OsmWay, Tags};
use crate::units::floor_div;
use crate::util::text::text_eq;

verus! {

/// What a building is used for.
#[derive(Clone, Copy, Debug, PartialEq, Eq, Structural)]
pub enum BuildingType {
    Residential,
    Commercial,
    Office,
    Other,
}

impl BuildingType {
    /// The name of the use.
    pub open spec fn label(self) -> Seq<char> {
        match self {
            BuildingType::Residential => "residential"@,
            BuildingType::Commercial => "commercial"@,
            BuildingType::Office => "office"@,
            BuildingType::Other => "other"@,
        }
    }

    /// The name of the use.
    pub fn as_str(self) -> (r: &'static str)
        ensures
            r@ == self.label(),
    {
        match self {
            BuildingType::Residential => "residential",
            BuildingType::Commercial => "commercial",
            BuildingType::Office => "office",
            BuildingType::Other => "other",
        }
    }
}

/// A building: outline and centre as longitude and latitude, use, and the road node that
/// gives access to it.
pub struct OdBuilding {
    pub id: u64,
    pub polygon: Vec<(i64, i64)>,
    pub centroid: (i64, i64),
    pub building_type: BuildingType,
    pub access_node: Option<usize>,
}

/// Amenities that count as commercial.
pub open spec fn amenity_commercial(v: Seq<char>) -> bool {
    v == "supermarket"@
        || v == "mall"@
        || v == "marketplace"@
        || v == "food_court"@
        || v == "fast_food"@
        || v == "restaurant"@
        || v == "cafe"@
        || v == "bar"@
        || v == "pub"@
}

/// Amenities that count as offices.
pub open spec fn amenity_office(v: Seq<char>) -> bool {
    v == "bank"@
        || v == "townhall"@
        || v == "courthouse"@
        || v == "government"@
        || v == "embassy"@
        || v == "post_office"@
        || v == "police"@
        || v == "fire_station"@
}

/// Building values that count as residential.
pub open spec fn building_residential(v: Seq<char>) -> bool {
    v == "residential"@
        || v == "apartments"@
        || v == "house"@
        || v == "detached"@
        || v == "semidetached_house"@
        || v == "terrace"@
        || v == "dormitory"@
        || v == "bungalow"@
}

/// Building values that count as commercial.
pub open spec fn building_commercial(v: Seq<char>) -> bool {
    v == "commercial"@
        || v == "retail"@
        || v == "supermarket"@
        || v == "warehouse"@
        || v == "kiosk"@
}

/// Building values that count as offices.
pub open spec fn building_office(v: Seq<char>) -> bool {
    v == "office"@
        || v == "government"@
        || v == "civic"@
        || v == "public"@
        || v == "school"@
        || v == "university"@
        || v == "hospital"@
        || v == "church"@
        || v == "cathedral"@
        || v == "chapel"@
        || v == "synagogue"@
        || v == "mosque"@
}

fn is_amenity_commercial(v: &str) -> (r: bool)
    ensures
        r == amenity_commercial(v@),
{
    text_eq(v, "supermarket")
        || text_eq(v, "mall")
        || text_eq(v, "marketplace")
        || text_eq(v, "food_court")
        || text_eq(v, "fast_food")
        || text_eq(v, "restaurant")
        || text_eq(v, "cafe")
        || text_eq(v, "bar")
        || text_eq(v, "pub")
}

fn is_amenity_office(v: &str) -> (r: bool)
    ensures
        r == amenity_office(v@),
{
    text_eq(v, "bank")
        || text_eq(v, "townhall")
        || text_eq(v, "courthouse")
        || text_eq(v, "government")
        || text_eq(v, "embassy")
        || text_eq(v, "post_office")
        || text_eq(v, "police")
        || text_eq(v, "fire_station")
}

fn is_building_residential(v: &str) -> (r: bool)
    ensures
        r == building_residential(v@),
{
    text_eq(v, "residential")
        || text_eq(v, "apartments")
        || text_eq(v, "house")
        || text_eq(v, "detached")
        || text_eq(v, "semidetached_house")
        || text_eq(v, "terrace")
        || text_eq(v, "dormitory")
        || text_eq(v, "bungalow")
}

fn is_building_commercial(v: &str) -> (r: bool)
    ensures
        r == building_commercial(v@),
{
    text_eq(v, "commercial")
        || text_eq(v, "retail")
        || text_eq(v, "supermarket")
        || text_eq(v, "warehouse")
        || text_eq(v, "kiosk")
}

fn is_building_office(v: &str) -> (r: bool)
    ensures
        r == building_office(v@),
{
    text_eq(v, "office")
        || text_eq(v, "government")
        || text_eq(v, "civic")
        || text_eq(v, "public")
        || text_eq(v, "school")
        || text_eq(v, "university")
        || text_eq(v, "hospital")
        || text_eq(v, "church")
        || text_eq(v, "cathedral")
        || text_eq(v, "chapel")
        || text_eq(v, "synagogue")
        || text_eq(v, "mosque")
}

/// The use of a building with the given tags. A telling amenity comes first, a shop or an
/// office inside next, the kind of building last.
pub open spec fn building_type_of(tags: Map<Seq<char>, String>) -> BuildingType {
    let amenity = tag_value(tags, "amenity"@);
    let building = tag_value(tags, "building"@);
    if amenity is Some && amenity_commercial(amenity.unwrap()) {
        BuildingType::Commercial
    } else if amenity is Some && amenity_office(amenity.unwrap()) {
        BuildingType::Office
    } else if tags.contains_key("shop"@) {
        BuildingType::Commercial
    } else if tags.contains_key("office"@) {
        BuildingType::Office
    } else if building is Some && building_residential(building.unwrap()) {
        BuildingType::Residential
    } else if building is Some && building_commercial(building.unwrap()) {
        BuildingType::Commercial
    } else if building is Some && building_office(building.unwrap()) {
        BuildingType::Office
    } else {
        BuildingType::Other
    }
}

/// The use of a building with the given tags.
pub fn classify_building(tags: &Tags) -> (r: BuildingType)
    ensures
        r == building_type_of(tags@),
{
    match tag_of(tags, "amenity") {
        Some(amenity) => {
            if is_amenity_commercial(amenity) {
                return BuildingType::Commercial;
            }
            if is_amenity_office(amenity) {
                return BuildingType::Office;
            }
        },
        None => {},
    }
    if tags.contains_key("shop") {
        return BuildingType::Commercial;
    }
    if tags.contains_key("office") {
        return BuildingType::Office;
    }
    match tag_of(tags, "building") {
        Some(building) => {
            if is_building_residential(building) {
                return BuildingType::Residential;
            }
            if is_building_commercial(building) {
                return BuildingType::Commercial;
            }
            if is_building_office(building) {
                return BuildingType::Office;
            }
        },
        None => {},
    }
    BuildingType::Other
}

/// The sum of the first coordinates.
pub open spec fn sum_first(polygon: Seq<(i64, i64)>) -> int
    decreases polygon.len(),
{
    if polygon.len() == 0 {
        0
    } else {
        sum_first(polygon.drop_last()) + polygon.last().0
    }
}

/// The sum of the second coordinates.
pub open spec fn sum_second(polygon: Seq<(i64, i64)>) -> int
    decreases polygon.len(),
{
    if polygon.len() == 0 {
        0
    } else {
        sum_second(polygon.drop_last()) + polygon.last().1
    }
}

/// A sum of 64-bit numbers is bounded by their number.
proof fn lemma_sum_bounds(polygon: Seq<(i64, i64)>)
    ensures
        i64::MIN * polygon.len() <= sum_first(polygon) <= i64::MAX * polygon.len(),
        i64::MIN * polygon.len() <= sum_second(polygon) <= i64::MAX * polygon.len(),
    decreases polygon.len(),
{
    if polygon.len() > 0 {
        lemma_sum_bounds(polygon.drop_last());
        assert(i64::MIN * polygon.len() == i64::MIN * (polygon.len() - 1) + i64::MIN)
            by (nonlinear_arith);
        assert(i64::MAX * polygon.len() == i64::MAX * (polygon.len() - 1) + i64::MAX)
            by (nonlinear_arith);
    }
}

/// The mean of the vertices, rounded down.
pub fn compute_centroid(polygon: &Vec<(i64, i64)>) -> (r: (i64, i64))
    requires
        polygon@.len() > 0,
    ensures
        r.0 == sum_first(polygon@) / polygon@.len() as int,
        r.1 == sum_second(polygon@) / polygon@.len() as int,
{
    let n: usize = polygon.len();
    let mut x: i128 = 0;
    let mut y: i128 = 0;
    let mut i: usize = 0;
    assert(polygon@.take(0) =~= Seq::<(i64, i64)>::empty());
    while i < n
        invariant
            i <= n,
            n == polygon@.len(),
            x == sum_first(polygon@.take(i as int)),
            y == sum_second(polygon@.take(i as int)),
        decreases n - i,
    {
        proof {
            lemma_sum_bounds(polygon@.take(i as int));
            lemma_count_times_limit(i as int);
            assert(polygon@.take(i + 1).drop_last() =~= polygon@.take(i as int));
        }
        x = x + polygon[i].0 as i128;
        y = y + polygon[i].1 as i128;
        i = i + 1;
    }
    assert(polygon@.take(i as int) =~= polygon@);
    proof {
        lemma_sum_bounds(polygon@);
        lemma_mean_fits(x as int, n as int);
        lemma_mean_fits(y as int, n as int);
    }
    (floor_div(x, n as i128) as i64, floor_div(y, n as i128) as i64)
}

proof fn lemma_count_times_limit(n: int)
    requires
        0 <= n <= usize::MAX,
    ensures
        i64::MIN * n >= -0x8000_0000_0000_0000 * 0xffff_ffff_ffff_ffff,
        i64::MAX * n <= 0x8000_0000_0000_0000 * 0xffff_ffff_ffff_ffff,
{
    assert(i64::MIN * n >= -0x8000_0000_0000_0000 * 0xffff_ffff_ffff_ffff) by (nonlinear_arith)
        requires
            0 <= n <= 0xffff_ffff_ffff_ffff,
    ;
    assert(i64::MAX * n <= 0x8000_0000_0000_0000 * 0xffff_ffff_ffff_ffff) by (nonlinear_arith)
        requires
            0 <= n <= 0xffff_ffff_ffff_ffff,
    ;
}

proof fn lemma_mean_fits(sum: int, n: int)
    requires
        n > 0,
        i64::MIN * n <= sum <= i64::MAX * n,
    ensures
        i64::MIN <= sum / n <= i64::MAX,
{
    assert(i64::MIN <= sum / n <= i64::MAX) by (nonlinear_arith)
        requires
            n > 0,
            i64::MIN * n <= sum <= i64::MAX * n,
    ;
}

/// The places of the nodes in the table that have one of the given ids, in id order; unknown
/// ids are left out.
pub open spec fn outline(nodes: Seq<OsmNode>, refs: Seq<u64>) -> Seq<(i64, i64)>
    decreases refs.len(),
{
    if refs.len() == 0 {
        Seq::empty()
    } else {
        let before = outline(nodes, refs.drop_last());
        match node_with_id(nodes, refs.last()) {
            Some(n) => before.push((n.lng, n.lat)),
            None => before,
        }
    }
}

/// The node with the given id.
pub open spec fn node_with_id(nodes: Seq<OsmNode>, id: u64) -> Option<OsmNode>
    decreases nodes.len(),
{
    if nodes.len() == 0 {
        None
    } else if nodes[0].id == id {
        Some(nodes[0])
    } else {
        node_with_id(nodes.skip(1), id)
    }
}

/// In a list without repeated ids a node is found by its id.
pub proof fn lemma_node_with_id(nodes: Seq<OsmNode>, id: u64, i: int)
    requires
        forall|a: int, b: int|
            0 <= a < nodes.len() && 0 <= b < nodes.len() && a != b ==> (#[trigger] nodes[a]).id != (
            #[trigger] nodes[b]).id,
        0 <= i < nodes.len(),
        nodes[i].id == id,
    ensures
        node_with_id(nodes, id) == Some(nodes[i]),
    decreases nodes.len(),
{
    if i > 0 {
        assert(nodes[0].id != nodes[i].id);
        let rest = nodes.skip(1);
        assert forall|a: int, b: int|
            0 <= a < rest.len() && 0 <= b < rest.len() && a != b implies (#[trigger] rest[a]).id != (
        #[trigger] rest[b]).id by {
            assert(nodes[a + 1].id != nodes[b + 1].id);
        }
        lemma_node_with_id(rest, id, i - 1);
    }
}

/// An id that no node has is not found.
pub proof fn lemma_no_node_with_id(nodes: Seq<OsmNode>, id: u64)
    requires
        forall|a: int| 0 <= a < nodes.len() ==> (#[trigger] nodes[a]).id != id,
    ensures
        node_with_id(nodes, id) is None,
    decreases nodes.len(),
{
    if nodes.len() > 0 {
        assert(nodes[0].id != id);
        let rest = nodes.skip(1);
        assert forall|a: int| 0 <= a < rest.len() implies (#[trigger] rest[a]).id != id by {
            assert(nodes[a + 1].id != id);
        }
        lemma_no_node_with_id(rest, id);
    }
}

/// Finds a node by its id.
pub fn find_node<'a>(table: &'a NodeTable, id: u64) -> (r: Option<&'a OsmNode>)
    requires
        table.wf(),
    ensures
        match r {
            Some(n) => node_with_id(table.nodes(), id) == Some(*n),
            None => node_with_id(table.nodes(), id) is None,
        },
{
    match table.find(id) {
        Some(i) => {
            proof {
                assert forall|a: int, b: int|
                    0 <= a < table.nodes().len() && 0 <= b < table.nodes().len() && a
                        != b implies (#[trigger] table.nodes()[a]).id != (
                #[trigger] table.nodes()[b]).id by {
                    if table.nodes()[a].id == table.nodes()[b].id {
                        table.lemma_ids_differ(a, b);
                    }
                }
                lemma_node_with_id(table.nodes(), id, i as int);
            }
            Some(table.at(i))
        },
        None => {
            proof {
                lemma_no_node_with_id(table.nodes(), id);
            }
            None
        },
    }
}

fn read_outline(table: &NodeTable, refs: &Vec<u64>) -> (r: Vec<(i64, i64)>)
    requires
        table.wf(),
    ensures
        r@ == outline(table.nodes(), refs@),
{
    let mut out: Vec<(i64, i64)> = Vec::new();
    let mut i: usize = 0;
    assert(refs@.take(0) =~= Seq::<u64>::empty());
    while i < refs.len()
        invariant
            table.wf(),
            i <= refs.len(),
            out@ == outline(table.nodes(), refs@.take(i as int)),
        decreases refs.len() - i,
    {
        assert(refs@.take(i + 1).drop_last() =~= refs@.take(i as int));
        assert(refs@.take(i + 1).last() == refs@[i as int]);
        match find_node(table, refs[i]) {
            Some(n) => {
                out.push((n.lng, n.lat));
            },
            None => {},
        }
        i = i + 1;
    }
    assert(refs@.take(i as int) =~= refs@);
    out
}

/// What is recorded of a building.
pub struct OdBuildingView {
    pub id: u64,
    pub polygon: Seq<(i64, i64)>,
    pub centroid: (int, int),
    pub building_type: BuildingType,
    pub access_node: Option<usize>,
}

impl View for OdBuilding {
    type V = OdBuildingView;

    open spec fn view(&self) -> OdBuildingView {
        OdBuildingView {
            id: self.id,
            polygon: self.polygon@,
            centroid: (self.centroid.0 as int, self.centroid.1 as int),
            building_type: self.building_type,
            access_node: self.access_node,
        }
    }
}

/// The building that a way describes: it has a `building` tag and at least three known
/// vertices.
pub open spec fn building_of(nodes: Seq<OsmNode>, way: OsmWay) -> Option<OdBuildingView> {
    let polygon = outline(nodes, way.node_refs@);
    if way.tags@.contains_key("building"@) && polygon.len() >= 3 {
        Some(
            OdBuildingView {
                id: way.id,
                polygon,
                centroid: (
                    sum_first(polygon) / polygon.len() as int,
                    sum_second(polygon) / polygon.len() as int,
                ),
                building_type: building_type_of(way.tags@),
                access_node: None,
            },
        )
    } else {
        None
    }
}

/// The buildings among the ways, in way order.
pub open spec fn buildings_of(nodes: Seq<OsmNode>, ways: Seq<OsmWay>) -> Seq<OdBuildingView>
    decreases ways.len(),
{
    if ways.len() == 0 {
        Seq::empty()
    } else {
        let before = buildings_of(nodes, ways.drop_last());
        match building_of(nodes, ways.last()) {
            Some(b) => before.push(b),
            None => before,
        }
    }
}

/// The buildings of the loaded area, without access nodes.
pub fn extract_od_buildings(osm_data: &OsmData) -> (r: Vec<OdBuilding>)
    requires
        osm_data.wf(),
    ensures
        r@.map_values(|b: OdBuilding| b@) == buildings_of(
            osm_data.nodes.nodes(),
            osm_data.ways@,
        ),
{
    let mut out: Vec<OdBuilding> = Vec::new();
    let ways: &Vec<OsmWay> = &osm_data.ways;
    let mut i: usize = 0;
    proof {
        assert(ways@.take(0) =~= Seq::<OsmWay>::empty());
        assert(out@.map_values(|b: OdBuilding| b@) =~= Seq::<OdBuildingView>::empty());
    }
    while i < ways.len()
        invariant
            osm_data.wf(),
            ways == &osm_data.ways,
            i <= ways.len(),
            out@.map_values(|b: OdBuilding| b@) == buildings_of(
                osm_data.nodes.nodes(),
                ways@.take(i as int),
            ),
        decreases ways.len() - i,
    {
        let ghost before = out@;
        proof {
            assert(ways@.take(i + 1).drop_last() =~= ways@.take(i as int));
            assert(ways@.take(i + 1).last() == ways@[i as int]);
        }
        let way: &OsmWay = &ways[i];
        if way.tags.contains_key("building") {
            let polygon: Vec<(i64, i64)> = read_outline(&osm_data.nodes, &way.node_refs);
            if polygon.len() >= 3 {
                let centroid: (i64, i64) = compute_centroid(&polygon);
                let building_type: BuildingType = classify_building(&way.tags);
                out.push(
                    OdBuilding { id: way.id, polygon, centroid, building_type, access_node: None },
                );
                proof {
                    assert(out@.map_values(|b: OdBuilding| b@) =~= before.map_values(
                        |b: OdBuilding| b@,
                    ).push(out@.last()@));
                }
            }
        }
        i = i + 1;
    }
    assert(ways@.take(i as int) =~= ways@);
    out
}

/// The middle of an outline lies between its outermost points.
pub proof fn law_centroid_lies_between(polygon: Seq<(i64, i64)>, lo: int, hi: int)
    requires
        polygon.len() > 0,
    ensures
        (forall|i: int| 0 <= i < polygon.len() ==> lo <= (#[trigger] polygon[i]).0 <= hi) ==> lo
            <= sum_first(polygon) / polygon.len() as int <= hi,
        (forall|i: int| 0 <= i < polygon.len() ==> lo <= (#[trigger] polygon[i]).1 <= hi) ==> lo
            <= sum_second(polygon) / polygon.len() as int <= hi,
{
    let n = polygon.len() as int;
    if forall|i: int| 0 <= i < polygon.len() ==> lo <= (#[trigger] polygon[i]).0 <= hi {
        lemma_sum_first(polygon, lo, hi);
        let s = sum_first(polygon);
        assert(lo <= s / n <= hi) by (nonlinear_arith)
            requires
                n > 0,
                lo * n <= s <= hi * n,
        ;
    }
    if forall|i: int| 0 <= i < polygon.len() ==> lo <= (#[trigger] polygon[i]).1 <= hi {
        lemma_sum_second(polygon, lo, hi);
        let s = sum_second(polygon);
        assert(lo <= s / n <= hi) by (nonlinear_arith)
            requires
                n > 0,
                lo * n <= s <= hi * n,
        ;
    }
}

proof fn lemma_sum_first(polygon: Seq<(i64, i64)>, lo: int, hi: int)
    requires
        forall|i: int| 0 <= i < polygon.len() ==> lo <= (#[trigger] polygon[i]).0 <= hi,
    ensures
        lo * polygon.len() <= sum_first(polygon) <= hi * polygon.len(),
    decreases polygon.len(),
{
    let n = polygon.len() as int;
    if n > 0 {
        let front = polygon.drop_last();
        assert forall|i: int| 0 <= i < front.len() implies lo <= (#[trigger] front[i]).0 <= hi by {
            assert(front[i] == polygon[i]);
        }
        lemma_sum_first(front, lo, hi);
        assert(lo <= polygon[n - 1].0 <= hi);
        assert(lo * n == lo * (n - 1) + lo && hi * n == hi * (n - 1) + hi) by (nonlinear_arith);
    } else {
        assert(lo * 0 == 0 && hi * 0 == 0) by (nonlinear_arith);
    }
}

proof fn lemma_sum_second(polygon: Seq<(i64, i64)>, lo: int, hi: int)
    requires
        forall|i: int| 0 <= i < polygon.len() ==> lo <= (#[trigger] polygon[i]).1 <= hi,
    ensures
        lo * polygon.len() <= sum_second(polygon) <= hi * polygon.len(),
    decreases polygon.len(),
{
    let n = polygon.len() as int;
    if n > 0 {
        let front = polygon.drop_last();
        assert forall|i: int| 0 <= i < front.len() implies lo <= (#[trigger] front[i]).1 <= hi by {
            assert(front[i] == polygon[i]);
        }
        lemma_sum_second(front, lo, hi);
        assert(lo <= polygon[n - 1].1 <= hi);
        assert(lo * n == lo * (n - 1) + lo && hi * n == hi * (n - 1) + hi) by (nonlinear_arith);
    } else {
        assert(lo * 0 == 0 && hi * 0 == 0) by (nonlinear_arith);
    }
}

/// A building with a shop is commercial and one with an office an office, unless an amenity says
/// otherwise; without these the kind of building decides.
pub proof fn law_use_of_buildings(tags: Map<Seq<char>, String>)
    requires
        tag_value(tags, "amenity"@) is None,
    ensures
        tags.contains_key("shop"@) ==> building_type_of(tags) == BuildingType::Commercial,
        !tags.contains_key("shop"@) && tags.contains_key("office"@) ==> building_type_of(tags)
            == BuildingType::Office,
        !tags.contains_key("shop"@) && !tags.contains_key("office"@) && tag_value(
            tags,
            "building"@,
        ) == Some("apartments"@) ==> building_type_of(tags) == BuildingType::Residential,
        !tags.contains_key("shop"@) && !tags.contains_key("office"@) && tag_value(
            tags,
            "building"@,
        ) == Some("retail"@) ==> building_type_of(tags) == BuildingType::Commercial,
        !tags.contains_key("shop"@) && !tags.contains_key("office"@) && tag_value(
            tags,
            "building"@,
        ) == Some("school"@) ==> building_type_of(tags) == BuildingType::Office,
        !tags.contains_key("shop"@) && !tags.contains_key("office"@) && tag_value(
            tags,
            "building"@,
        ) is None ==> building_type_of(tags) == BuildingType::Other,
{
    reveal_strlit("retail");
    reveal_strlit("school");
    reveal_strlit("residential");
    reveal_strlit("apartments");
    reveal_strlit("house");
    reveal_strlit("detached");
    reveal_strlit("semidetached_house");
    reveal_strlit("terrace");
    reveal_strlit("dormitory");
    reveal_strlit("bungalow");
    reveal_strlit("commercial");
    reveal_strlit("supermarket");
    reveal_strlit("warehouse");
    reveal_strlit("kiosk");
    assert("retail"@.len() == 6 && "school"@.len() == 6 && "residential"@.len() == 11
        && "apartments"@.len() == 10 && "house"@.len() == 5 && "detached"@.len() == 8
        && "semidetached_house"@.len() == 18 && "terrace"@.len() == 7 && "dormitory"@.len() == 9
        && "bungalow"@.len() == 8 && "commercial"@.len() == 10 && "supermarket"@.len() == 11
        && "warehouse"@.len() == 9 && "kiosk"@.len() == 5);
    assert("retail"@[0] == 'r' && "school"@[0] == 's');
}

/// A building is made of every way that is tagged as one and has three known corners or more.
pub proof fn law_which_ways_are_buildings(nodes: Seq<OsmNode>, ways: Seq<OsmWay>, i: int)
    requires
        0 <= i < ways.len(),
    ensures
        building_of(nodes, ways[i]) is Some <==> ways[i].tags@.contains_key("building"@) && outline(
            nodes,
            ways[i].node_refs@,
        ).len() >= 3,
        building_of(nodes, ways[i]) matches Some(b) ==> b.id == ways[i].id && buildings_of(
            nodes,
            ways,
        ).contains(b),
    decreases ways.len(),
{
    let front = ways.drop_last();
    let before = buildings_of(nodes, front);
    let now = buildings_of(nodes, ways);
    if building_of(nodes, ways[i]) is Some {
        let b = building_of(nodes, ways[i])->Some_0;
        if i < front.len() {
            assert(front[i] == ways[i]);
            law_which_ways_are_buildings(nodes, front, i);
            let k = choose|k: int| 0 <= k < before.len() && before[k] == b;
            assert(now[k] == b);
        } else {
            assert(now[before.len() as int] == b);
        }
    }
}

} // verus!
