//! Roads: their kinds, lanes and how map tags describe them.

use vstd::prelude::*;
use vstd::string::*;

use crate::map::osm::{tag_is, tag_is_value, tag_of, tag_value, OsmMember, OsmRelation, Tags};
use crate::units::{floor_div, larger, saturate, saturated};
use crate::util::text::{
    parse_signed, parse_unsigned, signed_value, text_eq, unsigned_value,
};

verus! {

/// How right of way is settled at a node.
#[derive(Clone, Copy, Debug, PartialEq, Eq, Structural)]
pub enum IntersectionType {
    Plain,
    TrafficLight,
    /// Pedestrian crossing with signals in the middle of a road.
    PedestrianCrossing,
    Stop,
    Yield,
    Roundabout,
}

/// Whether a road lies on the ground, on a bridge or in a tunnel.
#[derive(Clone, Copy, Debug, PartialEq, Eq, Structural)]
pub enum InfraType {
    Normal,
    Bridge,
    Tunnel,
}

/// Where a lane leads at the end of its edge.
#[derive(Clone, Copy, Debug, PartialEq, Eq, Structural)]
pub enum LaneDirection {
    Left,
    Straight,
    Right,
    UTurn,
}

/// A node of the road graph, placed in billionths of a degree.
#[derive(Clone, Copy, Debug)]
pub struct RoadNode {
    pub osm_id: u64,
    pub lat: i64,
    pub lng: i64,
    pub intersection_type: IntersectionType,
}

/// A directed road segment.
pub struct RoadEdge {
    pub osm_id: u64,
    pub lanes: u8,
    pub max_speed: i64,
    pub oneway: bool,
    pub infra_type: InfraType,
    pub layer: i8,
    pub length: i64,
    pub lane_directions: Vec<LaneDirection>,
    pub decision_points: (i64, i64, i64),
    /// The `highway` tag of the way.
    pub road_type: String,
    /// Whether a lane of the segment is shared with a tram track.
    pub has_tram_track: bool,
}

/// A turn that a restriction forbids or demands.
#[derive(Clone, Copy, Debug, PartialEq, Eq, Structural)]
pub enum RestrictionKind {
    NoLeftTurn,
    NoRightTurn,
    NoStraightOn,
    NoUTurn,
    OnlyLeftTurn,
    OnlyRightTurn,
    OnlyStraightOn,
    NoEntry,
}

/// A turn restriction from one way over a node onto another way.
#[derive(Clone, Copy, Debug)]
pub struct TurnRestriction {
    pub from_way_id: u64,
    pub via_node_id: u64,
    pub to_way_id: u64,
    pub kind: RestrictionKind,
}

/// What a road segment holds, as a value.
pub struct RoadEdgeView {
    pub osm_id: u64,
    pub lanes: u8,
    pub max_speed: i64,
    pub oneway: bool,
    pub infra_type: InfraType,
    pub layer: i8,
    pub length: i64,
    pub lane_directions: Seq<LaneDirection>,
    pub decision_points: (i64, i64, i64),
    pub road_type: Seq<char>,
    pub has_tram_track: bool,
}

impl View for RoadEdge {
    type V = RoadEdgeView;

    open spec fn view(&self) -> RoadEdgeView {
        RoadEdgeView {
            osm_id: self.osm_id,
            lanes: self.lanes,
            max_speed: self.max_speed,
            oneway: self.oneway,
            infra_type: self.infra_type,
            layer: self.layer,
            length: self.length,
            lane_directions: self.lane_directions@,
            decision_points: self.decision_points,
            road_type: self.road_type@,
            has_tram_track: self.has_tram_track,
        }
    }
}

/// The points along a segment of the given length at which drivers choose their lane: at a
/// quarter, at half and at three quarters.
pub open spec fn decision_points_at(length: int) -> (int, int, int) {
    (length / 4, length / 2, length * 3 / 4)
}

/// The decision points of a segment of the given length.
pub fn decision_points(length: i64) -> (r: (i64, i64, i64))
    ensures
        (r.0 as int, r.1 as int, r.2 as int) == decision_points_at(length as int),
{
    let l: i128 = length as i128;
    (floor_div(l, 4) as i64, floor_div(l, 2) as i64, floor_div(l * 3, 4) as i64)
}

/// Whether a road belongs to the main network.
pub open spec fn backbone(highway: Option<Seq<char>>) -> bool {
    highway == Some("primary"@) || highway == Some("secondary"@) || highway == Some("tertiary"@)
}

/// Whether a road belongs to the main network: primary, secondary and tertiary roads.
pub fn is_backbone_road(highway: Option<&str>) -> (r: bool)
    ensures
        r == backbone(
            match highway {
                Some(h) => Some(h@),
                None => None,
            },
        ),
{
    match highway {
        Some(h) => text_eq(h, "primary") || text_eq(h, "secondary") || text_eq(h, "tertiary"),
        None => false,
    }
}

/// How right of way is settled at a node with the given tags.
pub open spec fn intersection_type_of(tags: Map<Seq<char>, String>) -> IntersectionType {
    if tag_is_value(tags, "junction"@, "roundabout"@) {
        IntersectionType::Roundabout
    } else if tag_is_value(tags, "highway"@, "traffic_signals"@) {
        IntersectionType::TrafficLight
    } else if tag_is_value(tags, "highway"@, "stop"@) {
        IntersectionType::Stop
    } else if tag_is_value(tags, "highway"@, "give_way"@) {
        IntersectionType::Yield
    } else if tags.contains_key("traffic_signals"@) {
        IntersectionType::TrafficLight
    } else {
        IntersectionType::Plain
    }
}

/// How right of way is settled at a node with the given tags.
pub fn determine_intersection_type(tags: &Tags) -> (r: IntersectionType)
    ensures
        r == intersection_type_of(tags@),
{
    if tag_is(tags, "junction", "roundabout") {
        IntersectionType::Roundabout
    } else if tag_is(tags, "highway", "traffic_signals") {
        IntersectionType::TrafficLight
    } else if tag_is(tags, "highway", "stop") {
        IntersectionType::Stop
    } else if tag_is(tags, "highway", "give_way") {
        IntersectionType::Yield
    } else if tags.contains_key("traffic_signals") {
        IntersectionType::TrafficLight
    } else {
        IntersectionType::Plain
    }
}

/// The direction of travel of a way: 1 along its nodes, -1 against them, 0 both ways.
pub open spec fn oneway_of(tags: Map<Seq<char>, String>) -> int {
    if tag_is_value(tags, "oneway"@, "no"@) {
        0
    } else if crate::map::osm::oneway_forward(tags) {
        1
    } else if crate::map::osm::oneway_backward(tags) {
        -1
    } else if tag_is_value(tags, "junction"@, "roundabout"@) || tag_is_value(
        tags,
        "highway"@,
        "motorway"@,
    ) || tag_is_value(tags, "highway"@, "motorway_link"@) {
        1
    } else {
        0
    }
}

/// The direction of travel of a way: 1 along its nodes, -1 against them, 0 both ways. An
/// explicit tag wins; roundabouts and motorways are one-way without one.
pub fn parse_oneway(tags: &Tags) -> (r: i8)
    ensures
        r == oneway_of(tags@),
{
    if tag_is(tags, "oneway", "no") {
        return 0;
    }
    if tag_is(tags, "oneway", "yes") || tag_is(tags, "oneway", "true") || tag_is(
        tags,
        "oneway",
        "1",
    ) {
        return 1;
    }
    if tag_is(tags, "oneway", "-1") || tag_is(tags, "oneway", "reverse") {
        return -1;
    }
    if tag_is(tags, "junction", "roundabout") || tag_is(tags, "highway", "motorway") || tag_is(
        tags,
        "highway",
        "motorway_link",
    ) {
        return 1;
    }
    0
}

/// The number of lanes of a way: the tagged number held between 1 and 8, or what is usual for
/// its kind.
pub open spec fn lanes_of(value: Option<Seq<char>>, highway: Seq<char>) -> int {
    let tagged = match value {
        Some(s) => unsigned_value(s),
        None => None,
    };
    if tagged is Some && tagged.unwrap() <= 255 {
        crate::units::between(tagged.unwrap() as int, 1, 8)
    } else if highway == "motorway"@ || highway == "trunk"@ {
        3
    } else if highway == "primary"@ || highway == "secondary"@ || highway == "tertiary"@ {
        2
    } else {
        1
    }
}

/// The number of lanes of a way.
pub fn parse_lanes(value: Option<&str>, highway: &str) -> (r: u8)
    ensures
        r == lanes_of(
            match value {
                Some(s) => Some(s@),
                None => None,
            },
            highway@,
        ),
        1 <= r <= 8,
{
    let tagged: Option<u64> = match value {
        Some(s) => parse_unsigned(s, 255),
        None => None,
    };
    match tagged {
        Some(n) => if n < 1 {
            1
        } else if n > 8 {
            8
        } else {
            n as u8
        },
        None => if text_eq(highway, "motorway") || text_eq(highway, "trunk") {
            3
        } else if text_eq(highway, "primary") || text_eq(highway, "secondary") || text_eq(
            highway,
            "tertiary",
        ) {
            2
        } else {
            1
        },
    }
}

/// The speed limit in km/h of a way without a `maxspeed` tag.
pub open spec fn default_speed_of(highway: Option<Seq<char>>) -> int {
    if highway == Some("motorway"@) || highway == Some("motorway_link"@) {
        120
    } else if highway == Some("trunk"@) || highway == Some("trunk_link"@) {
        90
    } else if highway == Some("primary"@) || highway == Some("primary_link"@) {
        70
    } else if highway == Some("secondary"@) || highway == Some("secondary_link"@) {
        60
    } else if highway == Some("tertiary"@) || highway == Some("tertiary_link"@) {
        50
    } else if highway == Some("residential"@) {
        30
    } else if highway == Some("living_street"@) {
        10
    } else if highway == Some("service"@) {
        20
    } else if highway == Some("pedestrian"@) || highway == Some("footway"@) || highway == Some(
        "path"@,
    ) {
        10
    } else {
        50
    }
}

/// The speed limit in km/h of a way without a `maxspeed` tag.
pub fn default_speed_kmh(highway: Option<&str>) -> (r: u32)
    ensures
        r == default_speed_of(
            match highway {
                Some(h) => Some(h@),
                None => None,
            },
        ),
{
    match highway {
        None => 50,
        Some(h) => if text_eq(h, "motorway") || text_eq(h, "motorway_link") {
            120
        } else if text_eq(h, "trunk") || text_eq(h, "trunk_link") {
            90
        } else if text_eq(h, "primary") || text_eq(h, "primary_link") {
            70
        } else if text_eq(h, "secondary") || text_eq(h, "secondary_link") {
            60
        } else if text_eq(h, "tertiary") || text_eq(h, "tertiary_link") {
            50
        } else if text_eq(h, "residential") {
            30
        } else if text_eq(h, "living_street") {
            10
        } else if text_eq(h, "service") {
            20
        } else if text_eq(h, "pedestrian") || text_eq(h, "footway") || text_eq(h, "path") {
            10
        } else {
            50
        },
    }
}

/// Whether a way lies on the ground, on a bridge or in a tunnel.
pub open spec fn infra_type_of(tags: Map<Seq<char>, String>) -> InfraType {
    if tag_is_value(tags, "bridge"@, "yes"@) {
        InfraType::Bridge
    } else if tag_is_value(tags, "tunnel"@, "yes"@) {
        InfraType::Tunnel
    } else {
        InfraType::Normal
    }
}

/// Whether a way lies on the ground, on a bridge or in a tunnel.
pub fn parse_infra_type(tags: &Tags) -> (r: InfraType)
    ensures
        r == infra_type_of(tags@),
{
    if tag_is(tags, "bridge", "yes") {
        InfraType::Bridge
    } else if tag_is(tags, "tunnel", "yes") {
        InfraType::Tunnel
    } else {
        InfraType::Normal
    }
}

/// The layer of a way: the tagged number where it fits 8 bits, else 0.
pub open spec fn layer_of(value: Option<Seq<char>>) -> int {
    match value {
        Some(s) => match signed_value(s) {
            Some(v) => if -128 <= v <= 127 {
                v
            } else {
                0
            },
            None => 0,
        },
        None => 0,
    }
}

/// The layer of a way.
pub fn parse_layer(value: Option<&str>) -> (r: i8)
    ensures
        r == layer_of(
            match value {
                Some(s) => Some(s@),
                None => None,
            },
        ),
{
    match value {
        Some(s) => match parse_signed(s, 128, 127) {
            Some(v) => v as i8,
            None => 0,
        },
        None => 0,
    }
}

/// Where the lanes of a segment lead when nothing is tagged: the leftmost turns left, the
/// rightmost of three or more turns right, the others go straight.
pub open spec fn lane_directions_of(lanes: int) -> Seq<LaneDirection> {
    if lanes <= 1 {
        seq![LaneDirection::Straight]
    } else if lanes == 2 {
        seq![LaneDirection::Left, LaneDirection::Straight]
    } else {
        Seq::new(
            lanes as nat,
            |i: int|
                if i == 0 {
                    LaneDirection::Left
                } else if i == lanes - 1 {
                    LaneDirection::Right
                } else {
                    LaneDirection::Straight
                },
        )
    }
}

/// Where the lanes of a segment lead when nothing is tagged.
pub fn build_lane_directions(lanes: u8) -> (r: Vec<LaneDirection>)
    ensures
        r@ == lane_directions_of(lanes as int),
{
    let mut dirs: Vec<LaneDirection> = Vec::new();
    if lanes <= 1 {
        dirs.push(LaneDirection::Straight);
        return dirs;
    }
    dirs.push(LaneDirection::Left);
    if lanes == 2 {
        dirs.push(LaneDirection::Straight);
        return dirs;
    }
    let mut i: u8 = 1;
    while i < lanes - 1
        invariant
            3 <= lanes,
            1 <= i <= lanes - 1,
            dirs@ == lane_directions_of(lanes as int).take(i as int),
        decreases lanes - i,
    {
        dirs.push(LaneDirection::Straight);
        i = i + 1;
        assert(dirs@ =~= lane_directions_of(lanes as int).take(i as int));
    }
    dirs.push(LaneDirection::Right);
    assert(dirs@ =~= lane_directions_of(lanes as int));
    dirs
}

/// Where the lanes lead on the opposite carriageway.
pub fn build_lane_directions_reversed(lanes: u8) -> (r: Vec<LaneDirection>)
    ensures
        r@ == lane_directions_of(lanes as int).reverse(),
{
    let dirs: Vec<LaneDirection> = build_lane_directions(lanes);
    let mut out: Vec<LaneDirection> = Vec::new();
    let mut i: usize = dirs.len();
    while i > 0
        invariant
            i <= dirs.len(),
            out@.len() == dirs.len() - i,
            forall|k: int| 0 <= k < out@.len() ==> #[trigger] out@[k] == dirs@[dirs.len() - 1 - k],
        decreases i,
    {
        i = i - 1;
        out.push(dirs[i]);
    }
    assert(out@ =~= dirs@.reverse());
    out
}

/// Copies a list of lane directions.
pub fn copy_directions(dirs: &Vec<LaneDirection>) -> (r: Vec<LaneDirection>)
    ensures
        r@ == dirs@,
{
    let mut out: Vec<LaneDirection> = Vec::new();
    let mut i: usize = 0;
    while i < dirs.len()
        invariant
            i <= dirs.len(),
            out@ == dirs@.take(i as int),
        decreases dirs.len() - i,
    {
        out.push(dirs[i]);
        i = i + 1;
        assert(out@ =~= dirs@.take(i as int));
    }
    assert(dirs@.take(i as int) =~= dirs@);
    out
}

/// The pieces of a text between separators.
pub open spec fn pieces(s: Seq<char>, sep: char) -> Seq<Seq<char>>
    decreases s.len(),
{
    if s.len() == 0 {
        seq![Seq::<char>::empty()]
    } else {
        let before = pieces(s.drop_last(), sep);
        if s.last() == sep {
            before.push(Seq::<char>::empty())
        } else {
            before.drop_last().push(before.last().push(s.last()))
        }
    }
}

/// What stands before the first separator.
pub open spec fn before_first(s: Seq<char>, sep: char) -> Seq<char>
    decreases s.len(),
{
    if s.len() == 0 || s[0] == sep {
        Seq::<char>::empty()
    } else {
        seq![s[0]] + before_first(s.skip(1), sep)
    }
}

/// Whether a character is white space in the Unicode sense.
pub open spec fn is_white(c: char) -> bool {
    let u = c as int;
    ||| 9 <= u <= 13
    ||| u == 32
    ||| u == 0x85
    ||| u == 0xa0
    ||| u == 0x1680
    ||| 0x2000 <= u <= 0x200a
    ||| u == 0x2028
    ||| u == 0x2029
    ||| u == 0x202f
    ||| u == 0x205f
    ||| u == 0x3000
}

/// A text without white space at its start.
pub open spec fn trim_start(s: Seq<char>) -> Seq<char>
    decreases s.len(),
{
    if s.len() > 0 && is_white(s[0]) {
        trim_start(s.skip(1))
    } else {
        s
    }
}

/// A text without white space at its end.
pub open spec fn trim_end(s: Seq<char>) -> Seq<char>
    decreases s.len(),
{
    if s.len() > 0 && is_white(s.last()) {
        trim_end(s.drop_last())
    } else {
        s
    }
}

/// What one entry of a `turn:lanes` tag says, by its first alternative.
pub open spec fn turn_of(entry: Seq<char>) -> LaneDirection {
    let first = trim_end(trim_start(before_first(entry, ';')));
    if first == "left"@ || first == "sharp_left"@ || first == "slight_left"@ {
        LaneDirection::Left
    } else if first == "right"@ || first == "sharp_right"@ || first == "slight_right"@ {
        LaneDirection::Right
    } else if first == "reverse"@ {
        LaneDirection::UTurn
    } else {
        LaneDirection::Straight
    }
}

fn white(c: char) -> (r: bool)
    ensures
        r == is_white(c),
{
    let u: u32 = c as u32;
    (9 <= u && u <= 13) || u == 32 || u == 0x85 || u == 0xa0 || u == 0x1680 || (0x2000 <= u && u
        <= 0x200a) || u == 0x2028 || u == 0x2029 || u == 0x202f || u == 0x205f || u == 0x3000
}

/// Where the first separator in `s[from..to]` stands, or `to`.
fn find_char(s: &str, from: usize, to: usize, sep: char) -> (r: usize)
    requires
        from <= to <= s@.len(),
    ensures
        from <= r <= to,
        s@.subrange(from as int, r as int) == before_first(
            s@.subrange(from as int, to as int),
            sep,
        ),
{
    let ghost whole = s@.subrange(from as int, to as int);
    let mut i: usize = from;
    assert(whole.skip(0) =~= whole);
    assert(whole.take(0) + before_first(whole, sep) =~= before_first(whole, sep));
    while i < to
        invariant
            from <= i <= to,
            to <= s@.len(),
            whole == s@.subrange(from as int, to as int),
            before_first(whole, sep) == whole.take(i - from) + before_first(
                whole.skip(i - from),
                sep,
            ),
        decreases to - i,
    {
        let c: char = s.get_char(i);
        let ghost rest = whole.skip(i - from);
        assert(rest[0] == c);
        if c == sep {
            assert(before_first(rest, sep) =~= Seq::<char>::empty());
            assert(s@.subrange(from as int, i as int) =~= whole.take(i - from));
            assert(before_first(whole, sep) =~= whole.take(i - from));
            return i;
        }
        assert(rest.skip(1) =~= whole.skip(i - from + 1));
        assert(before_first(rest, sep) == seq![c] + before_first(rest.skip(1), sep));
        assert(whole.take(i - from) + (seq![c] + before_first(rest.skip(1), sep)) =~= whole.take(
            i - from + 1,
        ) + before_first(rest.skip(1), sep));
        i = i + 1;
    }
    assert(whole.skip(to - from) =~= Seq::<char>::empty());
    assert(s@.subrange(from as int, to as int) =~= whole.take(to - from));
    assert(before_first(whole, sep) =~= whole.take(to - from));
    to
}

/// The bounds of `s[from..to]` without white space at either end.
fn trim_bounds(s: &str, from: usize, to: usize) -> (r: (usize, usize))
    requires
        from <= to <= s@.len(),
    ensures
        from <= r.0 <= r.1 <= to,
        s@.subrange(r.0 as int, r.1 as int) == trim_end(
            trim_start(s@.subrange(from as int, to as int)),
        ),
{
    let mut a: usize = from;
    while a < to && white(s.get_char(a))
        invariant
            from <= a <= to,
            to <= s@.len(),
            trim_start(s@.subrange(from as int, to as int)) == trim_start(
                s@.subrange(a as int, to as int),
            ),
        decreases to - a,
    {
        assert(s@.subrange(a as int, to as int).skip(1) =~= s@.subrange(a + 1, to as int));
        a = a + 1;
    }
    assert(trim_start(s@.subrange(from as int, to as int)) == s@.subrange(a as int, to as int));
    let mut b: usize = to;
    while a < b && white(s.get_char((b - 1) as usize))
        invariant
            a <= b <= to,
            to <= s@.len(),
            trim_end(s@.subrange(a as int, to as int)) == trim_end(
                s@.subrange(a as int, b as int),
            ),
        decreases b - a,
    {
        assert(s@.subrange(a as int, b as int).drop_last() =~= s@.subrange(a as int, b - 1));
        b = b - 1;
    }
    (a, b)
}

/// What stands before the first white space.
pub open spec fn first_word(s: Seq<char>) -> Seq<char>
    decreases s.len(),
{
    if s.len() == 0 || is_white(s[0]) {
        Seq::<char>::empty()
    } else {
        seq![s[0]] + first_word(s.skip(1))
    }
}

/// The number in a `maxspeed` tag and whether it counts miles: what stands before `mph` at the end,
/// else the first word.
pub open spec fn speed_number_of(tag: Seq<char>) -> (Seq<char>, bool) {
    let t = trim_end(trim_start(tag));
    let n = t.len() as int;
    if n >= 3 && t.subrange(n - 3, n) == "mph"@ {
        (trim_end(trim_start(t.take(n - 3))), true)
    } else {
        (first_word(t), false)
    }
}

/// The number in a `maxspeed` tag and whether it counts miles.
pub fn speed_number(tag: &str) -> (r: (String, bool))
    ensures
        (r.0@, r.1) == speed_number_of(tag@),
{
    let (a, b): (usize, usize) = trim_bounds(tag, 0, tag.unicode_len());
    let ghost t = tag@.subrange(a as int, b as int);
    proof {
        assert(tag@.subrange(0, tag@.len() as int) =~= tag@);
    }
    if b - a >= 3 {
        proof {
            assert(t.subrange(t.len() - 3, t.len() as int) =~= tag@.subrange(b - 3, b as int));
            assert(t.take(t.len() - 3) =~= tag@.subrange(a as int, b - 3));
        }
        if text_eq(tag.substring_char(b - 3, b), "mph") {
            let (c, d): (usize, usize) = trim_bounds(tag, a, b - 3);
            return (tag.substring_char(c, d).to_owned(), true);
        }
    }
    let mut i: usize = a;
    assert(t.skip(0) =~= t);
    assert(t.take(0) + first_word(t) =~= first_word(t));
    while i < b && !white(tag.get_char(i))
        invariant
            a <= i <= b,
            b <= tag@.len(),
            t == tag@.subrange(a as int, b as int),
            first_word(t) == t.take(i - a) + first_word(t.skip(i - a)),
        decreases b - i,
    {
        proof {
            let rest = t.skip(i - a);
            assert(rest[0] == tag@[i as int]);
            assert(rest.skip(1) =~= t.skip(i - a + 1));
            assert(t.take(i - a) + (seq![rest[0]] + first_word(rest.skip(1))) =~= t.take(i - a + 1)
                + first_word(rest.skip(1)));
        }
        i = i + 1;
    }
    proof {
        let rest = t.skip(i - a);
        if i < b {
            assert(rest[0] == tag@[i as int]);
        }
        assert(first_word(rest) =~= Seq::<char>::empty());
        assert(first_word(t) =~= tag@.subrange(a as int, i as int));
    }
    (tag.substring_char(a, i).to_owned(), false)
}

/// The speed limit of a way from the number in its `maxspeed` tag, in millionths, where it has one:
/// at least one metre a second. Without a number the kind of the way decides.
pub open spec fn max_speed_of(number: Option<i64>, mph: bool, highway: Option<Seq<char>>) -> int {
    match number {
        Some(v) => {
            let kmh = if mph {
                v * 160_934 / 100_000
            } else {
                v as int
            };
            saturated(larger(kmh * 5 / 18, 1_000_000))
        },
        None => default_speed_of(highway) * 5_000_000 / 18,
    }
}

/// The speed limit of a way.
pub fn parse_max_speed(number: Option<i64>, mph: bool, highway: Option<&str>) -> (r: i64)
    ensures
        r == max_speed_of(
            number,
            mph,
            match highway {
                Some(h) => Some(h@),
                None => None,
            },
        ),
{
    match number {
        Some(v) => {
            let kmh: i128 = if mph {
                floor_div(v as i128 * 160_934, 100_000)
            } else {
                v as i128
            };
            let speed: i128 = floor_div(kmh * 5, 18);
            if speed >= 1_000_000 {
                saturate(speed)
            } else {
                1_000_000
            }
        },
        None => default_speed_kmh(highway) as i64 * 5_000_000 / 18,
    }
}

/// Every speed limit is at least one metre a second.
pub proof fn law_limits_let_drive(number: Option<i64>, mph: bool, highway: Option<Seq<char>>)
    ensures
        max_speed_of(number, mph, highway) >= 1_000_000,
{
}

fn parse_turn_entry(s: &str, from: usize, to: usize) -> (r: LaneDirection)
    requires
        from <= to <= s@.len(),
    ensures
        r == turn_of(s@.subrange(from as int, to as int)),
{
    let end: usize = find_char(s, from, to, ';');
    let bounds: (usize, usize) = trim_bounds(s, from, end);
    let first: &str = s.substring_char(bounds.0, bounds.1);
    if text_eq(first, "left") || text_eq(first, "sharp_left") || text_eq(first, "slight_left") {
        LaneDirection::Left
    } else if text_eq(first, "right") || text_eq(first, "sharp_right") || text_eq(
        first,
        "slight_right",
    ) {
        LaneDirection::Right
    } else if text_eq(first, "reverse") {
        LaneDirection::UTurn
    } else {
        LaneDirection::Straight
    }
}

/// Where the lanes lead according to a `turn:lanes` tag: entries are separated by bars, the
/// alternatives of an entry by semicolons, and the first alternative counts.
pub fn parse_turn_lanes(tag: &str) -> (r: Vec<LaneDirection>)
    ensures
        r@ == pieces(tag@, '|').map_values(|p: Seq<char>| turn_of(p)),
{
    let n: usize = tag.unicode_len();
    let mut out: Vec<LaneDirection> = Vec::new();
    let ghost mut done: Seq<Seq<char>> = Seq::empty();
    let mut start: usize = 0;
    let mut i: usize = 0;
    proof {
        assert(tag@.take(0) =~= Seq::<char>::empty());
        assert(tag@.subrange(0, 0) =~= Seq::<char>::empty());
        assert(done.push(tag@.subrange(0, 0)) =~= seq![Seq::<char>::empty()]);
        assert(out@ =~= done.map_values(|p: Seq<char>| turn_of(p)));
    }
    while i < n
        invariant
            n == tag@.len(),
            start <= i <= n,
            pieces(tag@.take(i as int), '|') == done.push(
                tag@.subrange(start as int, i as int),
            ),
            out@ == done.map_values(|p: Seq<char>| turn_of(p)),
        decreases n - i,
    {
        let c: char = tag.get_char(i);
        let ghost upto = tag@.take(i + 1);
        let ghost piece = tag@.subrange(start as int, i as int);
        proof {
            assert(upto.drop_last() =~= tag@.take(i as int));
            assert(upto.last() == c);
        }
        if c == '|' {
            out.push(parse_turn_entry(tag, start, i));
            proof {
                let before = done;
                done = done.push(piece);
                assert(out@ =~= done.map_values(|p: Seq<char>| turn_of(p)));
                assert(tag@.subrange(i + 1, i + 1) =~= Seq::<char>::empty());
                assert(pieces(upto, '|') == before.push(piece).push(Seq::<char>::empty()));
            }
            start = i + 1;
        } else {
            proof {
                let all = done.push(piece);
                assert(all.drop_last() =~= done);
                assert(all.last() == piece);
                assert(piece.push(c) =~= tag@.subrange(start as int, i + 1));
            }
        }
        i = i + 1;
    }
    proof {
        assert(tag@.take(i as int) =~= tag@);
    }
    out.push(parse_turn_entry(tag, start, n));
    proof {
        assert(out@ =~= done.push(tag@.subrange(start as int, n as int)).map_values(
            |p: Seq<char>| turn_of(p),
        ));
    }
    out
}

/// The restriction that a tag value names.
pub open spec fn restriction_kind_of(s: Seq<char>) -> Option<RestrictionKind> {
    if s == "no_left_turn"@ {
        Some(RestrictionKind::NoLeftTurn)
    } else if s == "no_right_turn"@ {
        Some(RestrictionKind::NoRightTurn)
    } else if s == "no_straight_on"@ {
        Some(RestrictionKind::NoStraightOn)
    } else if s == "no_u_turn"@ {
        Some(RestrictionKind::NoUTurn)
    } else if s == "only_left_turn"@ {
        Some(RestrictionKind::OnlyLeftTurn)
    } else if s == "only_right_turn"@ {
        Some(RestrictionKind::OnlyRightTurn)
    } else if s == "only_straight_on"@ {
        Some(RestrictionKind::OnlyStraightOn)
    } else if s == "no_entry"@ {
        Some(RestrictionKind::NoEntry)
    } else {
        None
    }
}

/// The restriction that a tag value names.
pub fn parse_restriction_kind(s: &str) -> (r: Option<RestrictionKind>)
    ensures
        r == restriction_kind_of(s@),
{
    if text_eq(s, "no_left_turn") {
        Some(RestrictionKind::NoLeftTurn)
    } else if text_eq(s, "no_right_turn") {
        Some(RestrictionKind::NoRightTurn)
    } else if text_eq(s, "no_straight_on") {
        Some(RestrictionKind::NoStraightOn)
    } else if text_eq(s, "no_u_turn") {
        Some(RestrictionKind::NoUTurn)
    } else if text_eq(s, "only_left_turn") {
        Some(RestrictionKind::OnlyLeftTurn)
    } else if text_eq(s, "only_right_turn") {
        Some(RestrictionKind::OnlyRightTurn)
    } else if text_eq(s, "only_straight_on") {
        Some(RestrictionKind::OnlyStraightOn)
    } else if text_eq(s, "no_entry") {
        Some(RestrictionKind::NoEntry)
    } else {
        None
    }
}

/// The first member of a relation with the given role and kind.
pub open spec fn member_ref(members: Seq<OsmMember>, role: Seq<char>, kind: Seq<char>) -> Option<u64>
    decreases members.len(),
{
    if members.len() == 0 {
        None
    } else if members[0].role@ == role && members[0].member_type@ == kind {
        Some(members[0].ref_id)
    } else {
        member_ref(members.skip(1), role, kind)
    }
}

fn find_member(members: &Vec<OsmMember>, role: &str, kind: &str) -> (r: Option<u64>)
    ensures
        r == member_ref(members@, role@, kind@),
{
    let mut i: usize = 0;
    assert(members@.skip(0) =~= members@);
    while i < members.len()
        invariant
            i <= members.len(),
            member_ref(members@, role@, kind@) == member_ref(
                members@.skip(i as int),
                role@,
                kind@,
            ),
        decreases members.len() - i,
    {
        assert(members@.skip(i as int)[0] == members@[i as int]);
        assert(members@.skip(i as int).skip(1) =~= members@.skip(i + 1));
        if text_eq(members[i].role.as_str(), role) && text_eq(
            members[i].member_type.as_str(),
            kind,
        ) {
            return Some(members[i].ref_id);
        }
        i = i + 1;
    }
    None
}

/// The restriction that a relation states, where it is complete: a known kind with a way to
/// come from, a node to pass and a way to go to.
pub open spec fn restriction_of(rel: OsmRelation) -> Option<TurnRestriction> {
    let kind = match tag_value(rel.tags@, "restriction"@) {
        Some(s) => restriction_kind_of(s),
        None => None,
    };
    let from = member_ref(rel.members@, "from"@, "way"@);
    let via = member_ref(rel.members@, "via"@, "node"@);
    let to = member_ref(rel.members@, "to"@, "way"@);
    if kind is Some && from is Some && via is Some && to is Some {
        Some(
            TurnRestriction {
                from_way_id: from.unwrap(),
                via_node_id: via.unwrap(),
                to_way_id: to.unwrap(),
                kind: kind.unwrap(),
            },
        )
    } else {
        None
    }
}

fn read_restriction(rel: &OsmRelation) -> (r: Option<TurnRestriction>)
    ensures
        r == restriction_of(*rel),
{
    let kind: Option<RestrictionKind> = match tag_of(&rel.tags, "restriction") {
        Some(s) => parse_restriction_kind(s),
        None => None,
    };
    let from: Option<u64> = find_member(&rel.members, "from", "way");
    let via: Option<u64> = find_member(&rel.members, "via", "node");
    let to: Option<u64> = find_member(&rel.members, "to", "way");
    match (kind, from, via, to) {
        (Some(kind), Some(from_way_id), Some(via_node_id), Some(to_way_id)) => Some(
            TurnRestriction { from_way_id, via_node_id, to_way_id, kind },
        ),
        _ => None,
    }
}

/// The restrictions that the relations state, in their order.
pub open spec fn restrictions_of(relations: Seq<OsmRelation>) -> Seq<TurnRestriction>
    decreases relations.len(),
{
    if relations.len() == 0 {
        Seq::empty()
    } else {
        let before = restrictions_of(relations.drop_last());
        match restriction_of(relations.last()) {
            Some(r) => before.push(r),
            None => before,
        }
    }
}

/// The restrictions that the relations state, in their order.
pub fn build_turn_restrictions(relations: &Vec<OsmRelation>) -> (r: Vec<TurnRestriction>)
    ensures
        r@ == restrictions_of(relations@),
{
    let mut out: Vec<TurnRestriction> = Vec::new();
    let mut i: usize = 0;
    assert(relations@.take(0) =~= Seq::<OsmRelation>::empty());
    while i < relations.len()
        invariant
            i <= relations.len(),
            out@ == restrictions_of(relations@.take(i as int)),
        decreases relations.len() - i,
    {
        assert(relations@.take(i + 1).drop_last() =~= relations@.take(i as int));
        assert(relations@.take(i + 1).last() == relations@[i as int]);
        match read_restriction(&relations[i]) {
            Some(r) => {
                out.push(r);
            },
            None => {},
        }
        i = i + 1;
    }
    assert(relations@.take(i as int) =~= relations@);
    out
}

/// Turning a carriageway round twice gives back its lane directions.
pub proof fn law_reverse_twice(lanes: int)
    ensures
        lane_directions_of(lanes).reverse().reverse() == lane_directions_of(lanes),
{
    assert(lane_directions_of(lanes).reverse().reverse() =~= lane_directions_of(lanes));
}

/// Every segment has as many lane directions as lanes, and at least one.
pub proof fn law_one_direction_per_lane(lanes: int)
    requires
        lanes >= 0,
    ensures
        lane_directions_of(lanes).len() == crate::units::larger(lanes, 1),
        lane_directions_of(lanes).reverse().len() == crate::units::larger(lanes, 1),
{
}

/// A speed limit is the tagged number of kilometres in an hour, or of miles of 1.609 km, at least a metre
/// in a second: 18 times the limit is five times that number, but for rounding.
pub proof fn law_limit_in_km_per_hour(v: i64, highway: Option<Seq<char>>)
    requires
        3_600_000 <= v <= 1_000_000_000_000,
    ensures
        ({
            let kmh = max_speed_of(Some(v), false, highway);
            let mph = max_speed_of(Some(v), true, highway);
            &&& 18 * kmh <= 5 * v < 18 * (kmh + 1)
            &&& 18 * mph * 100_000 <= 5 * v * 160_934 < 18 * (mph + 1) * 100_000 + 500_000
        }),
        max_speed_of(Some(0), false, highway) == 1_000_000,
{
}

/// A tagged number of lanes is taken as it is, but held between one and eight.
pub proof fn law_tagged_lanes(n: nat, highway: Seq<char>)
    requires
        n <= 255,
    ensures
        ({
            let lanes = lanes_of(Some(crate::util::text::decimal_text(n)), highway);
            &&& 1 <= n <= 8 ==> lanes == n
            &&& n > 8 ==> lanes == 8
            &&& n == 0 ==> lanes == 1
        }),
{
    crate::util::text::lemma_decimal_round_trip(n);
}

/// Drivers choose their lane at a quarter, at half and at three quarters of a segment.
pub proof fn law_decision_points(length: int)
    requires
        0 <= length,
    ensures
        ({
            let p = decision_points_at(length);
            &&& 4 * p.0 <= length < 4 * p.0 + 4
            &&& 2 * p.1 <= length < 2 * p.1 + 2
            &&& 4 * p.2 <= 3 * length < 4 * p.2 + 4
            &&& p.0 <= p.1 <= p.2 <= length
        }),
{
}

/// Without tags the leftmost of several lanes turns left, the rightmost of three or more turns right, and
/// all others lead straight on.
pub proof fn law_usual_directions(lanes: int, i: int)
    requires
        0 <= i < lanes,
    ensures
        lane_directions_of(lanes)[i] == if lanes >= 2 && i == 0 {
            LaneDirection::Left
        } else if lanes >= 3 && i == lanes - 1 {
            LaneDirection::Right
        } else {
            LaneDirection::Straight
        },
{
}

/// The tag says whether a way is driven along its nodes, against them or both ways; without it a
/// roundabout and a motorway are driven along their nodes and any other way both ways.
pub proof fn law_direction_of_ways(tags: Map<Seq<char>, String>)
    ensures
        tag_value(tags, "oneway"@) == Some("yes"@) ==> oneway_of(tags) == 1,
        tag_value(tags, "oneway"@) == Some("true"@) ==> oneway_of(tags) == 1,
        tag_value(tags, "oneway"@) == Some("1"@) ==> oneway_of(tags) == 1,
        tag_value(tags, "oneway"@) == Some("-1"@) ==> oneway_of(tags) == -1,
        tag_value(tags, "oneway"@) == Some("reverse"@) ==> oneway_of(tags) == -1,
        tag_value(tags, "oneway"@) == Some("no"@) ==> oneway_of(tags) == 0,
        tag_value(tags, "oneway"@) is None && tag_value(tags, "junction"@) == Some("roundabout"@)
            ==> oneway_of(tags) == 1,
        tag_value(tags, "oneway"@) is None && tag_value(tags, "highway"@) == Some("motorway"@)
            ==> oneway_of(tags) == 1,
        tag_value(tags, "oneway"@) is None && tag_value(tags, "junction"@) is None && tag_value(
            tags,
            "highway"@,
        ) is None ==> oneway_of(tags) == 0,
{
    reveal_strlit("yes");
    reveal_strlit("true");
    reveal_strlit("1");
    reveal_strlit("-1");
    reveal_strlit("reverse");
    reveal_strlit("no");
    assert("yes"@.len() == 3 && "true"@.len() == 4 && "1"@.len() == 1 && "-1"@.len() == 2
        && "reverse"@.len() == 7 && "no"@.len() == 2);
    assert("-1"@[0] == '-' && "no"@[0] == 'n');
}

/// A relation states a restriction exactly when it names a known one, a way to come from, a node to
/// pass and a way to go to; the restriction is between these.
pub proof fn law_restrictions(rel: OsmRelation)
    ensures
        ({
            let from = member_ref(rel.members@, "from"@, "way"@);
            let via = member_ref(rel.members@, "via"@, "node"@);
            let to = member_ref(rel.members@, "to"@, "way"@);
            let kind = tag_value(rel.tags@, "restriction"@);
            let r = restriction_of(rel);
            &&& r is Some <==> kind is Some && restriction_kind_of(kind->Some_0) is Some && from
                is Some && via is Some && to is Some
            &&& r is Some ==> r->Some_0.from_way_id == from->Some_0 && r->Some_0.via_node_id
                == via->Some_0 && r->Some_0.to_way_id == to->Some_0 && restriction_kind_of(
                kind->Some_0,
            ) == Some(r->Some_0.kind)
        }),
{
}

/// A number tag ends at its first space.
pub proof fn law_first_word(s: Seq<char>)
    ensures
        first_word(s).len() <= s.len(),
        first_word(s) == s.take(first_word(s).len() as int),
        forall|i: int| 0 <= i < first_word(s).len() ==> !is_white(#[trigger] first_word(s)[i]),
        first_word(s).len() < s.len() ==> is_white(s[first_word(s).len() as int]),
    decreases s.len(),
{
    if s.len() > 0 && !is_white(s[0]) {
        let rest = s.skip(1);
        law_first_word(rest);
        let w = first_word(rest);
        assert(first_word(s) =~= s.take(w.len() as int + 1)) by {
            assert forall|i: int| 0 <= i < w.len() implies #[trigger] w[i] == s[i + 1] by {
                assert(w[i] == rest.take(w.len() as int)[i]);
            }
        }
        assert forall|i: int| 0 <= i < first_word(s).len() implies !is_white(
            #[trigger] first_word(s)[i],
        ) by {
            if i > 0 {
                assert(first_word(s)[i] == w[i - 1]);
            }
        }
        if w.len() < rest.len() {
            assert(rest[w.len() as int] == s[w.len() as int + 1]);
        }
    } else {
        assert(first_word(s) =~= s.take(0));
    }
}

/// Every restriction that a relation states is kept.
pub proof fn law_restrictions_complete(relations: Seq<OsmRelation>, i: int)
    requires
        0 <= i < relations.len(),
    ensures
        restriction_of(relations[i]) matches Some(r) ==> restrictions_of(relations).contains(r),
        restrictions_of(relations).len() <= relations.len(),
    decreases relations.len(),
{
    let front = relations.drop_last();
    let before = restrictions_of(front);
    let now = restrictions_of(relations);
    if i < front.len() {
        assert(front[i] == relations[i]);
        law_restrictions_complete(front, i);
        if restriction_of(relations[i]) is Some {
            let r = restriction_of(relations[i])->Some_0;
            let k = choose|k: int| 0 <= k < before.len() && before[k] == r;
            assert(now[k] == r);
        }
    } else {
        if front.len() > 0 {
            law_restrictions_complete(front, 0);
        }
        if restriction_of(relations[i]) is Some {
            assert(now[before.len() as int] == restriction_of(relations[i])->Some_0);
        }
    }
}

} // verus!
