//! Signals with several phases: opposing greens, clearance yellow, all red.

use std::collections::HashMap;
use vstd::prelude::*;

use crate::map::building_network::in_range;
use crate::map::map_data::MapData;
use crate::map::road_network::{LaneDirection, RoadNode};
use crate::state::LightControlMode;
use crate::traffic::traffic_light::{
    adaptive_green, mode_label, mode_text, LightPhase, LightStateUpdate, MIN_PHASE,
};
use crate::units::{floor_div, larger, max_of, saturate, saturated, smaller};

verus! {

/// The movements of arms that may move. The movements of four arms take sixteen bits: first those
/// straight on of each arm, next those to the left, to the right, and back. The mask of a movement of
/// an arm beyond the first ones is marked by the highest bit and holds the number of that one arm.
pub type MovementMask = u128;

/// How many arms have bits of their own.
pub const BLOCK_ARMS: u8 = 31;

/// The first bit of a movement.
pub open spec fn movement_group(mv: LaneDirection) -> u8 {
    match mv {
        LaneDirection::Straight => 0,
        LaneDirection::Left => 4,
        LaneDirection::Right => 8,
        LaneDirection::UTurn => 12,
    }
}

/// The number of the bit of a movement of one of the first arms.
pub open spec fn bit_number(arm: u8, mv: LaneDirection) -> u32 {
    (16 * (arm / 4) + movement_group(mv) + arm % 4) as u32
}

/// The bits of a movement of an arm.
pub open spec fn movement_bit(arm: u8, mv: LaneDirection) -> u128 {
    if arm < BLOCK_ARMS {
        1u128 << bit_number(arm, mv)
    } else {
        (1u128 << 127u32) | ((arm as u128) << 16u32) | (1u128 << (movement_group(mv) as u32))
    }
}

fn group_of(mv: LaneDirection) -> (r: u8)
    ensures
        r == movement_group(mv),
        r <= 12,
{
    match mv {
        LaneDirection::Straight => 0,
        LaneDirection::Left => 4,
        LaneDirection::Right => 8,
        LaneDirection::UTurn => 12,
    }
}

fn bit_for(arm: u8, mv: LaneDirection) -> (r: u128)
    ensures
        r == movement_bit(arm, mv),
{
    let group: u8 = group_of(mv);
    if arm < BLOCK_ARMS {
        1u128 << ((16 * (arm / 4) + group + arm % 4) as u32)
    } else {
        (1u128 << 127u32) | ((arm as u128) << 16u32) | (1u128 << (group as u32))
    }
}

/// The mask of some movements of one arm.
pub open spec fn combined(arm: u8, kinds: Seq<LaneDirection>) -> u128
    decreases kinds.len(),
{
    if kinds.len() == 0 {
        0
    } else {
        combined(arm, kinds.drop_last()) | movement_bit(arm, kinds.last())
    }
}

/// Whether a mask is about one arm beyond the first ones.
pub open spec fn is_lone(mask: u128) -> bool {
    mask & (1u128 << 127u32) != 0
}

/// Whether a mask allows a movement of an arm.
pub open spec fn allows(mask: u128, arm: u8, mv: LaneDirection) -> bool {
    if is_lone(mask) {
        arm >= BLOCK_ARMS && (mask >> 16u32) & 0xff == arm as u128 && mask & (1u128 << (
        movement_group(mv) as u32)) != 0
    } else {
        arm < BLOCK_ARMS && mask & movement_bit(arm, mv) != 0
    }
}

/// The mask of some movements of one arm.
pub fn combine_movements(arm: u8, kinds: &[LaneDirection]) -> (m: MovementMask)
    ensures
        m == combined(arm, kinds@),
{
    let mut m: u128 = 0;
    let mut i: usize = 0;
    assert(kinds@.take(0) =~= Seq::<LaneDirection>::empty());
    while i < kinds.len()
        invariant
            i <= kinds@.len(),
            m == combined(arm, kinds@.take(i as int)),
        decreases kinds.len() - i,
    {
        assert(kinds@.take(i + 1).drop_last() =~= kinds@.take(i as int));
        assert(kinds@.take(i + 1).last() == kinds@[i as int]);
        m = m | bit_for(arm, kinds[i]);
        i = i + 1;
    }
    assert(kinds@.take(i as int) =~= kinds@);
    m
}

/// Whether a mask allows a movement of an arm.
pub fn mask_allows(mask: MovementMask, arm: u8, mv: LaneDirection) -> (r: bool)
    ensures
        r == allows(mask, arm, mv),
{
    if mask & (1u128 << 127u32) != 0 {
        arm >= BLOCK_ARMS && (mask >> 16u32) & 0xff == arm as u128 && mask & (1u128 << (group_of(mv)
            as u32)) != 0
    } else {
        arm < BLOCK_ARMS && mask & bit_for(arm, mv) != 0
    }
}

/// A combined mask allows exactly the movements that it was made of, whatever the arms are.
pub proof fn law_mask_exact(arm: u8, kinds: Seq<LaneDirection>, other: u8, mv: LaneDirection)
    ensures
        allows(combined(arm, kinds), other, mv) <==> other == arm && kinds.contains(mv),
    decreases kinds.len(),
{
    if kinds.len() == 0 {
        lemma_nothing_allowed(other, mv);
    } else {
        let rest = kinds.drop_last();
        law_mask_exact(arm, rest, other, mv);
        lemma_mask_form(arm, kinds);
        let m = combined(arm, rest);
        let c = movement_bit(arm, kinds.last());
        if arm < BLOCK_ARMS {
            let b = movement_bit(other, mv);
            if rest.len() == 0 {
                assert(0u128 & b == 0) by (bit_vector);
            } else {
                lemma_mask_form(arm, rest);
            }
            lemma_or_allows(m, c, b);
            if other < BLOCK_ARMS {
                lemma_bits_meet(arm, kinds.last(), other, mv);
            }
        } else {
            let (g, h) = (movement_group(kinds.last()) as u32, movement_group(mv) as u32);
            let b = 1u128 << h;
            if rest.len() == 0 {
                assert(0u128 & b == 0) by (bit_vector);
            } else {
                lemma_mask_form(arm, rest);
            }
            lemma_or_allows(m, c, b);
            let a = arm as u128;
            assert(((1u128 << 127u32) | (a << 16u32) | (1u128 << g)) & (1u128 << h) != 0 <==> g
                == h) by (bit_vector)
                requires
                    g <= 12,
                    h <= 12,
                    a < 256,
            ;
        }
        if kinds.contains(mv) {
            let i = choose|i: int| 0 <= i < kinds.len() && kinds[i] == mv;
            if i < rest.len() {
                assert(rest[i] == mv);
            }
        }
        if rest.contains(mv) {
            let i = choose|i: int| 0 <= i < rest.len() && rest[i] == mv;
            assert(kinds[i] == mv);
        }
        assert(kinds[kinds.len() - 1] == kinds.last());
    }
}

/// No movement at all gives an empty mask, and two lists together give what both give.
pub proof fn law_mask_union(arm: u8, x: Seq<LaneDirection>, y: Seq<LaneDirection>)
    ensures
        combined(arm, Seq::empty()) == 0,
        combined(arm, x + y) == combined(arm, x) | combined(arm, y),
    decreases y.len(),
{
    let a = combined(arm, x);
    if y.len() == 0 {
        assert(x + y =~= x);
        assert(a | 0 == a) by (bit_vector);
    } else {
        let front = y.drop_last();
        law_mask_union(arm, x, front);
        assert((x + y).drop_last() =~= x + front);
        assert((x + y).last() == y.last());
        let b = combined(arm, front);
        let c = movement_bit(arm, y.last());
        assert((a | b) | c == a | (b | c)) by (bit_vector);
    }
}

/// It does not matter in which order and how often movements are given.
pub proof fn law_mask_of_movements(arm: u8, x: Seq<LaneDirection>, y: Seq<LaneDirection>)
    requires
        forall|mv: LaneDirection| x.contains(mv) <==> y.contains(mv),
    ensures
        combined(arm, x) == combined(arm, y),
{
    let (p, q) = (combined(arm, x), combined(arm, y));
    lemma_mask_within(arm, x, y);
    lemma_mask_within(arm, y, x);
    assert(p == q) by (bit_vector)
        requires
            p | q == q,
            q | p == p,
    ;
}

/// A list of movements that are all in another list adds nothing to the mask of that one.
proof fn lemma_mask_within(arm: u8, x: Seq<LaneDirection>, y: Seq<LaneDirection>)
    requires
        forall|mv: LaneDirection| x.contains(mv) ==> y.contains(mv),
    ensures
        combined(arm, x) | combined(arm, y) == combined(arm, y),
    decreases x.len(),
{
    let q = combined(arm, y);
    if x.len() == 0 {
        assert(0u128 | q == q) by (bit_vector);
    } else {
        let rest = x.drop_last();
        assert forall|mv: LaneDirection| rest.contains(mv) implies y.contains(mv) by {
            let i = choose|i: int| 0 <= i < rest.len() && rest[i] == mv;
            assert(x[i] == mv);
        }
        lemma_mask_within(arm, rest, y);
        assert(x[x.len() - 1] == x.last());
        lemma_bit_within(arm, y, x.last());
        let (p, c) = (combined(arm, rest), movement_bit(arm, x.last()));
        assert((p | c) | q == q) by (bit_vector)
            requires
                p | q == q,
                c | q == q,
        ;
    }
}

proof fn lemma_bit_within(arm: u8, y: Seq<LaneDirection>, mv: LaneDirection)
    requires
        y.contains(mv),
    ensures
        movement_bit(arm, mv) | combined(arm, y) == combined(arm, y),
    decreases y.len(),
{
    let front = y.drop_last();
    let (c, b, d) = (movement_bit(arm, mv), combined(arm, front), movement_bit(arm, y.last()));
    if y.last() == mv {
        assert(c | (b | c) == b | c) by (bit_vector);
    } else {
        let i = choose|i: int| 0 <= i < y.len() && y[i] == mv;
        assert(front[i] == mv);
        lemma_bit_within(arm, front, mv);
        assert(c | (b | d) == b | d) by (bit_vector)
            requires
                c | b == b,
        ;
    }
}

/// The mask of movements of an arm beyond the first ones is marked and holds its number; any other is
/// not marked.
proof fn lemma_mask_form(arm: u8, kinds: Seq<LaneDirection>)
    requires
        kinds.len() > 0,
    ensures
        is_lone(combined(arm, kinds)) == (arm >= BLOCK_ARMS),
        arm >= BLOCK_ARMS ==> (combined(arm, kinds) >> 16u32) & 0xff == arm as u128,
    decreases kinds.len(),
{
    let a = arm as u128;
    let rest = kinds.drop_last();
    let m = combined(arm, rest);
    let g = movement_group(kinds.last()) as u32;
    if rest.len() > 0 {
        lemma_mask_form(arm, rest);
    }
    if arm < BLOCK_ARMS {
        let t = bit_number(arm, kinds.last());
        assert(0u128 & (1u128 << 127u32) == 0) by (bit_vector);
        assert((m | (1u128 << t)) & (1u128 << 127u32) == 0) by (bit_vector)
            requires
                t < 127,
                m & (1u128 << 127u32) == 0,
        ;
    } else {
        let c = (1u128 << 127u32) | (a << 16u32) | (1u128 << g);
        assert((m | c) & (1u128 << 127u32) != 0 && ((m | c) >> 16u32) & 0xff == a) by (bit_vector)
            requires
                g <= 12,
                a < 256,
                c == (1u128 << 127u32) | (a << 16u32) | (1u128 << g),
                m == 0 || (m >> 16u32) & 0xff == a,
        ;
    }
}

proof fn lemma_or_allows(m: u128, c: u128, b: u128)
    ensures
        (m | c) & b != 0 <==> m & b != 0 || c & b != 0,
{
    assert((m | c) & b != 0 <==> m & b != 0 || c & b != 0) by (bit_vector);
}

proof fn lemma_bits_meet(arm: u8, k: LaneDirection, other: u8, mv: LaneDirection)
    requires
        arm < BLOCK_ARMS,
        other < BLOCK_ARMS,
    ensures
        movement_bit(arm, k) & movement_bit(other, mv) != 0 <==> arm == other && k == mv,
{
    let s = bit_number(arm, k);
    let t = bit_number(other, mv);
    assert((1u128 << s) & (1u128 << t) != 0 <==> s == t) by (bit_vector)
        requires
            s < 128,
            t < 128,
    ;
}

/// What a step of a signal program shows.
#[derive(Clone, Copy, Debug)]
pub enum ProgramStepKind {
    Go { allowed: MovementMask },
    Caution { allowed: MovementMask },
    AllRed,
}

/// A step of a signal program.
#[derive(Clone, Copy, Debug)]
pub struct TimedStep {
    pub kind: ProgramStepKind,
    pub duration: i64,
}

/// Green for some movements, yellow for the same, all red.
pub open spec fn stage(allowed: u128, green: i64, yellow: i64, red: i64) -> Seq<TimedStep> {
    seq![
        TimedStep { kind: ProgramStepKind::Go { allowed }, duration: green },
        TimedStep { kind: ProgramStepKind::Caution { allowed }, duration: yellow },
        TimedStep { kind: ProgramStepKind::AllRed, duration: red },
    ]
}

/// Straight on and right for two arms.
pub open spec fn through(a: u8, b: u8) -> u128 {
    combined(a, seq![LaneDirection::Straight, LaneDirection::Right]) | combined(
        b,
        seq![LaneDirection::Straight, LaneDirection::Right],
    )
}

/// Left for two arms.
pub open spec fn lefts(a: u8, b: u8) -> u128 {
    combined(a, seq![LaneDirection::Left]) | combined(b, seq![LaneDirection::Left])
}

/// All movements of an arm.
pub open spec fn every_movement() -> Seq<LaneDirection> {
    seq![
        LaneDirection::Straight,
        LaneDirection::Left,
        LaneDirection::Right,
        LaneDirection::UTurn,
    ]
}

/// The program of a crossing with four arms: each axis goes straight, and turns left after that.
pub open spec fn two_axis_program(
    straight: i64,
    left: i64,
    yellow: i64,
    red: i64,
) -> Seq<TimedStep> {
    stage(through(0, 2), straight, yellow, red) + stage(lefts(0, 2), left, yellow, red) + stage(
        through(1, 3),
        straight,
        yellow,
        red,
    ) + stage(lefts(1, 3), left, yellow, red)
}

/// The program that serves the arms one after the other.
pub open spec fn sequential_program(n: int, green: i64, yellow: i64, red: i64) -> Seq<TimedStep>
    decreases n,
{
    if n <= 0 {
        Seq::empty()
    } else {
        sequential_program(n - 1, green, yellow, red) + stage(
            combined((n - 1) as u8, every_movement()),
            green,
            yellow,
            red,
        )
    }
}

/// The program for a number of arms; a junction with fewer than two has none.
pub open spec fn program(n: int, straight: i64, left: i64, yellow: i64, red: i64) -> Seq<
    TimedStep,
> {
    if n == 4 {
        two_axis_program(straight, left, yellow, red)
    } else if n <= 1 {
        Seq::empty()
    } else {
        sequential_program(n, straight, yellow, red)
    }
}

fn push_stage(v: &mut Vec<TimedStep>, allowed: u128, green: i64, yellow: i64, red: i64)
    ensures
        final(v)@ == old(v)@ + stage(allowed, green, yellow, red),
{
    v.push(TimedStep { kind: ProgramStepKind::Go { allowed }, duration: green });
    v.push(TimedStep { kind: ProgramStepKind::Caution { allowed }, duration: yellow });
    v.push(TimedStep { kind: ProgramStepKind::AllRed, duration: red });
    assert(v@ =~= old(v)@ + stage(allowed, green, yellow, red));
}

fn pair_through(a: u8, b: u8) -> (m: u128)
    ensures
        m == through(a, b),
{
    let kinds = [LaneDirection::Straight, LaneDirection::Right];
    assert(kinds@ =~= seq![LaneDirection::Straight, LaneDirection::Right]);
    combine_movements(a, &kinds) | combine_movements(b, &kinds)
}

fn pair_left(a: u8, b: u8) -> (m: u128)
    ensures
        m == lefts(a, b),
{
    let kinds = [LaneDirection::Left];
    assert(kinds@ =~= seq![LaneDirection::Left]);
    combine_movements(a, &kinds) | combine_movements(b, &kinds)
}

fn build_four_arm_two_axis(straight: i64, left: i64, yellow: i64, red: i64) -> (r: Vec<TimedStep>)
    ensures
        r@ == two_axis_program(straight, left, yellow, red),
{
    let mut v: Vec<TimedStep> = Vec::new();
    push_stage(&mut v, pair_through(0, 2), straight, yellow, red);
    assert(v@ =~= stage(through(0, 2), straight, yellow, red));
    push_stage(&mut v, pair_left(0, 2), left, yellow, red);
    push_stage(&mut v, pair_through(1, 3), straight, yellow, red);
    push_stage(&mut v, pair_left(1, 3), left, yellow, red);
    v
}

fn build_sequential_arms(n: usize, green: i64, yellow: i64, red: i64) -> (r: Vec<TimedStep>)
    requires
        n <= MAX_ARMS,
    ensures
        r@ == sequential_program(n as int, green, yellow, red),
{
    let kinds = [
        LaneDirection::Straight,
        LaneDirection::Left,
        LaneDirection::Right,
        LaneDirection::UTurn,
    ];
    assert(kinds@ =~= every_movement());
    let mut v: Vec<TimedStep> = Vec::new();
    let mut arm: usize = 0;
    while arm < n
        invariant
            arm <= n <= MAX_ARMS,
            kinds@ == every_movement(),
            v@ == sequential_program(arm as int, green, yellow, red),
        decreases n - arm,
    {
        let m: u128 = combine_movements(arm as u8, &kinds);
        push_stage(&mut v, m, green, yellow, red);
        arm = arm + 1;
        assert((arm - 1) as u8 == arm - 1);
    }
    v
}

/// The largest number of arms that can be numbered.
pub const MAX_ARMS: usize = 256;

/// The program for a number of arms.
pub fn build_steps_for_layout(
    arm_count: usize,
    straight: i64,
    left: i64,
    yellow: i64,
    red: i64,
) -> (r: Vec<TimedStep>)
    requires
        arm_count <= MAX_ARMS,
    ensures
        r@ == program(arm_count as int, straight, left, yellow, red),
{
    if arm_count == 4 {
        build_four_arm_two_axis(straight, left, yellow, red)
    } else if arm_count <= 1 {
        Vec::new()
    } else {
        build_sequential_arms(arm_count, straight, yellow, red)
    }
}

/// How an edge heads into a junction: the differences in latitude and longitude.
pub open spec fn heading(map: MapData, e: int, junction: int) -> (int, int) {
    let s = map.nodes@[map.graph.ends()[e].0];
    let t = map.nodes@[junction];
    (t.lat - s.lat, t.lng - s.lng)
}

/// The part of the circle that a heading lies in: below the axis, on it forwards, above it, on it
/// backwards.
pub open spec fn sector(v: (int, int)) -> int {
    if v.1 < 0 {
        0
    } else if v.1 == 0 && v.0 >= 0 {
        1
    } else if v.1 > 0 {
        2
    } else {
        3
    }
}

/// The cross product of two headings: positive where the second lies ahead in the circle.
pub open spec fn cross(a: (int, int), b: (int, int)) -> int {
    a.0 * b.1 - a.1 * b.0
}

/// Whether the angle of `a` is less than that of `b`.
pub open spec fn bearing_less(a: (int, int), b: (int, int)) -> bool {
    sector(a) < sector(b) || sector(a) == sector(b) && (sector(a) == 0 || sector(a) == 2) && cross(
        a,
        b,
    ) > 0
}

/// A sorted list of arms with `e` behind all arms that it does not precede.
pub open spec fn arm_inserted(map: MapData, junction: int, arms: Seq<usize>, e: usize) -> Seq<usize>
    decreases arms.len(),
{
    if arms.len() > 0 && bearing_less(
        heading(map, e as int, junction),
        heading(map, arms.last() as int, junction),
    ) {
        arm_inserted(map, junction, arms.drop_last(), e).push(arms.last())
    } else {
        arms.push(e)
    }
}

/// Edges sorted by bearing; those with the same bearing keep their order.
pub open spec fn by_bearing(map: MapData, junction: int, edges: Seq<usize>) -> Seq<usize>
    decreases edges.len(),
{
    if edges.len() == 0 {
        Seq::empty()
    } else {
        arm_inserted(map, junction, by_bearing(map, junction, edges.drop_last()), edges.last())
    }
}

/// The edges that enter a junction, in walk order.
pub open spec fn inbound(map: MapData, junction: int) -> Seq<usize> {
    map.graph.in_edges(junction).map_values(|e: int| e as usize)
}

/// Every node lies within the range of coordinates.
pub open spec fn nodes_in_range(nodes: Seq<RoadNode>) -> bool {
    forall|i: int| 0 <= i < nodes.len() ==> in_range(((#[trigger] nodes[i]).lng, nodes[i].lat))
}

proof fn lemma_cross_fits(ax: int, ay: int, bx: int, by: int)
    requires
        -0x2000_0000_0000_0000 <= ax <= 0x2000_0000_0000_0000,
        -0x2000_0000_0000_0000 <= ay <= 0x2000_0000_0000_0000,
        -0x2000_0000_0000_0000 <= bx <= 0x2000_0000_0000_0000,
        -0x2000_0000_0000_0000 <= by <= 0x2000_0000_0000_0000,
    ensures
        -0x400_0000_0000_0000_0000_0000_0000_0000 <= ax * by
            <= 0x400_0000_0000_0000_0000_0000_0000_0000,
        -0x400_0000_0000_0000_0000_0000_0000_0000 <= ay * bx
            <= 0x400_0000_0000_0000_0000_0000_0000_0000,
{
    assert(-0x400_0000_0000_0000_0000_0000_0000_0000 <= ax * by
        <= 0x400_0000_0000_0000_0000_0000_0000_0000) by (nonlinear_arith)
        requires
            -0x2000_0000_0000_0000 <= ax <= 0x2000_0000_0000_0000,
            -0x2000_0000_0000_0000 <= by <= 0x2000_0000_0000_0000,
    ;
    assert(-0x400_0000_0000_0000_0000_0000_0000_0000 <= ay * bx
        <= 0x400_0000_0000_0000_0000_0000_0000_0000) by (nonlinear_arith)
        requires
            -0x2000_0000_0000_0000 <= ay <= 0x2000_0000_0000_0000,
            -0x2000_0000_0000_0000 <= bx <= 0x2000_0000_0000_0000,
    ;
}

fn sector_of(x: i128, y: i128) -> (r: u8)
    ensures
        r == sector((x as int, y as int)),
{
    if y < 0 {
        0
    } else if y == 0 && x >= 0 {
        1
    } else if y > 0 {
        2
    } else {
        3
    }
}

/// Whether edge `a` comes into the junction at a smaller bearing than edge `b`.
fn comes_before(map: &MapData, junction: usize, a: usize, b: usize) -> (r: bool)
    requires
        map.wf(),
        nodes_in_range(map.nodes@),
        junction < map.nodes@.len(),
        a < map.edges@.len(),
        b < map.edges@.len(),
    ensures
        r == bearing_less(
            heading(*map, a as int, junction as int),
            heading(*map, b as int, junction as int),
        ),
{
    proof {
        map.graph.lemma_wf();
    }
    match (map.graph.edge_endpoints(a), map.graph.edge_endpoints(b)) {
        (Some((sa, _)), Some((sb, _))) => {
            let t: RoadNode = map.nodes[junction];
            let p: RoadNode = map.nodes[sa];
            let q: RoadNode = map.nodes[sb];
            proof {
                assert(in_range((map.nodes@[junction as int].lng, map.nodes@[junction as int].lat)));
                assert(in_range((map.nodes@[sa as int].lng, map.nodes@[sa as int].lat)));
                assert(in_range((map.nodes@[sb as int].lng, map.nodes@[sb as int].lat)));
            }
            let ax: i128 = t.lat as i128 - p.lat as i128;
            let ay: i128 = t.lng as i128 - p.lng as i128;
            let bx: i128 = t.lat as i128 - q.lat as i128;
            let by: i128 = t.lng as i128 - q.lng as i128;
            let ca: u8 = sector_of(ax, ay);
            let cb: u8 = sector_of(bx, by);
            if ca != cb {
                return ca < cb;
            }
            if ca != 0 && ca != 2 {
                return false;
            }
            proof {
                lemma_cross_fits(ax as int, ay as int, bx as int, by as int);
            }
            ax * by - ay * bx > 0
        },
        _ => false,
    }
}

/// The arms of a junction.
#[derive(Clone)]
pub struct JunctionLayout {
    /// The edges into the junction, sorted by their bearing.
    pub arms: Vec<usize>,
    /// The arm of each of them.
    pub edge_to_arm: HashMap<usize, u8>,
}

impl JunctionLayout {
    /// The map gives each edge its place in the list, and every movement can be numbered.
    pub open spec fn wf(&self) -> bool {
        &&& self.arms@.len() <= MAX_ARMS
        &&& forall|e: usize| #[trigger]
            self.edge_to_arm@.contains_key(e) <==> self.arms@.contains(e)
        &&& forall|e: usize|
            self.edge_to_arm@.contains_key(e) ==> (#[trigger] self.edge_to_arm@[e])
                < self.arms@.len() && self.arms@[self.edge_to_arm@[e] as int] == e
    }

    /// The arm of an edge.
    pub open spec fn arm_of(&self, edge: usize) -> Option<u8> {
        if self.edge_to_arm@.contains_key(edge) {
            Some(self.edge_to_arm@[edge])
        } else {
            None
        }
    }

    /// The arms of a junction, where an edge enters it.
    pub fn build(map: &MapData, junction: usize) -> (r: Option<JunctionLayout>)
        requires
            map.wf(),
            nodes_in_range(map.nodes@),
            junction < map.nodes@.len(),
            map.graph.in_edges(junction as int).len() <= MAX_ARMS,
        ensures
            r is None <==> map.graph.in_edges(junction as int).len() == 0,
            r matches Some(l) ==> l.wf() && l.arms@ == by_bearing(
                *map,
                junction as int,
                inbound(*map, junction as int),
            ),
    {
        let edges: Vec<usize> = map.graph.incoming(junction);
        proof {
            map.graph.lemma_wf();
            map.graph.lemma_walks_distinct(junction as int);
            assert(edges@ =~= inbound(*map, junction as int));
            assert(edges@.no_duplicates());
        }
        if edges.len() == 0 {
            return None;
        }
        let arms: Vec<usize> = sort_by_bearing(map, junction, &edges);
        proof {
            lemma_by_bearing(*map, junction as int, edges@);
            lemma_same_items_distinct(edges@, arms@);
        }
        let edge_to_arm = number_arms(&arms);
        proof {
            assert forall|e: usize|
                edge_to_arm@.contains_key(e) implies (#[trigger] edge_to_arm@[e]) < arms@.len()
                && arms@[edge_to_arm@[e] as int] == e by {
                assert(arms@.contains(e));
            }
        }
        Some(JunctionLayout { arms, edge_to_arm })
    }

    /// The arm of an edge.
    pub fn arm_for_inbound_edge(&self, edge: usize) -> (r: Option<u8>)
        ensures
            r == self.arm_of(edge),
    {
        broadcast use vstd::std_specs::hash::group_hash_axioms;

        match self.edge_to_arm.get(&edge) {
            Some(a) => Some(*a),
            None => None,
        }
    }

    /// Number of arms.
    pub fn arm_count(&self) -> (r: usize)
        ensures
            r == self.arms@.len(),
    {
        self.arms.len()
    }
}

fn sort_by_bearing(map: &MapData, junction: usize, edges: &Vec<usize>) -> (arms: Vec<usize>)
    requires
        map.wf(),
        nodes_in_range(map.nodes@),
        junction < map.nodes@.len(),
        forall|i: int| 0 <= i < edges@.len() ==> #[trigger] edges@[i] < map.edges@.len(),
    ensures
        arms@ == by_bearing(*map, junction as int, edges@),
{
    let mut arms: Vec<usize> = Vec::new();
    let mut i: usize = 0;
    assert(edges@.take(0) =~= Seq::<usize>::empty());
    while i < edges.len()
        invariant
            i <= edges@.len(),
            map.wf(),
            nodes_in_range(map.nodes@),
            junction < map.nodes@.len(),
            forall|i: int| 0 <= i < edges@.len() ==> #[trigger] edges@[i] < map.edges@.len(),
            forall|i: int| 0 <= i < arms@.len() ==> #[trigger] arms@[i] < map.edges@.len(),
            arms@ == by_bearing(*map, junction as int, edges@.take(i as int)),
        decreases edges.len() - i,
    {
        assert(edges@.take(i + 1).drop_last() =~= edges@.take(i as int));
        assert(edges@.take(i + 1).last() == edges@[i as int]);
        let e: usize = edges[i];
        let ghost before = arms@;
        let ghost goal = arm_inserted(*map, junction as int, before, e);
        let mut p: usize = arms.len();
        assert(arms@.take(p as int) =~= arms@);
        assert(goal + arms@.skip(p as int) =~= goal);
        while p > 0 && comes_before(map, junction, e, arms[p - 1])
            invariant
                p <= arms@.len(),
                map.wf(),
                nodes_in_range(map.nodes@),
                junction < map.nodes@.len(),
                e < map.edges@.len(),
                arms@ == before,
                forall|i: int| 0 <= i < arms@.len() ==> #[trigger] arms@[i] < map.edges@.len(),
                goal == arm_inserted(*map, junction as int, arms@.take(p as int), e) + arms@.skip(
                    p as int,
                ),
            decreases p,
        {
            let ghost front = arms@.take(p as int);
            assert(front.last() == arms@[p - 1]);
            assert(front.drop_last() =~= arms@.take(p - 1));
            proof {
                let inner = arm_inserted(*map, junction as int, arms@.take(p - 1), e);
                assert(inner.push(arms@[p - 1]) + arms@.skip(p as int) =~= inner + arms@.skip(p - 1));
            }
            p = p - 1;
        }
        proof {
            let front = arms@.take(p as int);
            if p > 0 {
                assert(front.last() == arms@[p - 1]);
            }
            assert(goal =~= front.push(e) + arms@.skip(p as int));
            assert(arms@.insert(p as int, e) =~= front.push(e) + arms@.skip(p as int));
        }
        arms.insert(p, e);
        i = i + 1;
    }
    assert(edges@.take(i as int) =~= edges@);
    arms
}

fn number_arms(arms: &Vec<usize>) -> (r: HashMap<usize, u8>)
    requires
        arms@.len() <= MAX_ARMS,
        arms@.no_duplicates(),
    ensures
        forall|e: usize| #[trigger] r@.contains_key(e) <==> arms@.contains(e),
        forall|i: int| 0 <= i < arms@.len() ==> r@[#[trigger] arms@[i]] == i,
{
    broadcast use vstd::std_specs::hash::group_hash_axioms;

    let mut r: HashMap<usize, u8> = HashMap::new();
    let mut i: usize = 0;
    assert(arms@.take(0) =~= Seq::<usize>::empty());
    while i < arms.len()
        invariant
            i <= arms@.len() <= MAX_ARMS,
            arms@.no_duplicates(),
            forall|e: usize| #[trigger] r@.contains_key(e) <==> arms@.take(i as int).contains(e),
            forall|j: int| 0 <= j < i ==> r@[#[trigger] arms@[j]] == j,
        decreases arms.len() - i,
    {
        let ghost before = arms@.take(i as int);
        assert(arms@.take(i + 1) =~= before.push(arms@[i as int]));
        r.insert(arms[i], i as u8);
        proof {
            assert forall|e: usize| #[trigger] r@.contains_key(e) <==> arms@.take(i + 1).contains(
                e,
            ) by {
                let after = before.push(arms@[i as int]);
                if before.contains(e) {
                    let j = choose|j: int| 0 <= j < before.len() && before[j] == e;
                    assert(after[j] == e);
                }
                assert(after[i as int] == arms@[i as int]);
                if after.contains(e) && e != arms@[i as int] {
                    let j = choose|j: int| 0 <= j < after.len() && after[j] == e;
                    assert(before[j] == e);
                }
            }
        }
        i = i + 1;
    }
    assert(arms@.take(i as int) =~= arms@);
    r
}

/// Headings in one half of the circle are ordered by their cross products.
proof fn lemma_bearing_transitive(a: (int, int), b: (int, int), c: (int, int))
    requires
        !bearing_less(b, a),
        !bearing_less(c, b),
    ensures
        !bearing_less(c, a),
{
    if sector(a) == sector(c) && (sector(a) == 0 || sector(a) == 2) {
        let ab = cross(b, a);
        let bc = cross(c, b);
        let ac = cross(c, a);
        let ax = a.0;
        let ay = a.1;
        let bx = b.0;
        let by = b.1;
        let cx = c.0;
        let cy = c.1;
        assert(by * ac == cy * ab + ay * bc) by (nonlinear_arith)
            requires
                ab == bx * ay - by * ax,
                bc == cx * by - cy * bx,
                ac == cx * ay - cy * ax,
        ;
        if ay > 0 {
            assert(cy * ab <= 0) by (nonlinear_arith)
                requires
                    cy > 0,
                    ab <= 0,
            ;
            assert(ay * bc <= 0) by (nonlinear_arith)
                requires
                    ay > 0,
                    bc <= 0,
            ;
            assert(ac <= 0) by (nonlinear_arith)
                requires
                    by > 0,
                    by * ac <= 0,
            ;
        } else {
            assert(cy * ab >= 0) by (nonlinear_arith)
                requires
                    cy < 0,
                    ab <= 0,
            ;
            assert(ay * bc >= 0) by (nonlinear_arith)
                requires
                    ay < 0,
                    bc <= 0,
            ;
            assert(ac <= 0) by (nonlinear_arith)
                requires
                    by < 0,
                    by * ac >= 0,
            ;
        }
    }
}

proof fn lemma_arm_inserted(map: MapData, junction: int, arms: Seq<usize>, e: usize)
    ensures
        arm_inserted(map, junction, arms, e).to_multiset() == arms.push(e).to_multiset(),
        arm_inserted(map, junction, arms, e).len() == arms.len() + 1,
    decreases arms.len(),
{
    broadcast use vstd::seq_lib::group_to_multiset_ensures;

    if arms.len() > 0 && bearing_less(
        heading(map, e as int, junction),
        heading(map, arms.last() as int, junction),
    ) {
        let rest = arms.drop_last();
        lemma_arm_inserted(map, junction, rest, e);
        assert(arms =~= rest.push(arms.last()));
        assert(rest.push(e).push(arms.last()).to_multiset() =~= rest.push(arms.last()).push(
            e,
        ).to_multiset());
    }
}

proof fn lemma_by_bearing(map: MapData, junction: int, edges: Seq<usize>)
    ensures
        by_bearing(map, junction, edges).to_multiset() == edges.to_multiset(),
        by_bearing(map, junction, edges).len() == edges.len(),
    decreases edges.len(),
{
    broadcast use vstd::seq_lib::group_to_multiset_ensures;

    if edges.len() > 0 {
        let rest = edges.drop_last();
        lemma_by_bearing(map, junction, rest);
        lemma_arm_inserted(map, junction, by_bearing(map, junction, rest), edges.last());
        assert(edges =~= rest.push(edges.last()));
    }
}

proof fn lemma_same_items_distinct(a: Seq<usize>, b: Seq<usize>)
    requires
        a.no_duplicates(),
        a.to_multiset() == b.to_multiset(),
    ensures
        b.no_duplicates(),
        forall|e: usize| a.contains(e) <==> b.contains(e),
{
    broadcast use vstd::seq_lib::group_to_multiset_ensures;

    a.lemma_multiset_has_no_duplicates();
    b.lemma_multiset_has_no_duplicates_conv();
    assert forall|e: usize| a.contains(e) <==> b.contains(e) by {
        vstd::seq_lib::to_multiset_contains(a, e);
        vstd::seq_lib::to_multiset_contains(b, e);
    }
}

/// No arm comes before one with a smaller bearing.
pub open spec fn sorted_by_bearing(map: MapData, junction: int, arms: Seq<usize>) -> bool {
    forall|i: int, j: int|
        0 <= i < j < arms.len() ==> !bearing_less(
            heading(map, #[trigger] arms[j] as int, junction),
            heading(map, #[trigger] arms[i] as int, junction),
        )
}

proof fn lemma_insert_sorted(map: MapData, junction: int, arms: Seq<usize>, e: usize)
    requires
        sorted_by_bearing(map, junction, arms),
    ensures
        sorted_by_bearing(map, junction, arm_inserted(map, junction, arms, e)),
        forall|i: int|
            0 <= i < arm_inserted(map, junction, arms, e).len() ==> {
                let x = #[trigger] arm_inserted(map, junction, arms, e)[i];
                x == e || arms.contains(x)
            },
    decreases arms.len(),
{
    let r = arm_inserted(map, junction, arms, e);
    let he = heading(map, e as int, junction);
    if arms.len() > 0 {
        let last = arms.last();
        let hl = heading(map, last as int, junction);
        if bearing_less(he, hl) {
            let rest = arms.drop_last();
            lemma_insert_sorted(map, junction, rest, e);
            let inner = arm_inserted(map, junction, rest, e);
            assert(r == inner.push(last));
            assert(last == arms[arms.len() - 1]);
            assert forall|i: int, j: int| 0 <= i < j < r.len() implies !bearing_less(
                heading(map, #[trigger] r[j] as int, junction),
                heading(map, #[trigger] r[i] as int, junction),
            ) by {
                if j == r.len() - 1 {
                    assert(r[i] == inner[i]);
                    if inner[i] != e {
                        let k = choose|k: int| 0 <= k < rest.len() && rest[k] == inner[i];
                        assert(arms[k] == inner[i]);
                    } else {
                        lemma_less_not_back(he, hl);
                    }
                } else {
                    assert(r[i] == inner[i] && r[j] == inner[j]);
                }
            }
            assert forall|i: int| 0 <= i < r.len() implies #[trigger] r[i] == e || arms.contains(
                r[i],
            ) by {
                if i < inner.len() {
                    assert(r[i] == inner[i]);
                    if inner[i] != e {
                        let k = choose|k: int| 0 <= k < rest.len() && rest[k] == inner[i];
                        assert(arms[k] == inner[i]);
                    }
                }
            }
        } else {
            assert(last == arms[arms.len() - 1]);
            assert forall|i: int, j: int| 0 <= i < j < r.len() implies !bearing_less(
                heading(map, #[trigger] r[j] as int, junction),
                heading(map, #[trigger] r[i] as int, junction),
            ) by {
                if j == r.len() - 1 {
                    let hi = heading(map, arms[i] as int, junction);
                    if i < arms.len() - 1 {
                        lemma_bearing_transitive(hi, hl, he);
                    }
                } else {
                    assert(r[i] == arms[i] && r[j] == arms[j]);
                }
            }
            assert forall|i: int| 0 <= i < r.len() implies #[trigger] r[i] == e || arms.contains(
                r[i],
            ) by {
                if i < arms.len() {
                    assert(arms[i] == r[i]);
                }
            }
        }
    }
}

proof fn lemma_less_not_back(a: (int, int), b: (int, int))
    requires
        bearing_less(a, b),
    ensures
        !bearing_less(b, a),
{
    let ax = a.0;
    let ay = a.1;
    let bx = b.0;
    let by = b.1;
    assert(ax * by - ay * bx == -(bx * ay - by * ax)) by (nonlinear_arith);
}

/// The arms of a junction are the edges into it, each once, in the order of their bearings.
pub proof fn law_arms_sorted(map: MapData, junction: int, edges: Seq<usize>)
    ensures
        by_bearing(map, junction, edges).to_multiset() == edges.to_multiset(),
        sorted_by_bearing(map, junction, by_bearing(map, junction, edges)),
    decreases edges.len(),
{
    lemma_by_bearing(map, junction, edges);
    if edges.len() > 0 {
        law_arms_sorted(map, junction, edges.drop_last());
        lemma_insert_sorted(
            map,
            junction,
            by_bearing(map, junction, edges.drop_last()),
            edges.last(),
        );
    }
}

/// The side of a junction that an arm comes from.
#[derive(Clone, Copy, Debug, PartialEq, Eq, Structural)]
pub enum Compass {
    North,
    South,
    East,
    West,
}

/// The side on which `s` lies of `j`.
pub open spec fn compass_side(s: RoadNode, j: RoadNode) -> Compass {
    let dlat = s.lat - j.lat;
    let dlng = s.lng - j.lng;
    let far_lat = if dlat >= 0 {
        dlat
    } else {
        -dlat
    };
    let far_lng = if dlng >= 0 {
        dlng
    } else {
        -dlng
    };
    if far_lat >= far_lng {
        if dlat >= 0 {
            Compass::North
        } else {
            Compass::South
        }
    } else if dlng >= 0 {
        Compass::East
    } else {
        Compass::West
    }
}

/// The sides that some edges come from, where all of them enter the junction.
pub open spec fn arm_sides(map: MapData, junction: int, arms: Seq<usize>) -> Option<Seq<Compass>>
    decreases arms.len(),
{
    if arms.len() == 0 {
        Some(Seq::empty())
    } else {
        let e = arms.last() as int;
        match arm_sides(map, junction, arms.drop_last()) {
            Some(rest) => if e < map.edges@.len() && map.graph.ends()[e].1 == junction {
                Some(
                    rest.push(
                        compass_side(map.nodes@[map.graph.ends()[e].0], map.nodes@[junction]),
                    ),
                )
            } else {
                None
            },
            None => None,
        }
    }
}

/// The last arm on a side.
pub open spec fn arm_on(sides: Seq<Compass>, c: Compass) -> Option<u8>
    decreases sides.len(),
{
    if sides.len() == 0 {
        None
    } else if sides.last() == c {
        Some((sides.len() - 1) as u8)
    } else {
        arm_on(sides.drop_last(), c)
    }
}

/// North and south, east and west of a crossing with one arm on each side.
pub open spec fn plus_pairs(map: MapData, junction: int, arms: Seq<usize>) -> Option<
    ((u8, u8), (u8, u8)),
> {
    if arms.len() != 4 {
        None
    } else {
        match arm_sides(map, junction, arms) {
            Some(sides) => match (
                arm_on(sides, Compass::North),
                arm_on(sides, Compass::South),
                arm_on(sides, Compass::East),
                arm_on(sides, Compass::West),
            ) {
                (Some(n), Some(s), Some(e), Some(w)) => Some(((n, s), (e, w))),
                _ => None,
            },
            None => None,
        }
    }
}

fn side_of(s: &RoadNode, j: &RoadNode) -> (r: Compass)
    ensures
        r == compass_side(*s, *j),
{
    let dlat: i128 = s.lat as i128 - j.lat as i128;
    let dlng: i128 = s.lng as i128 - j.lng as i128;
    let far_lat: i128 = if dlat >= 0 {
        dlat
    } else {
        -dlat
    };
    let far_lng: i128 = if dlng >= 0 {
        dlng
    } else {
        -dlng
    };
    if far_lat >= far_lng {
        if dlat >= 0 {
            Compass::North
        } else {
            Compass::South
        }
    } else if dlng >= 0 {
        Compass::East
    } else {
        Compass::West
    }
}

fn find_arm_on(sides: &Vec<Compass>, c: Compass) -> (r: Option<u8>)
    requires
        sides@.len() == 4,
    ensures
        r == arm_on(sides@, c),
        r matches Some(a) ==> a < 4,
{
    let mut i: usize = 4;
    assert(sides@.take(4) =~= sides@);
    while i > 0
        invariant
            i <= 4,
            sides@.len() == 4,
            arm_on(sides@, c) == arm_on(sides@.take(i as int), c),
        decreases i,
    {
        assert(sides@.take(i as int).last() == sides@[i - 1]);
        assert(sides@.take(i as int).drop_last() =~= sides@.take(i - 1));
        if sides[i - 1] == c {
            return Some((i - 1) as u8);
        }
        i = i - 1;
    }
    None
}

/// The opposite arms of a crossing with one arm on each side.
fn classify_plus_cross_arm_pairs(map: &MapData, layout: &JunctionLayout, junction: usize) -> (r:
    Option<((u8, u8), (u8, u8))>)
    requires
        map.wf(),
        junction < map.nodes@.len(),
    ensures
        r == plus_pairs(*map, junction as int, layout.arms@),
        r matches Some(p) ==> pairs_known(p),
{
    if layout.arm_count() != 4 {
        return None;
    }
    let ghost arms = layout.arms@;
    let mut sides: Vec<Compass> = Vec::new();
    let mut i: usize = 0;
    proof {
        map.graph.lemma_wf();
        assert(arms.take(0) =~= Seq::<usize>::empty());
    }
    while i < 4
        invariant
            i <= 4,
            map.wf(),
            junction < map.nodes@.len(),
            layout.arms@ == arms,
            arms.len() == 4,
            sides@.len() == i,
            arm_sides(*map, junction as int, arms.take(i as int)) == Some(sides@),
        decreases 4 - i,
    {
        assert(arms.take(i + 1).drop_last() =~= arms.take(i as int));
        assert(arms.take(i + 1).last() == arms[i as int]);
        proof {
            map.graph.lemma_wf();
        }
        let known: Option<usize> = match map.graph.edge_endpoints(layout.arms[i]) {
            Some((src, tgt)) => if tgt == junction {
                Some(src)
            } else {
                None
            },
            None => None,
        };
        match known {
            Some(src) => {
                sides.push(side_of(&map.nodes[src], &map.nodes[junction]));
            },
            None => {
                proof {
                    lemma_sides_missing(*map, junction as int, arms, i + 1);
                }
                return None;
            },
        }
        i = i + 1;
    }
    assert(arms.take(4) =~= arms);
    match (
        find_arm_on(&sides, Compass::North),
        find_arm_on(&sides, Compass::South),
        find_arm_on(&sides, Compass::East),
        find_arm_on(&sides, Compass::West),
    ) {
        (Some(n), Some(s), Some(e), Some(w)) => Some(((n, s), (e, w))),
        _ => None,
    }
}

proof fn lemma_sides_missing(map: MapData, junction: int, arms: Seq<usize>, k: int)
    requires
        0 <= k <= arms.len(),
        arm_sides(map, junction, arms.take(k)) is None,
    ensures
        arm_sides(map, junction, arms) is None,
    decreases arms.len(),
{
    if k < arms.len() {
        assert(arms.drop_last().take(k) =~= arms.take(k));
        lemma_sides_missing(map, junction, arms.drop_last(), k);
    } else {
        assert(arms.take(k) =~= arms);
    }
}

/// Whether the pairs name arms of a crossing with four arms.
pub open spec fn pairs_known(p: ((u8, u8), (u8, u8))) -> bool {
    p.0.0 < 4 && p.0.1 < 4 && p.1.0 < 4 && p.1.1 < 4
}

/// The program of a crossing that switches between two axes by hand.
pub open spec fn cross_program(pairs: ((u8, u8), (u8, u8)), green: i64) -> Seq<TimedStep> {
    let duration = larger(green as int, MIN_PHASE as int) as i64;
    seq![
        TimedStep {
            kind: ProgramStepKind::Go { allowed: through(pairs.0.0, pairs.0.1) },
            duration,
        },
        TimedStep {
            kind: ProgramStepKind::Go { allowed: through(pairs.1.0, pairs.1.1) },
            duration,
        },
    ]
}

fn build_cross_program(pairs: ((u8, u8), (u8, u8)), green: i64) -> (r: Vec<TimedStep>)
    requires
        pairs_known(pairs),
    ensures
        r@ == cross_program(pairs, green),
{
    let duration: i64 = max_of(green, MIN_PHASE);
    let mut v: Vec<TimedStep> = Vec::new();
    v.push(
        TimedStep {
            kind: ProgramStepKind::Go { allowed: pair_through(pairs.0.0, pairs.0.1) },
            duration,
        },
    );
    v.push(
        TimedStep {
            kind: ProgramStepKind::Go { allowed: pair_through(pairs.1.0, pairs.1.1) },
            duration,
        },
    );
    assert(v@ =~= cross_program(pairs, green));
    v
}

/// The time that a program takes.
pub open spec fn cycle_length(steps: Seq<TimedStep>) -> int
    decreases steps.len(),
{
    if steps.len() == 0 {
        0
    } else {
        cycle_length(steps.drop_last()) + steps.last().duration
    }
}

/// The step that runs, and for how long it has, `t` after the start of step `i`.
pub open spec fn step_at(steps: Seq<TimedStep>, i: int, t: int) -> (int, int)
    decreases steps.len() - i,
{
    if i >= steps.len() {
        (0, 0)
    } else if t < steps[i].duration {
        (i, t)
    } else {
        step_at(steps, i + 1, t - steps[i].duration)
    }
}

/// A number drawn from a junction id.
pub open spec fn stagger_seed(id: u64) -> u64 {
    id.wrapping_mul(6364136223846793005).wrapping_add(1442695040888963407)
}

/// Where in its program a signal starts: at a part of the cycle that its id decides.
pub open spec fn stagger(steps: Seq<TimedStep>, id: u64) -> (int, int) {
    let cycle = cycle_length(steps);
    if cycle < 10_000 {
        (0, 0)
    } else {
        step_at(steps, 0, (stagger_seed(id) % 1_000_000) * cycle / 1_000_000)
    }
}

proof fn lemma_cycle_bounds(steps: Seq<TimedStep>)
    ensures
        i64::MIN * steps.len() <= cycle_length(steps) <= i64::MAX * steps.len(),
    decreases steps.len(),
{
    if steps.len() > 0 {
        lemma_cycle_bounds(steps.drop_last());
        let n = steps.len() as int;
        assert(i64::MIN * n == i64::MIN * (n - 1) + i64::MIN) by (nonlinear_arith);
        assert(i64::MAX * n == i64::MAX * (n - 1) + i64::MAX) by (nonlinear_arith);
    }
}

fn stagger_start(steps: &Vec<TimedStep>, intersection_id: u64) -> (r: (usize, i64))
    requires
        steps@.len() <= 3 * MAX_ARMS,
    ensures
        (r.0 as int, r.1 as int) == stagger(steps@, intersection_id),
        r.0 < steps@.len() || r.0 == 0,
        r.1 >= 0,
{
    let n: usize = steps.len();
    let mut cycle: i128 = 0;
    let mut i: usize = 0;
    assert(steps@.take(0) =~= Seq::<TimedStep>::empty());
    while i < n
        invariant
            i <= n <= 3 * MAX_ARMS,
            n == steps@.len(),
            cycle == cycle_length(steps@.take(i as int)),
        decreases n - i,
    {
        assert(steps@.take(i + 1).drop_last() =~= steps@.take(i as int));
        assert(steps@.take(i + 1).last() == steps@[i as int]);
        proof {
            lemma_cycle_bounds(steps@.take(i as int));
        }
        cycle = cycle + steps[i].duration as i128;
        i = i + 1;
    }
    assert(steps@.take(n as int) =~= steps@);
    proof {
        lemma_cycle_bounds(steps@);
    }
    if cycle < 10_000 {
        return (0, 0);
    }
    let seed: u64 = intersection_id.wrapping_mul(6364136223846793005).wrapping_add(
        1442695040888963407,
    );
    let part: i128 = (seed % 1_000_000) as i128;
    assert(0 <= part * cycle <= 1_000_000 * cycle) by (nonlinear_arith)
        requires
            0 <= part <= 1_000_000,
            0 <= cycle,
    ;
    let mut t: i128 = part * cycle / 1_000_000;
    i = 0;
    let ghost goal = stagger(steps@, intersection_id);
    while i < n
        invariant
            i <= n,
            n == steps@.len() <= 3 * MAX_ARMS,
            0 <= t <= 0x8000_0000_0000_0000 * (1_000 + i),
            goal == stagger(steps@, intersection_id),
            goal == step_at(steps@, i as int, t as int),
        decreases n - i,
    {
        let d: i64 = steps[i].duration;
        if t < d as i128 {
            return (i, t as i64);
        }
        t = t - d as i128;
        i = i + 1;
    }
    (0, 0)
}

/// The step and the time spent in it, `dt` after step `i` has run for `timer`. The steps last
/// `lengths` in turn; differences of one microsecond do not count.
pub open spec fn run_program(lengths: Seq<int>, i: int, timer: int, dt: int) -> (int, int)
    decreases
            dt,
            (if timer != 0 {
                1int
            } else {
                0int
            }),
            steps_to_positive(lengths, i),
        when 0 <= i < lengths.len() && dt > 0 && has_positive(lengths)
{
    let left = larger(lengths[i] - timer, 0);
    let next = if i + 1 == lengths.len() {
        0
    } else {
        i + 1
    };
    if left > dt + 1 {
        (i, timer + dt)
    } else if dt - left <= 1 {
        (next, 0)
    } else {
        proof {
            let p = first_positive(lengths);
            assert(0 <= p < lengths.len() && lengths[p] > 0);
        }
        run_program(lengths, next, 0, dt - left)
    }
}

/// Whether some step takes time.
pub open spec fn has_positive(lengths: Seq<int>) -> bool {
    exists|p: int| 0 <= p < lengths.len() && #[trigger] lengths[p] > 0
}

/// A step that takes time.
pub open spec fn first_positive(lengths: Seq<int>) -> int {
    choose|p: int| 0 <= p < lengths.len() && #[trigger] lengths[p] > 0
}

/// How many steps come before a step that takes time.
pub open spec fn steps_to_positive(lengths: Seq<int>, i: int) -> int {
    let p = first_positive(lengths);
    if i <= p {
        p - i
    } else {
        p + lengths.len() - i
    }
}

/// A signal that runs a program of steps.
pub struct PhasedVehicleLight {
    pub intersection_id: u64,
    pub layout: JunctionLayout,
    pub mode: LightControlMode,
    pub queue_count: u32,
    pub steps: Vec<TimedStep>,
    pub step_index: usize,
    /// Time spent in the current step.
    pub timer: i64,
    pub yellow_duration: i64,
    pub all_red_duration: i64,
    pub green_straight: i64,
    pub green_left: i64,
    /// Opposite arms, where the signal switches between two axes by hand.
    pub simple_cross_arm_pairs: Option<((u8, u8), (u8, u8))>,
}

impl PhasedVehicleLight {
    /// The arms are numbered and the current step exists.
    pub open spec fn wf(&self) -> bool {
        &&& self.layout.wf()
        &&& self.step_index < self.steps@.len() || self.step_index == 0
        &&& (self.simple_cross_arm_pairs matches Some(p) ==> pairs_known(p))
    }

    /// The program for the arms and the set lengths.
    pub open spec fn own_program(&self) -> Seq<TimedStep> {
        match self.simple_cross_arm_pairs {
            Some(p) => cross_program(p, self.green_straight),
            None => program(
                self.layout.arms@.len() as int,
                self.green_straight,
                self.green_left,
                self.yellow_duration,
                self.all_red_duration,
            ),
        }
    }

    /// How long a step lasts: in the adaptive mode green is drawn out by the queue, up to three
    /// times its set length.
    pub open spec fn step_length(&self, i: int) -> int {
        let step = self.steps@[i];
        if self.mode == LightControlMode::Adaptive && step.kind is Go {
            saturated(step.duration * adaptive_green(self.queue_count) / 20_000_000)
        } else {
            step.duration as int
        }
    }

    /// How long each step lasts.
    pub open spec fn step_lengths(&self) -> Seq<int> {
        Seq::new(self.steps@.len(), |i: int| self.step_length(i))
    }

    /// Everything but the current step and its timer is as in `other`.
    pub open spec fn same_but_place(&self, other: &PhasedVehicleLight) -> bool {
        &&& self.intersection_id == other.intersection_id
        &&& self.layout == other.layout
        &&& self.mode == other.mode
        &&& self.queue_count == other.queue_count
        &&& self.steps@ == other.steps@
        &&& self.yellow_duration == other.yellow_duration
        &&& self.all_red_duration == other.all_red_duration
        &&& self.green_straight == other.green_straight
        &&& self.green_left == other.green_left
        &&& self.simple_cross_arm_pairs == other.simple_cross_arm_pairs
    }

    /// The defaults: no vehicle waits; 10 s straight, 8 s left, 3 s yellow, 2.5 s all red.
    pub open spec fn starts_at(&self, intersection_id: u64, layout: JunctionLayout) -> bool {
        &&& self.intersection_id == intersection_id
        &&& self.layout == layout
        &&& self.queue_count == 0
        &&& self.green_straight == 10_000_000
        &&& self.green_left == 8_000_000
        &&& self.yellow_duration == 3_000_000
        &&& self.all_red_duration == 2_500_000
        &&& self.steps@ == self.own_program()
    }

    /// A signal on the program for its arms, started at a time that its id decides.
    pub fn new(intersection_id: u64, layout: JunctionLayout) -> (r: PhasedVehicleLight)
        requires
            layout.wf(),
        ensures
            r.wf(),
            r.starts_at(intersection_id, layout),
            r.simple_cross_arm_pairs is None,
            r.mode == LightControlMode::Auto,
            (r.step_index as int, r.timer as int) == stagger(r.steps@, intersection_id),
            r.timer >= 0,
    {
        let steps: Vec<TimedStep> = build_steps_for_layout(
            layout.arm_count(),
            10_000_000,
            8_000_000,
            3_000_000,
            2_500_000,
        );
        proof {
            lemma_program_len(
                layout.arms@.len() as int,
                10_000_000,
                8_000_000,
                3_000_000,
                2_500_000,
            );
        }
        let (step_index, timer) = stagger_start(&steps, intersection_id);
        PhasedVehicleLight {
            intersection_id,
            layout,
            mode: LightControlMode::Auto,
            queue_count: 0,
            steps,
            step_index,
            timer,
            yellow_duration: 3_000_000,
            all_red_duration: 2_500_000,
            green_straight: 10_000_000,
            green_left: 8_000_000,
            simple_cross_arm_pairs: None,
        }
    }

    /// A signal for the test crossing: with one arm on each side it switches between two axes
    /// by hand, else it runs the program for its arms.
    pub fn new_simple_cross(
        intersection_id: u64,
        layout: JunctionLayout,
        map: &MapData,
        junction: usize,
    ) -> (r: PhasedVehicleLight)
        requires
            layout.wf(),
            map.wf(),
            junction < map.nodes@.len(),
        ensures
            r.wf(),
            r.starts_at(intersection_id, layout),
            r.simple_cross_arm_pairs == plus_pairs(*map, junction as int, layout.arms@),
            r.simple_cross_arm_pairs is Some ==> r.mode == LightControlMode::Manual && r.step_index == 0
                && r.timer == 0,
            r.simple_cross_arm_pairs is None ==> r.mode == LightControlMode::Auto && (
                r.step_index as int,
                r.timer as int,
            ) == stagger(r.steps@, intersection_id),
            r.timer >= 0,
    {
        match classify_plus_cross_arm_pairs(map, &layout, junction) {
            Some(pairs) => {
                let mut light = PhasedVehicleLight::new(intersection_id, layout);
                light.simple_cross_arm_pairs = Some(pairs);
                light.steps = build_cross_program(pairs, light.green_straight);
                light.mode = LightControlMode::Manual;
                light.step_index = 0;
                light.timer = 0;
                light
            },
            None => PhasedVehicleLight::new(intersection_id, layout),
        }
    }

    /// Builds the program for the set lengths anew; the current step stays, or becomes the last.
    pub fn rebuild_steps(&mut self)
        requires
            old(self).wf(),
        ensures
            final(self).wf(),
            final(self).steps@ == old(self).own_program(),
            final(self).intersection_id == old(self).intersection_id,
            final(self).layout == old(self).layout,
            final(self).mode == old(self).mode,
            final(self).queue_count == old(self).queue_count,
            final(self).yellow_duration == old(self).yellow_duration,
            final(self).all_red_duration == old(self).all_red_duration,
            final(self).green_straight == old(self).green_straight,
            final(self).green_left == old(self).green_left,
            final(self).simple_cross_arm_pairs == old(self).simple_cross_arm_pairs,
            old(self).own_program().len() == 0 ==> final(self).step_index == 0 && final(self).timer
                == 0,
            old(self).own_program().len() > 0 ==> final(self).step_index == smaller(
                old(self).step_index as int,
                old(self).own_program().len() - 1,
            ) && final(self).timer == old(self).timer,
    {
        match self.simple_cross_arm_pairs {
            Some(p) => {
                self.steps = build_cross_program(p, self.green_straight);
            },
            None => {
                self.steps = build_steps_for_layout(
                    self.layout.arm_count(),
                    self.green_straight,
                    self.green_left,
                    self.yellow_duration,
                    self.all_red_duration,
                );
            },
        }
        let n: usize = self.steps.len();
        if n == 0 {
            self.step_index = 0;
            self.timer = 0;
        } else if self.step_index > n - 1 {
            self.step_index = n - 1;
        }
    }

    /// Sets the greens for going straight and turning left, each at least 5 s.
    pub fn set_durations(&mut self, green_main: i64, secondary: i64)
        requires
            old(self).wf(),
        ensures
            final(self).wf(),
            final(self).green_straight == larger(green_main as int, MIN_PHASE as int),
            final(self).green_left == larger(secondary as int, MIN_PHASE as int),
            final(self).steps@ == final(self).own_program(),
            final(self).intersection_id == old(self).intersection_id,
            final(self).layout == old(self).layout,
            final(self).mode == old(self).mode,
            final(self).queue_count == old(self).queue_count,
            final(self).yellow_duration == old(self).yellow_duration,
            final(self).all_red_duration == old(self).all_red_duration,
            final(self).simple_cross_arm_pairs == old(self).simple_cross_arm_pairs,
            final(self).steps@.len() == 0 ==> final(self).step_index == 0 && final(self).timer == 0,
            final(self).steps@.len() > 0 ==> final(self).step_index == smaller(
                old(self).step_index as int,
                final(self).steps@.len() - 1,
            ) && final(self).timer == old(self).timer,
    {
        self.green_straight = max_of(green_main, MIN_PHASE);
        self.green_left = max_of(secondary, MIN_PHASE);
        self.rebuild_steps();
    }

    /// Sets the control mode.
    pub fn set_mode(&mut self, mode: LightControlMode)
        ensures
            *final(self) == (PhasedVehicleLight { mode, ..*old(self) }),
    {
        self.mode = mode;
    }

    /// The green that the queue asks for.
    pub fn adaptive_effective_green_base(&self) -> (r: i64)
        ensures
            r == adaptive_green(self.queue_count),
    {
        let q: i64 = if self.queue_count <= 20 {
            self.queue_count as i64
        } else {
            20
        };
        20_000_000 + q * 2_000_000
    }

    fn step_duration_for_adaptive(&self, i: usize) -> (r: i64)
        requires
            i < self.steps@.len(),
        ensures
            r == self.step_length(i as int),
    {
        let base: i64 = self.steps[i].duration;
        if self.mode != LightControlMode::Adaptive {
            return base;
        }
        match self.steps[i].kind {
            ProgramStepKind::Go { .. } => {
                let green: i64 = self.adaptive_effective_green_base();
                assert(-0x8000_0000_0000_0000 * 60_000_000 <= base * green
                    <= 0x8000_0000_0000_0000 * 60_000_000) by (nonlinear_arith)
                    requires
                        -0x8000_0000_0000_0000 <= base <= 0x8000_0000_0000_0000,
                        0 <= green <= 60_000_000,
                ;
                saturate(floor_div(base as i128 * green as i128, 20_000_000))
            },
            _ => base,
        }
    }

    /// Whether advancing the program comes to an end.
    pub open spec fn can_run(&self) -> bool {
        self.steps@.len() > 0 ==> has_positive(self.step_lengths())
    }

    /// The step and its timer after `dt`.
    pub open spec fn place_after(&self, dt: i64) -> (int, int) {
        if self.mode == LightControlMode::Manual || self.steps@.len() == 0 || dt <= 0 {
            (self.step_index as int, self.timer as int)
        } else {
            run_program(
                self.step_lengths(),
                self.step_index as int,
                self.timer as int,
                dt as int,
            )
        }
    }

    /// Advances the program by `dt`; by hand it stays.
    pub fn update(&mut self, dt: i64)
        requires
            old(self).wf(),
            old(self).mode != LightControlMode::Manual ==> old(self).can_run(),
        ensures
            final(self).wf(),
            final(self).same_but_place(old(self)),
            (final(self).step_index as int, final(self).timer as int) == old(self).place_after(dt),
    {
        match self.mode {
            LightControlMode::Manual => {},
            LightControlMode::SemiAuto | LightControlMode::Auto | LightControlMode::Adaptive => {
                self.advance_steps(dt);
            },
        }
    }

    fn advance_steps(&mut self, dt: i64)
        requires
            old(self).wf(),
            old(self).can_run(),
            old(self).mode != LightControlMode::Manual,
        ensures
            final(self).wf(),
            final(self).same_but_place(old(self)),
            (final(self).step_index as int, final(self).timer as int) == old(self).place_after(dt),
    {
        if self.steps.len() == 0 || dt <= 0 {
            return ;
        }
        let ghost goal = self.place_after(dt);
        let ghost lengths = self.step_lengths();
        let mut rest: i128 = dt as i128;
        loop
            invariant
                self.wf(),
                self.same_but_place(old(self)),
                self.steps@.len() > 0,
                lengths == old(self).step_lengths(),
                has_positive(lengths),
                0 < rest <= i64::MAX,
                goal == old(self).place_after(dt),
                goal == run_program(
                    lengths,
                    self.step_index as int,
                    self.timer as int,
                    rest as int,
                ),
            decreases
                    rest,
                    (if self.timer != 0 {
                        1int
                    } else {
                        0int
                    }),
                    steps_to_positive(lengths, self.step_index as int),
        {
            proof {
                let p = first_positive(lengths);
                assert(0 <= p < lengths.len() && lengths[p] > 0);
                assert(lengths[self.step_index as int] == self.step_length(self.step_index as int));
            }
            let length: i64 = self.step_duration_for_adaptive(self.step_index);
            let gap: i128 = length as i128 - self.timer as i128;
            let left: i128 = if gap >= 0 {
                gap
            } else {
                0
            };
            if left > rest + 1 {
                self.timer = (self.timer as i128 + rest) as i64;
                return ;
            }
            rest = rest - left;
            self.timer = 0;
            assert(self.steps.len() == self.steps@.len());
            self.step_index =
            if self.step_index + 1 == self.steps.len() {
                0
            } else {
                self.step_index + 1
            };
            if rest <= 1 {
                return ;
            }
        }
    }

    /// Goes on to the next step.
    pub fn force_advance_step(&mut self)
        requires
            old(self).wf(),
        ensures
            final(self).wf(),
            final(self).same_but_place(old(self)),
            old(self).steps@.len() == 0 ==> final(self).step_index == old(self).step_index
                && final(self).timer == old(self).timer,
            old(self).steps@.len() > 0 ==> final(self).timer == 0 && final(self).step_index == (
            old(self).step_index + 1) % old(self).steps@.len() as int,
    {
        if self.steps.len() == 0 {
            return ;
        }
        assert(self.step_index + 1 <= self.steps@.len());
        assert(self.steps.len() == self.steps@.len());
        self.step_index = (self.step_index + 1) % self.steps.len();
        self.timer = 0;
    }

    /// What a movement from an arm is shown.
    pub open spec fn shown(&self, arm: u8, movement: LaneDirection) -> LightPhase {
        if self.steps@.len() == 0 {
            LightPhase::Red
        } else {
            match self.steps@[self.step_index as int].kind {
                ProgramStepKind::AllRed => LightPhase::Red,
                ProgramStepKind::Go { allowed } => if allows(allowed, arm, movement) {
                    LightPhase::Green
                } else {
                    LightPhase::Red
                },
                ProgramStepKind::Caution { allowed } => if allows(allowed, arm, movement) {
                    LightPhase::Yellow
                } else {
                    LightPhase::Red
                },
            }
        }
    }

    /// What a movement from an edge is shown; an unknown edge is shown red.
    pub open spec fn signal(&self, edge: usize, movement: LaneDirection) -> LightPhase {
        match self.layout.arm_of(edge) {
            Some(arm) => self.shown(arm, movement),
            None => LightPhase::Red,
        }
    }

    /// What a movement from an edge is shown.
    pub fn signal_for(&self, inbound_edge: usize, movement: LaneDirection) -> (r: LightPhase)
        requires
            self.wf(),
        ensures
            r == self.signal(inbound_edge, movement),
    {
        if self.steps.len() == 0 {
            return LightPhase::Red;
        }
        let arm: u8 = match self.layout.arm_for_inbound_edge(inbound_edge) {
            Some(a) => a,
            None => {
                return LightPhase::Red;
            },
        };
        assert(self.layout.edge_to_arm@[inbound_edge] == arm);
        match self.steps[self.step_index].kind {
            ProgramStepKind::AllRed => LightPhase::Red,
            ProgramStepKind::Go { allowed } => if mask_allows(allowed, arm, movement) {
                LightPhase::Green
            } else {
                LightPhase::Red
            },
            ProgramStepKind::Caution { allowed } => if mask_allows(allowed, arm, movement) {
                LightPhase::Yellow
            } else {
                LightPhase::Red
            },
        }
    }

    /// The most permissive signal of an edge over all movements.
    pub open spec fn best_signal(&self, edge: usize) -> LightPhase {
        best_phase(
            best_phase(
                self.signal(edge, LaneDirection::Straight),
                self.signal(edge, LaneDirection::Left),
            ),
            best_phase(
                self.signal(edge, LaneDirection::Right),
                self.signal(edge, LaneDirection::UTurn),
            ),
        )
    }

    /// The most permissive signal of each arm.
    pub open spec fn arm_phase(&self, i: int) -> LightPhase {
        if i < self.layout.arms@.len() {
            self.best_signal(self.layout.arms@[i])
        } else {
            LightPhase::Red
        }
    }

    /// The most permissive signal of an arm.
    pub fn signal_summarize_arm(&self, arm_idx: usize) -> (r: LightPhase)
        requires
            self.wf(),
        ensures
            r == self.arm_phase(arm_idx as int),
    {
        if arm_idx >= self.layout.arms.len() {
            return LightPhase::Red;
        }
        let edge: usize = self.layout.arms[arm_idx];
        let a = phase_max(
            self.signal_for(edge, LaneDirection::Straight),
            self.signal_for(edge, LaneDirection::Left),
        );
        let b = phase_max(
            self.signal_for(edge, LaneDirection::Right),
            self.signal_for(edge, LaneDirection::UTurn),
        );
        phase_max(a, b)
    }

    /// The numbers of the phases of the arms.
    pub open spec fn arm_codes(&self) -> Seq<u8> {
        Seq::new(self.layout.arms@.len(), |i: int| self.arm_phase(i).code())
    }

    /// The numbers of the phases of the arms.
    pub fn arm_phase_bytes(&self) -> (r: Vec<u8>)
        requires
            self.wf(),
        ensures
            r@ == self.arm_codes(),
    {
        let mut out: Vec<u8> = Vec::new();
        let mut i: usize = 0;
        while i < self.layout.arms.len()
            invariant
                self.wf(),
                i <= self.layout.arms@.len(),
                out@.len() == i,
                forall|j: int| 0 <= j < i ==> #[trigger] out@[j] == self.arm_phase(j).code(),
            decreases self.layout.arms.len() - i,
        {
            out.push(self.signal_summarize_arm(i).to_u8());
            i = i + 1;
        }
        assert(out@ =~= self.arm_codes());
        out
    }

    /// The phase of the current step as a whole.
    pub open spec fn overall(&self) -> LightPhase {
        if self.steps@.len() == 0 {
            LightPhase::Red
        } else {
            match self.steps@[self.step_index as int].kind {
                ProgramStepKind::AllRed => LightPhase::Red,
                ProgramStepKind::Caution { .. } => LightPhase::Yellow,
                ProgramStepKind::Go { .. } => LightPhase::Green,
            }
        }
    }

    /// The number of the phase of the current step as a whole.
    pub fn aggregate_phase_byte(&self) -> (r: u8)
        requires
            self.wf(),
        ensures
            r == self.overall().code(),
    {
        if self.steps.len() == 0 {
            return LightPhase::Red.to_u8();
        }
        match self.steps[self.step_index].kind {
            ProgramStepKind::AllRed => LightPhase::Red.to_u8(),
            ProgramStepKind::Caution { .. } => LightPhase::Yellow.to_u8(),
            ProgramStepKind::Go { .. } => LightPhase::Green.to_u8(),
        }
    }

    /// The time left in the current step.
    pub open spec fn remaining_time(&self) -> int {
        if self.steps@.len() == 0 {
            0
        } else {
            saturated(larger(self.step_length(self.step_index as int) - self.timer, 0))
        }
    }

    /// The time left in the current step.
    pub fn current_time_remaining(&self) -> (r: i64)
        requires
            self.wf(),
        ensures
            r == self.remaining_time(),
    {
        if self.steps.len() == 0 {
            return 0;
        }
        let length: i64 = self.step_duration_for_adaptive(self.step_index);
        let left: i128 = length as i128 - self.timer as i128;
        if left >= 0 {
            saturate(left)
        } else {
            0
        }
    }

    /// A number that changes with the step, the fifths of a second left in it and the phases of
    /// the first eight arms.
    pub open spec fn signature(&self) -> u64 {
        let sig = signature_fold(
            signature_head(self.step_index, self.remaining_time() / 200_000),
            self.arm_codes().take(smaller(self.arm_codes().len() as int, 8)),
        );
        (sig as u64) ^ ((sig >> 64u32) as u64)
    }

    /// A number that changes with what is shown.
    pub fn broadcast_signature(&self) -> (r: u64)
        requires
            self.wf(),
        ensures
            r == self.signature(),
    {
        let fifths: u64 = (self.current_time_remaining() / 200_000) as u64;
        let codes: Vec<u8> = self.arm_phase_bytes();
        let mut sig: u128 = (((self.step_index as u128) << 48u32) | ((fifths as u128) & 0xFFFF))
            << 32u32;
        let n: usize = if codes.len() <= 8 {
            codes.len()
        } else {
            8
        };
        let ghost head = sig;
        let ghost told = codes@.take(n as int);
        let mut i: usize = 0;
        assert(told.take(0) =~= Seq::<u8>::empty());
        while i < n
            invariant
                i <= n <= codes@.len(),
                told == codes@.take(n as int),
                sig == signature_fold(head, told.take(i as int)),
            decreases n - i,
        {
            assert(told.take(i + 1).drop_last() =~= told.take(i as int));
            assert(told.take(i + 1).last() == codes@[i as int]);
            sig = sig.wrapping_mul(131).wrapping_add(codes[i] as u128);
            i = i + 1;
        }
        assert(told.take(n as int) =~= told);
        (sig as u64) ^ ((sig >> 64u32) as u64)
    }

    /// Whether `u` tells of the signal.
    pub open spec fn told_by(&self, u: LightStateUpdate) -> bool {
        &&& u.intersection_id == self.intersection_id
        &&& u.phase == self.overall().code()
        &&& u.time_remaining == self.remaining_time()
        &&& u.queue_count == self.queue_count
        &&& u.mode@ == mode_text(self.mode)
        &&& u.green_duration == self.green_straight
        &&& u.red_duration == self.green_left
        &&& u.junction_arm_phases is Some
        &&& u.junction_arm_phases->Some_0@ == self.arm_codes()
    }

    /// What the front end is told of the signal.
    pub fn to_state_update(&self) -> (u: LightStateUpdate)
        requires
            self.wf(),
        ensures
            self.told_by(u),
    {
        LightStateUpdate {
            intersection_id: self.intersection_id,
            phase: self.aggregate_phase_byte(),
            time_remaining: self.current_time_remaining(),
            queue_count: self.queue_count,
            mode: mode_label(self.mode).to_owned(),
            green_duration: self.green_straight,
            red_duration: self.green_left,
            junction_arm_phases: Some(self.arm_phase_bytes()),
        }
    }
}

/// The step and the time left in it, packed.
pub open spec fn signature_head(step: usize, fifths: int) -> u128 {
    (((step as u128) << 48u32) | ((fifths as u128) & 0xFFFF)) << 32u32
}

/// A packed number with the phases of arms mixed in.
pub open spec fn signature_fold(head: u128, codes: Seq<u8>) -> u128
    decreases codes.len(),
{
    if codes.len() == 0 {
        head
    } else {
        signature_fold(head, codes.drop_last()).wrapping_mul(131).wrapping_add(codes.last() as u128)
    }
}

/// The more permissive of two phases.
pub open spec fn best_phase(a: LightPhase, b: LightPhase) -> LightPhase {
    if a == LightPhase::Green || b == LightPhase::Green {
        LightPhase::Green
    } else if a == LightPhase::Yellow || b == LightPhase::Yellow {
        LightPhase::Yellow
    } else {
        LightPhase::Red
    }
}

/// The better of two phases is the one with the larger number: it does not matter in which order and
/// in which groups phases are taken, red adds nothing and nothing is better than green.
pub proof fn law_best_phase(a: LightPhase, b: LightPhase, c: LightPhase)
    ensures
        best_phase(a, b).code() == if a.code() >= b.code() {
            a.code()
        } else {
            b.code()
        },
        best_phase(a, b) == best_phase(b, a),
        best_phase(best_phase(a, b), c) == best_phase(a, best_phase(b, c)),
        best_phase(a, a) == a,
        best_phase(a, LightPhase::Red) == a,
        best_phase(a, LightPhase::Green) == LightPhase::Green,
{
}

/// The better of two phases.
pub fn phase_max(a: LightPhase, b: LightPhase) -> (r: LightPhase)
    ensures
        r == best_phase(a, b),
        r.code() == if a.code() >= b.code() {
            a.code()
        } else {
            b.code()
        },
{
    if a == LightPhase::Green || b == LightPhase::Green {
        LightPhase::Green
    } else if a == LightPhase::Yellow || b == LightPhase::Yellow {
        LightPhase::Yellow
    } else {
        LightPhase::Red
    }
}

proof fn lemma_sequential_len(n: int, green: i64, yellow: i64, red: i64)
    requires
        n >= 0,
    ensures
        sequential_program(n, green, yellow, red).len() == 3 * n,
    decreases n,
{
    if n > 0 {
        lemma_sequential_len(n - 1, green, yellow, red);
    }
}

proof fn lemma_program_len(n: int, straight: i64, left: i64, yellow: i64, red: i64)
    requires
        n >= 0,
    ensures
        program(n, straight, left, yellow, red).len() == if n <= 1 {
            0
        } else {
            3 * n
        },
{
    lemma_sequential_len(n, straight, yellow, red);
}

/// The mask of the movements that a step lets go or clears.
pub open spec fn step_mask(step: TimedStep) -> u128 {
    match step.kind {
        ProgramStepKind::Go { allowed } => allowed,
        ProgramStepKind::Caution { allowed } => allowed,
        ProgramStepKind::AllRed => 0,
    }
}

/// A pair of arms of a crossing lets through exactly the movements of both, straight on and right or
/// left, in either order, and the two kinds of pairs have no movement in common.
pub proof fn law_pair_exact(a: u8, b: u8, c: u8, d: u8, arm: u8, mv: LaneDirection)
    requires
        a < 4,
        b < 4,
        c < 4,
        d < 4,
    ensures
        allows(through(a, b), arm, mv) <==> (arm == a || arm == b) && (mv == LaneDirection::Straight
            || mv == LaneDirection::Right),
        allows(lefts(a, b), arm, mv) <==> (arm == a || arm == b) && mv == LaneDirection::Left,
        through(a, b) == through(b, a),
        lefts(a, b) == lefts(b, a),
        through(a, b) & lefts(c, d) == 0,
{
    let t = seq![LaneDirection::Straight, LaneDirection::Right];
    let l = seq![LaneDirection::Left];
    lemma_pair_allows(a, b, t, arm, mv);
    lemma_pair_allows(a, b, l, arm, mv);
    assert(t[0] == LaneDirection::Straight && t[1] == LaneDirection::Right);
    assert(l[0] == LaneDirection::Left);
    let (p, q) = (combined(a, t), combined(b, t));
    assert(p | q == q | p) by (bit_vector);
    let (u, v) = (combined(a, l), combined(b, l));
    assert(u | v == v | u) by (bit_vector);
    lemma_apart(a, c);
    lemma_apart(a, d);
    lemma_apart(b, c);
    lemma_apart(b, d);
    let (w, x) = (combined(c, l), combined(d, l));
    assert((p | q) & (w | x) == 0) by (bit_vector)
        requires
            p & w == 0,
            p & x == 0,
            q & w == 0,
            q & x == 0,
    ;
}

/// What goes straight on or right and what goes left have no bit in common.
proof fn lemma_apart(a: u8, c: u8)
    requires
        a < 4,
        c < 4,
    ensures
        combined(a, seq![LaneDirection::Straight, LaneDirection::Right]) & combined(
            c,
            seq![LaneDirection::Left],
        ) == 0,
{
    let t = seq![LaneDirection::Straight, LaneDirection::Right];
    let l = seq![LaneDirection::Left];
    reveal_with_fuel(combined, 3);
    assert(t.drop_last() =~= seq![LaneDirection::Straight]);
    assert(t.drop_last().drop_last() =~= Seq::<LaneDirection>::empty());
    assert(l.drop_last() =~= Seq::<LaneDirection>::empty());
    let s = bit_number(a, LaneDirection::Straight);
    let r = bit_number(a, LaneDirection::Right);
    let f = bit_number(c, LaneDirection::Left);
    assert(((0u128 | (1u128 << s)) | (1u128 << r)) & (0u128 | (1u128 << f)) == 0) by (bit_vector)
        requires
            s < 16,
            r < 16,
            f < 16,
            s != f,
            r != f,
    ;
}

/// An empty mask allows nothing.
proof fn lemma_nothing_allowed(arm: u8, mv: LaneDirection)
    ensures
        !allows(0, arm, mv),
{
    let bit = movement_bit(arm, mv);
    assert(0u128 & bit == 0) by (bit_vector);
    assert(0u128 & (1u128 << 127u32) == 0) by (bit_vector);
}

/// The masks of two arms with blocks together allow what either allows.
proof fn lemma_pair_allows(a: u8, b: u8, kinds: Seq<LaneDirection>, arm: u8, mv: LaneDirection)
    requires
        a < BLOCK_ARMS,
        b < BLOCK_ARMS,
    ensures
        allows(combined(a, kinds) | combined(b, kinds), arm, mv) <==> (arm == a || arm == b)
            && kinds.contains(mv),
{
    let bit = movement_bit(arm, mv);
    let (p, q) = (combined(a, kinds), combined(b, kinds));
    if kinds.len() == 0 {
        assert(0u128 & (1u128 << 127u32) == 0) by (bit_vector);
    } else {
        lemma_mask_form(a, kinds);
        lemma_mask_form(b, kinds);
    }
    lemma_or_allows(p, q, 1u128 << 127u32);
    law_mask_exact(a, kinds, arm, mv);
    law_mask_exact(b, kinds, arm, mv);
    lemma_or_allows(p, q, bit);
}

/// In the program of a crossing with four arms, arms of different axes never move in the same
/// step, and no movement straight on or to the right moves with one to the left.
pub proof fn law_axes_never_meet(
    straight: i64,
    left: i64,
    yellow: i64,
    red: i64,
    k: int,
    a: u8,
    m: LaneDirection,
    b: u8,
    n: LaneDirection,
)
    requires
        0 <= k < 12,
        allows(step_mask(two_axis_program(straight, left, yellow, red)[k]), a, m),
        allows(step_mask(two_axis_program(straight, left, yellow, red)[k]), b, n),
    ensures
        a % 2 == b % 2,
        (m == LaneDirection::Left) == (n == LaneDirection::Left),
{
    law_pair_exact(0, 2, 0, 2, a, m);
    law_pair_exact(0, 2, 0, 2, b, n);
    law_pair_exact(1, 3, 1, 3, a, m);
    law_pair_exact(1, 3, 1, 3, b, n);
    lemma_nothing_allowed(a, m);
    lemma_nothing_allowed(b, n);
}

/// Every arm of a crossing with four arms gets green for going straight, left and right.
pub proof fn law_four_arms_served(
    straight: i64,
    left: i64,
    yellow: i64,
    red: i64,
    arm: u8,
    mv: LaneDirection,
)
    requires
        arm < 4,
        mv != LaneDirection::UTurn,
    ensures
        exists|k: int|
            0 <= k < 12 && (#[trigger] two_axis_program(straight, left, yellow, red)[k]).kind is Go
                && allows(step_mask(two_axis_program(straight, left, yellow, red)[k]), arm, mv),
{
    let p = two_axis_program(straight, left, yellow, red);
    law_pair_exact(0, 2, 0, 2, arm, mv);
    law_pair_exact(1, 3, 1, 3, arm, mv);
    assert(p[0] == stage(through(0, 2), straight, yellow, red)[0]);
    assert(p[3] == stage(lefts(0, 2), left, yellow, red)[0]);
    assert(p[6] == stage(through(1, 3), straight, yellow, red)[0]);
    assert(p[9] == stage(lefts(1, 3), left, yellow, red)[0]);
    let k: int = if arm % 2 == 0 {
        if mv == LaneDirection::Left {
            3
        } else {
            0
        }
    } else if mv == LaneDirection::Left {
        9
    } else {
        6
    };
    assert(p[k].kind is Go && allows(step_mask(p[k]), arm, mv));
}

proof fn lemma_sequential_stage(n: int, green: i64, yellow: i64, red: i64, k: int)
    requires
        0 <= k < n,
    ensures
        sequential_program(n, green, yellow, red).len() == 3 * n,
        sequential_program(n, green, yellow, red).subrange(3 * k, 3 * k + 3) == stage(
            combined(k as u8, every_movement()),
            green,
            yellow,
            red,
        ),
    decreases n,
{
    lemma_sequential_len(n, green, yellow, red);
    lemma_sequential_len(n - 1, green, yellow, red);
    let p = sequential_program(n, green, yellow, red);
    let q = sequential_program(n - 1, green, yellow, red);
    if k < n - 1 {
        lemma_sequential_stage(n - 1, green, yellow, red, k);
        assert(p.subrange(3 * k, 3 * k + 3) =~= q.subrange(3 * k, 3 * k + 3));
    } else {
        assert(p.subrange(3 * k, 3 * k + 3) =~= stage(
            combined(k as u8, every_movement()),
            green,
            yellow,
            red,
        ));
    }
}

/// Every green is followed by yellow for the same movements and by all red.
pub proof fn law_clearance(n: int, straight: i64, left: i64, yellow: i64, red: i64, k: int)
    requires
        n >= 2,
        0 <= k < n,
    ensures
        program(n, straight, left, yellow, red).len() == 3 * n,
        program(n, straight, left, yellow, red)[3 * k].kind is Go,
        program(n, straight, left, yellow, red)[3 * k + 1].kind is Caution,
        step_mask(program(n, straight, left, yellow, red)[3 * k]) == step_mask(
            program(n, straight, left, yellow, red)[3 * k + 1],
        ),
        program(n, straight, left, yellow, red)[3 * k + 2].kind is AllRed,
{
    if n != 4 {
        let p = sequential_program(n, straight, yellow, red);
        lemma_sequential_stage(n, straight, yellow, red, k);
        let part = p.subrange(3 * k, 3 * k + 3);
        assert(part[0] == p[3 * k]);
        assert(part[1] == p[3 * k + 1]);
        assert(part[2] == p[3 * k + 2]);
    }
}

/// At a junction whose arms are served one after the other, step `k` moves arm `k / 3` and no other;
/// all its movements get green.
pub proof fn law_arms_take_turns(
    n: int,
    straight: i64,
    left: i64,
    yellow: i64,
    red: i64,
    k: int,
    arm: u8,
    mv: LaneDirection,
)
    requires
        2 <= n <= MAX_ARMS,
        n != 4,
        0 <= k < 3 * n,
    ensures
        allows(step_mask(program(n, straight, left, yellow, red)[k]), arm, mv) <==> arm == k / 3
            && k % 3 != 2,
{
    let p = program(n, straight, left, yellow, red);
    let s = k / 3;
    lemma_sequential_stage(n, straight, yellow, red, s);
    let part = p.subrange(3 * s, 3 * s + 3);
    assert(part[k % 3] == p[k]);
    law_mask_exact(s as u8, every_movement(), arm, mv);
    let all = every_movement();
    assert(all[0] == LaneDirection::Straight && all[1] == LaneDirection::Left && all[2]
        == LaneDirection::Right && all[3] == LaneDirection::UTurn);
    lemma_nothing_allowed(arm, mv);
}

/// Running a program leads to one of its steps.
pub proof fn law_step_in_range(lengths: Seq<int>, i: int, timer: int, dt: int)
    requires
        0 <= i < lengths.len(),
        dt > 0,
        has_positive(lengths),
    ensures
        0 <= run_program(lengths, i, timer, dt).0 < lengths.len(),
    decreases
            dt,
            (if timer != 0 {
                1int
            } else {
                0int
            }),
            steps_to_positive(lengths, i),
{
    let p = first_positive(lengths);
    assert(0 <= p < lengths.len() && lengths[p] > 0);
    let left = larger(lengths[i] - timer, 0);
    let next = if i + 1 == lengths.len() {
        0
    } else {
        i + 1
    };
    if left <= dt + 1 && dt - left > 1 {
        law_step_in_range(lengths, next, 0, dt - left);
    }
}

/// The sum of some lengths.
pub open spec fn total(lengths: Seq<int>) -> int
    decreases lengths.len(),
{
    if lengths.len() == 0 {
        0
    } else {
        lengths.first() + total(lengths.skip(1))
    }
}

proof fn lemma_total_positive(lengths: Seq<int>)
    requires
        forall|i: int| 0 <= i < lengths.len() ==> #[trigger] lengths[i] > 1,
    ensures
        lengths.len() > 0 ==> total(lengths) > 1,
        total(lengths) >= 0,
    decreases lengths.len(),
{
    if lengths.len() > 0 {
        let rest = lengths.skip(1);
        assert forall|i: int| 0 <= i < rest.len() implies #[trigger] rest[i] > 1 by {
            assert(rest[i] == lengths[i + 1]);
        }
        lemma_total_positive(rest);
    }
}

proof fn lemma_run_rest(lengths: Seq<int>, i: int)
    requires
        0 <= i < lengths.len(),
        forall|i: int| 0 <= i < lengths.len() ==> #[trigger] lengths[i] > 1,
    ensures
        run_program(lengths, i, 0, total(lengths.skip(i))) == (0int, 0int),
    decreases lengths.len() - i,
{
    let rest = lengths.skip(i);
    assert forall|j: int| 0 <= j < rest.len() implies #[trigger] rest[j] > 1 by {
        assert(rest[j] == lengths[j + i]);
    }
    lemma_total_positive(rest);
    assert(lengths[0] > 1);
    assert(has_positive(lengths));
    assert(rest.skip(1) =~= lengths.skip(i + 1));
    if i + 1 < lengths.len() {
        let after = lengths.skip(i + 1);
        assert forall|j: int| 0 <= j < after.len() implies #[trigger] after[j] > 1 by {
            assert(after[j] == lengths[j + i + 1]);
        }
        lemma_total_positive(after);
        lemma_run_rest(lengths, i + 1);
    } else {
        assert(total(lengths.skip(i + 1)) == 0);
    }
}

/// After the time of one cycle a program that was at its start is at its start again.
pub proof fn law_full_cycle(lengths: Seq<int>)
    requires
        lengths.len() > 0,
        forall|i: int| 0 <= i < lengths.len() ==> #[trigger] lengths[i] > 1,
    ensures
        run_program(lengths, 0, 0, total(lengths)) == (0int, 0int),
{
    lemma_run_rest(lengths, 0);
    assert(lengths.skip(0) =~= lengths);
}

/// By hand a program stays where it is, whatever time passes.
pub proof fn law_manual_stays(l: PhasedVehicleLight, dt: i64)
    requires
        l.mode == LightControlMode::Manual,
    ensures
        l.place_after(dt) == (l.step_index as int, l.timer as int),
{
}

/// A queue never shortens a step, and draws green out to three times its length at most.
pub proof fn law_adaptive_green(l: PhasedVehicleLight, i: int)
    requires
        0 <= i < l.steps@.len(),
        l.steps@[i].duration >= 0,
    ensures
        l.steps@[i].duration <= l.step_length(i) <= 3 * l.steps@[i].duration,
{
    let d = l.steps@[i].duration as int;
    let g = adaptive_green(l.queue_count);
    assert(d * 20_000_000 <= d * g <= d * 60_000_000) by (nonlinear_arith)
        requires
            d >= 0,
            20_000_000 <= g <= 60_000_000,
    ;
}

/// Each turn of a program lasts as long as is set: at a crossing with four arms green lasts the time for
/// going straight or, every second turn, for turning left, and at any other junction that for going
/// straight; yellow and red last their times.
pub proof fn law_times_of_turns(n: int, straight: i64, left: i64, yellow: i64, red: i64, k: int)
    requires
        n >= 2,
        0 <= k < n,
    ensures
        program(n, straight, left, yellow, red)[3 * k].duration == if n == 4 && k % 2 == 1 {
            left
        } else {
            straight
        },
        program(n, straight, left, yellow, red)[3 * k + 1].duration == yellow,
        program(n, straight, left, yellow, red)[3 * k + 2].duration == red,
{
    if n != 4 {
        let p = sequential_program(n, straight, yellow, red);
        lemma_sequential_stage(n, straight, yellow, red, k);
        let part = p.subrange(3 * k, 3 * k + 3);
        assert(part[0] == p[3 * k]);
        assert(part[1] == p[3 * k + 1]);
        assert(part[2] == p[3 * k + 2]);
    }
}

/// A movement is shown green only in a green step that allows it, yellow only in a yellow step that
/// allows it, and else red; an edge that is no arm of the junction is shown red.
pub proof fn law_what_is_shown(l: PhasedVehicleLight, edge: usize, mv: LaneDirection)
    requires
        l.step_index < l.steps@.len(),
    ensures
        ({
            let step = l.steps@[l.step_index as int];
            let shown = l.signal(edge, mv);
            let arm = l.layout.arm_of(edge);
            &&& arm is None ==> shown == LightPhase::Red
            &&& arm is Some && allows(step_mask(step), arm->Some_0, mv) && step.kind is Go ==> shown
                == LightPhase::Green
            &&& arm is Some && allows(step_mask(step), arm->Some_0, mv) && step.kind is Caution
                ==> shown == LightPhase::Yellow
            &&& arm is Some && !allows(step_mask(step), arm->Some_0, mv) ==> shown == LightPhase::Red
            &&& step.kind is AllRed ==> shown == LightPhase::Red
        }),
{
}

/// At a crossing with four arms no movement that is not shown red crosses another one that is not: they
/// are of opposite arms, and either both turn left or neither does.
pub proof fn law_no_crossing_greens(
    l: PhasedVehicleLight,
    straight: i64,
    left: i64,
    yellow: i64,
    red: i64,
    a: u8,
    m: LaneDirection,
    b: u8,
    n: LaneDirection,
)
    requires
        l.steps@ == two_axis_program(straight, left, yellow, red),
        l.step_index < 12,
        l.shown(a, m) != LightPhase::Red,
        l.shown(b, n) != LightPhase::Red,
    ensures
        a % 2 == b % 2,
        (m == LaneDirection::Left) == (n == LaneDirection::Left),
{
    law_axes_never_meet(straight, left, yellow, red, l.step_index as int, a, m, b, n);
}

/// At a junction whose arms are served one after the other only one arm at a time is not shown red.
pub proof fn law_one_arm_at_a_time(
    l: PhasedVehicleLight,
    count: int,
    straight: i64,
    left: i64,
    yellow: i64,
    red: i64,
    a: u8,
    m: LaneDirection,
    b: u8,
    n: LaneDirection,
)
    requires
        2 <= count <= MAX_ARMS,
        count != 4,
        l.steps@ == program(count, straight, left, yellow, red),
        l.step_index < 3 * count,
        l.shown(a, m) != LightPhase::Red,
        l.shown(b, n) != LightPhase::Red,
    ensures
        a == b,
{
    law_arms_take_turns(count, straight, left, yellow, red, l.step_index as int, a, m);
    law_arms_take_turns(count, straight, left, yellow, red, l.step_index as int, b, n);
    lemma_nothing_allowed(a, m);
    lemma_nothing_allowed(b, n);
}

/// A step goes on until its time is over, and then the next one starts afresh, after the last the first.
pub proof fn law_steps_last_their_time(lengths: Seq<int>, i: int, timer: int, dt: int)
    requires
        0 <= i < lengths.len(),
        has_positive(lengths),
        0 < dt,
        0 <= timer <= lengths[i],
    ensures
        timer + dt < lengths[i] - 1 ==> run_program(lengths, i, timer, dt) == (i, timer + dt),
        timer + dt == lengths[i] ==> run_program(lengths, i, timer, dt) == (
            (i + 1) % (lengths.len() as int),
            0int,
        ),
{
    if i + 1 < lengths.len() {
        assert((i + 1) % (lengths.len() as int) == i + 1) by (nonlinear_arith)
            requires
                0 <= i,
                i + 1 < lengths.len(),
        ;
    } else {
        assert((i + 1) % (lengths.len() as int) == 0) by (nonlinear_arith)
            requires
                0 <= i,
                i + 1 == lengths.len(),
        ;
    }
}

/// Arms come from the side on which they lie: whoever starts further north than east or west of a
/// junction comes from the north, and likewise for the other sides.
pub proof fn law_sides(s: RoadNode, j: RoadNode)
    ensures
        ({
            let (up, right) = (s.lat - j.lat, s.lng - j.lng);
            &&& up > 0 && -up < right < up ==> compass_side(s, j) == Compass::North
            &&& up < 0 && up < right < -up ==> compass_side(s, j) == Compass::South
            &&& right > 0 && -right < up < right ==> compass_side(s, j) == Compass::East
            &&& right < 0 && right < up < -right ==> compass_side(s, j) == Compass::West
        }),
{
}

/// The arm on a side is found where there is one.
pub proof fn law_arm_on_side(sides: Seq<Compass>, c: Compass)
    requires
        sides.len() <= 255,
    ensures
        match arm_on(sides, c) {
            Some(k) => k < sides.len() && sides[k as int] == c,
            None => forall|i: int| 0 <= i < sides.len() ==> #[trigger] sides[i] != c,
        },
    decreases sides.len(),
{
    if sides.len() > 0 {
        let front = sides.drop_last();
        law_arm_on_side(front, c);
        if sides.last() != c {
            match arm_on(front, c) {
                Some(k) => {
                    assert(front[k as int] == sides[k as int]);
                },
                None => {
                    assert forall|i: int| 0 <= i < sides.len() implies #[trigger] sides[i] != c by {
                        if i < front.len() {
                            assert(front[i] == sides[i]);
                        }
                    }
                },
            }
        }
    }
}

/// At a plain cross the arms from north and south go together, and so do those from east and west.
pub proof fn law_opposite_arms_go_together(map: MapData, junction: int, arms: Seq<usize>)
    ensures
        plus_pairs(map, junction, arms) matches Some(p) ==> arms.len() == 4 && {
            let sides = arm_sides(map, junction, arms)->Some_0;
            &&& sides.len() == 4
            &&& p.0.0 < 4 && p.0.1 < 4 && p.1.0 < 4 && p.1.1 < 4
            &&& sides[p.0.0 as int] == Compass::North && sides[p.0.1 as int] == Compass::South
            &&& sides[p.1.0 as int] == Compass::East && sides[p.1.1 as int] == Compass::West
        },
{
    if plus_pairs(map, junction, arms) is Some {
        lemma_sides_of_arms(map, junction, arms);
        let sides = arm_sides(map, junction, arms)->Some_0;
        law_arm_on_side(sides, Compass::North);
        law_arm_on_side(sides, Compass::South);
        law_arm_on_side(sides, Compass::East);
        law_arm_on_side(sides, Compass::West);
    }
}

proof fn lemma_sides_of_arms(map: MapData, junction: int, arms: Seq<usize>)
    ensures
        arm_sides(map, junction, arms) matches Some(s) ==> s.len() == arms.len(),
    decreases arms.len(),
{
    if arms.len() > 0 {
        lemma_sides_of_arms(map, junction, arms.drop_last());
    }
}

/// The first program step of a plain cross lets the one pair of arms go and the second the other, each
/// straight on and to the right, for the set time.
pub proof fn law_plain_cross(pairs: ((u8, u8), (u8, u8)), green: i64, arm: u8, mv: LaneDirection)
    requires
        pairs_known(pairs),
    ensures
        cross_program(pairs, green).len() == 2,
        green >= MIN_PHASE ==> cross_program(pairs, green)[0].duration == green && cross_program(
            pairs,
            green,
        )[1].duration == green,
        allows(step_mask(cross_program(pairs, green)[0]), arm, mv) <==> (arm == pairs.0.0 || arm
            == pairs.0.1) && (mv == LaneDirection::Straight || mv == LaneDirection::Right),
        allows(step_mask(cross_program(pairs, green)[1]), arm, mv) <==> (arm == pairs.1.0 || arm
            == pairs.1.1) && (mv == LaneDirection::Straight || mv == LaneDirection::Right),
{
    law_pair_exact(pairs.0.0, pairs.0.1, pairs.1.0, pairs.1.1, arm, mv);
    law_pair_exact(pairs.1.0, pairs.1.1, pairs.0.0, pairs.0.1, arm, mv);
}

/// What an arm is shown as a whole is green as soon as one of its movements has green, and red only
/// where all have red.
pub proof fn law_signal_of_arm(l: PhasedVehicleLight, i: int, mv: LaneDirection)
    requires
        0 <= i < l.layout.arms@.len(),
    ensures
        ({
            let e = l.layout.arms@[i];
            &&& l.signal(e, mv) == LightPhase::Green ==> l.arm_phase(i) == LightPhase::Green
            &&& l.arm_phase(i) == LightPhase::Red ==> l.signal(e, mv) == LightPhase::Red
            &&& l.arm_phase(i) == LightPhase::Green ==> l.signal(e, LaneDirection::Straight)
                == LightPhase::Green || l.signal(e, LaneDirection::Left) == LightPhase::Green
                || l.signal(e, LaneDirection::Right) == LightPhase::Green || l.signal(
                e,
                LaneDirection::UTurn,
            ) == LightPhase::Green
        }),
{
}

/// A time into the cycle falls into the step during which it passes.
pub proof fn law_step_at_time(steps: Seq<TimedStep>, t: int)
    requires
        0 <= t < cycle_length(steps),
        forall|i: int| 0 <= i < steps.len() ==> (#[trigger] steps[i]).duration >= 0,
    ensures
        ({
            let r = step_at(steps, 0, t);
            &&& 0 <= r.0 < steps.len()
            &&& 0 <= r.1 < steps[r.0].duration
            &&& cycle_length(steps.take(r.0)) + r.1 == t
        }),
{
    lemma_step_at(steps, 0, t);
    assert(steps.take(0).len() == 0);
}

proof fn lemma_step_at(steps: Seq<TimedStep>, i: int, t: int)
    requires
        0 <= i <= steps.len(),
        0 <= t,
        cycle_length(steps.take(i)) + t < cycle_length(steps),
        forall|k: int| 0 <= k < steps.len() ==> (#[trigger] steps[k]).duration >= 0,
    ensures
        ({
            let r = step_at(steps, i, t);
            &&& i <= r.0 < steps.len()
            &&& 0 <= r.1 < steps[r.0].duration
            &&& cycle_length(steps.take(r.0)) + r.1 == cycle_length(steps.take(i)) + t
        }),
    decreases steps.len() - i,
{
    if i >= steps.len() {
        assert(steps.take(i) =~= steps);
    } else {
        let next = steps.take(i + 1);
        assert(next.drop_last() =~= steps.take(i));
        assert(next.last() == steps[i]);
        if t >= steps[i].duration {
            lemma_step_at(steps, i + 1, t - steps[i].duration);
        }
    }
}

} // verus!
