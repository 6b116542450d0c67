//! What the front end is sent of the vehicles: 48 bytes for each, as text.
//!
//! A packet holds, in little-endian order: the id (4 bytes), latitude and longitude (8 each),
//! heading and speed (4 each), the kinds of vehicle, driver and trip (1 each), the lane with a bit
//! for turning (1), frustration and sideways position (4 each) and the id of the lane (8). Latitude
//! to speed, frustration and sideways position are the bits of floating-point numbers.

use base64::Engine;
use vstd::prelude::*;

use crate::simulation::tram_sim::TramVehicle;
use crate::vehicles::types::VehicleType;
use crate::vehicles::vehicle::Vehicle;

verus! {

/// Length of a packet.
pub const PACKET_LENGTH: usize = 48;

/// The lane id of a vehicle without a lane.
pub const NO_LANE: u64 = 0xffff_ffff_ffff_ffff;

/// What a packet tells of a vehicle.
#[derive(Clone, Copy, Debug)]
pub struct Packet {
    pub id: u32,
    pub lat_bits: u64,
    pub lng_bits: u64,
    pub angle_bits: u32,
    pub speed_bits: u32,
    pub vehicle_type: u8,
    pub profile: u8,
    pub trip_kind: u8,
    pub current_lane: u8,
    pub on_turn_connector: bool,
    pub frustration_bits: u32,
    pub lateral_bits: u32,
    pub current_lane_id: Option<u64>,
}

/// The numbers of a packet, as the bits of floating-point numbers.
#[derive(Clone, Copy, Debug)]
pub struct PacketNumbers {
    pub lat_bits: u64,
    pub lng_bits: u64,
    pub angle_bits: u32,
    pub speed_bits: u32,
    pub frustration_bits: u32,
    pub lateral_bits: u32,
}

/// The packet of a vehicle with some numbers.
pub open spec fn packet_of_vehicle(v: Vehicle, n: PacketNumbers) -> Packet {
    Packet {
        id: v.id,
        lat_bits: n.lat_bits,
        lng_bits: n.lng_bits,
        angle_bits: n.angle_bits,
        speed_bits: n.speed_bits,
        vehicle_type: v.vehicle_type.code(),
        profile: v.driver_profile.code(),
        trip_kind: v.trip_kind,
        current_lane: v.current_lane,
        on_turn_connector: v.on_turn_connector,
        frustration_bits: n.frustration_bits,
        lateral_bits: n.lateral_bits,
        current_lane_id: v.current_lane_id,
    }
}

/// The packet of a tram with some numbers: it has no driver, keeps to the middle of its track and has
/// no lane.
pub open spec fn packet_of_tram(t: TramVehicle, n: PacketNumbers) -> Packet {
    Packet {
        id: t.id,
        lat_bits: n.lat_bits,
        lng_bits: n.lng_bits,
        angle_bits: n.angle_bits,
        speed_bits: n.speed_bits,
        vehicle_type: VehicleType::Tram.code(),
        profile: 0,
        trip_kind: t.trip_kind,
        current_lane: 0,
        on_turn_connector: false,
        frustration_bits: n.frustration_bits,
        lateral_bits: 0,
        current_lane_id: None,
    }
}

/// The packet of a vehicle.
pub fn vehicle_packet(v: &Vehicle, n: &PacketNumbers) -> (r: Packet)
    ensures
        r == packet_of_vehicle(*v, *n),
{
    Packet {
        id: v.id,
        lat_bits: n.lat_bits,
        lng_bits: n.lng_bits,
        angle_bits: n.angle_bits,
        speed_bits: n.speed_bits,
        vehicle_type: v.vehicle_type.to_u8(),
        profile: v.driver_profile.to_u8(),
        trip_kind: v.trip_kind,
        current_lane: v.current_lane,
        on_turn_connector: v.on_turn_connector,
        frustration_bits: n.frustration_bits,
        lateral_bits: n.lateral_bits,
        current_lane_id: v.current_lane_id,
    }
}

/// The packet of a tram.
pub fn tram_packet(t: &TramVehicle, n: &PacketNumbers) -> (r: Packet)
    ensures
        r == packet_of_tram(*t, *n),
{
    Packet {
        id: t.id,
        lat_bits: n.lat_bits,
        lng_bits: n.lng_bits,
        angle_bits: n.angle_bits,
        speed_bits: n.speed_bits,
        vehicle_type: VehicleType::Tram.to_u8(),
        profile: 0,
        trip_kind: t.trip_kind,
        current_lane: 0,
        on_turn_connector: false,
        frustration_bits: n.frustration_bits,
        lateral_bits: 0,
        current_lane_id: None,
    }
}

/// The packets of all vehicles and then of all trams, in their order.
pub fn frame_packets(
    vehicles: &Vec<Vehicle>,
    vehicle_numbers: &Vec<PacketNumbers>,
    trams: &Vec<TramVehicle>,
    tram_numbers: &Vec<PacketNumbers>,
) -> (r: Vec<Packet>)
    requires
        vehicle_numbers@.len() == vehicles@.len(),
        tram_numbers@.len() == trams@.len(),
    ensures
        r@.len() == vehicles@.len() + trams@.len(),
        forall|i: int|
            0 <= i < vehicles@.len() ==> #[trigger] r@[i] == packet_of_vehicle(
                vehicles@[i],
                vehicle_numbers@[i],
            ),
        forall|i: int|
            vehicles@.len() <= i < r@.len() ==> #[trigger] r@[i] == packet_of_tram(
                trams@[i - vehicles@.len()],
                tram_numbers@[i - vehicles@.len()],
            ),
{
    let mut out: Vec<Packet> = Vec::new();
    let mut i: usize = 0;
    while i < vehicles.len()
        invariant
            i <= vehicles@.len(),
            vehicle_numbers@.len() == vehicles@.len(),
            out@.len() == i,
            forall|k: int|
                0 <= k < i ==> #[trigger] out@[k] == packet_of_vehicle(
                    vehicles@[k],
                    vehicle_numbers@[k],
                ),
        decreases vehicles.len() - i,
    {
        out.push(vehicle_packet(&vehicles[i], &vehicle_numbers[i]));
        i = i + 1;
    }
    let mut j: usize = 0;
    while j < trams.len()
        invariant
            j <= trams@.len(),
            tram_numbers@.len() == trams@.len(),
            out@.len() == vehicles@.len() + j,
            forall|k: int|
                0 <= k < vehicles@.len() ==> #[trigger] out@[k] == packet_of_vehicle(
                    vehicles@[k],
                    vehicle_numbers@[k],
                ),
            forall|k: int|
                vehicles@.len() <= k < out@.len() ==> #[trigger] out@[k] == packet_of_tram(
                    trams@[k - vehicles@.len()],
                    tram_numbers@[k - vehicles@.len()],
                ),
        decreases trams.len() - j,
    {
        out.push(tram_packet(&trams[j], &tram_numbers[j]));
        j = j + 1;
    }
    out
}

/// The lowest `n` bytes of a number, the lowest first.
pub open spec fn low_bytes(x: int, n: nat) -> Seq<u8>
    decreases n,
{
    if n == 0 {
        Seq::empty()
    } else {
        seq![(x % 256) as u8] + low_bytes(x / 256, (n - 1) as nat)
    }
}

/// The number that bytes denote, the lowest first.
pub open spec fn bytes_value(s: Seq<u8>) -> int
    decreases s.len(),
{
    if s.len() == 0 {
        0
    } else {
        s[0] + 256 * bytes_value(s.skip(1))
    }
}

/// 256 to the power of `n`.
pub open spec fn byte_range(n: nat) -> int
    decreases n,
{
    if n == 0 {
        1
    } else {
        256 * byte_range((n - 1) as nat)
    }
}

/// Reading the bytes of a number gives the number back.
pub proof fn law_bytes_round_trip(x: int, n: nat)
    requires
        0 <= x < byte_range(n),
    ensures
        low_bytes(x, n).len() == n,
        bytes_value(low_bytes(x, n)) == x,
    decreases n,
{
    if n > 0 {
        let m = (n - 1) as nat;
        law_bytes_round_trip(x / 256, m);
        let s = low_bytes(x, n);
        assert(s.skip(1) =~= low_bytes(x / 256, m));
    }
}

/// The lane of a vehicle with a bit for turning.
pub open spec fn lane_flags(lane: u8, turning: bool) -> u8 {
    (lane % 128 + if turning {
        128int
    } else {
        0
    }) as u8
}

/// The bytes of a packet.
pub open spec fn packet_bytes(p: Packet) -> Seq<u8> {
    low_bytes(p.id as int, 4) + low_bytes(p.lat_bits as int, 8) + low_bytes(p.lng_bits as int, 8)
        + low_bytes(p.angle_bits as int, 4) + low_bytes(p.speed_bits as int, 4) + seq![
        p.vehicle_type,
        p.profile,
        p.trip_kind,
        lane_flags(p.current_lane, p.on_turn_connector),
    ] + low_bytes(p.frustration_bits as int, 4) + low_bytes(p.lateral_bits as int, 4) + low_bytes(
        (match p.current_lane_id {
            Some(id) => id,
            None => NO_LANE,
        }) as int,
        8,
    )
}

fn push_bytes(buf: &mut Vec<u8>, x: u64, n: usize)
    ensures
        final(buf)@ == old(buf)@ + low_bytes(x as int, n as nat),
{
    let ghost before = buf@;
    let mut rest: u64 = x;
    let mut i: usize = 0;
    let ghost all = low_bytes(x as int, n as nat);
    assert(all =~= Seq::<u8>::empty() + all);
    let ghost mut done = Seq::<u8>::empty();
    while i < n
        invariant
            i <= n,
            buf@ == before + done,
            all == done + low_bytes(rest as int, (n - i) as nat),
        decreases n - i,
    {
        let b: u8 = (rest % 256) as u8;
        buf.push(b);
        proof {
            let tail = low_bytes(rest as int / 256, (n - i - 1) as nat);
            assert(low_bytes(rest as int, (n - i) as nat) == seq![b] + tail);
            assert(done + (seq![b] + tail) =~= done.push(b) + tail);
            done = done.push(b);
            assert(buf@ =~= before + done);
        }
        rest = rest / 256;
        i = i + 1;
    }
    assert(done + low_bytes(rest as int, 0) =~= done);
}

/// Adds the packet of a vehicle.
pub fn push_vehicle_packet(buf: &mut Vec<u8>, p: &Packet)
    ensures
        final(buf)@ == old(buf)@ + packet_bytes(*p),
{
    let ghost before = buf@;
    push_bytes(buf, p.id as u64, 4);
    push_bytes(buf, p.lat_bits, 8);
    push_bytes(buf, p.lng_bits, 8);
    push_bytes(buf, p.angle_bits as u64, 4);
    push_bytes(buf, p.speed_bits as u64, 4);
    let ghost head = buf@;
    buf.push(p.vehicle_type);
    buf.push(p.profile);
    buf.push(p.trip_kind);
    let flag: u8 = if p.on_turn_connector {
        128
    } else {
        0
    };
    buf.push(p.current_lane % 128 + flag);
    assert(buf@ =~= head + seq![
        p.vehicle_type,
        p.profile,
        p.trip_kind,
        lane_flags(p.current_lane, p.on_turn_connector),
    ]);
    push_bytes(buf, p.frustration_bits as u64, 4);
    push_bytes(buf, p.lateral_bits as u64, 4);
    let lane: u64 = match p.current_lane_id {
        Some(id) => id,
        None => NO_LANE,
    };
    push_bytes(buf, lane, 8);
    assert(buf@ =~= before + packet_bytes(*p));
}

/// The bytes of some packets, one after the other.
pub open spec fn frame_bytes(packets: Seq<Packet>) -> Seq<u8>
    decreases packets.len(),
{
    if packets.len() == 0 {
        Seq::empty()
    } else {
        frame_bytes(packets.drop_last()) + packet_bytes(packets.last())
    }
}

/// The bytes of the packets of all vehicles.
pub fn serialize_vehicles(packets: &Vec<Packet>) -> (r: Vec<u8>)
    ensures
        r@ == frame_bytes(packets@),
        r@.len() == PACKET_LENGTH * packets@.len(),
{
    proof {
        lemma_frame_len(packets@);
    }
    let mut buf: Vec<u8> = Vec::new();
    let mut i: usize = 0;
    assert(packets@.take(0) =~= Seq::<Packet>::empty());
    while i < packets.len()
        invariant
            i <= packets@.len(),
            buf@ == frame_bytes(packets@.take(i as int)),
        decreases packets.len() - i,
    {
        assert(packets@.take(i + 1).drop_last() =~= packets@.take(i as int));
        assert(packets@.take(i + 1).last() == packets@[i as int]);
        push_vehicle_packet(&mut buf, &packets[i]);
        i = i + 1;
    }
    assert(packets@.take(i as int) =~= packets@);
    buf
}

/// The character for six bits.
pub open spec fn base64_digit(v: int) -> char {
    if v < 26 {
        (v + 65) as char
    } else if v < 52 {
        (v + 71) as char
    } else if v < 62 {
        (v - 4) as char
    } else if v == 62 {
        '+'
    } else {
        '/'
    }
}

/// Bytes as text: four characters of six bits for each three bytes, and the last group filled up
/// with equals signs.
pub open spec fn base64_text(b: Seq<u8>) -> Seq<char>
    decreases b.len(),
{
    if b.len() == 0 {
        Seq::empty()
    } else if b.len() == 1 {
        seq![base64_digit((b[0] / 4) as int), base64_digit(b[0] % 4 * 16), '=', '=']
    } else if b.len() == 2 {
        seq![
            base64_digit((b[0] / 4) as int),
            base64_digit(b[0] % 4 * 16 + b[1] / 16),
            base64_digit(b[1] % 16 * 4),
            '=',
        ]
    } else {
        seq![
            base64_digit((b[0] / 4) as int),
            base64_digit(b[0] % 4 * 16 + b[1] / 16),
            base64_digit(b[1] % 16 * 4 + b[2] / 64),
            base64_digit((b[2] % 64) as int),
        ] + base64_text(b.skip(3))
    }
}

proof fn lemma_base64_len(b: Seq<u8>)
    ensures
        base64_text(b).len() == (b.len() + 2) / 3 * 4,
    decreases b.len(),
{
    if b.len() >= 3 {
        lemma_base64_len(b.skip(3));
    }
}

/// `base64::Engine::encode` of `base64::engine::general_purpose::STANDARD`: the bytes in the standard
/// alphabet, with padding. The call panics where the text is too long to be held.
#[verifier::external_body]
fn encode_base64(bytes: &Vec<u8>) -> (r: String)
    requires
        (bytes@.len() + 2) / 3 * 4 <= isize::MAX,
    ensures
        r@ == base64_text(bytes@),
{
    base64::engine::general_purpose::STANDARD.encode(bytes)
}

/// The packets of all vehicles as text.
pub fn encode_frame(packets: &Vec<Packet>) -> (r: String)
    requires
        64 * packets@.len() <= isize::MAX,
    ensures
        r@ == base64_text(frame_bytes(packets@)),
        r@.len() == 64 * packets@.len(),
{
    let bytes: Vec<u8> = serialize_vehicles(packets);
    proof {
        lemma_frame_len(packets@);
        lemma_base64_len(bytes@);
    }
    encode_base64(&bytes)
}

proof fn lemma_low_bytes_len(x: int, n: nat)
    ensures
        low_bytes(x, n).len() == n,
    decreases n,
{
    if n > 0 {
        lemma_low_bytes_len(x / 256, (n - 1) as nat);
    }
}

/// A tram is told by its kind; it has no driver, its lane is the first and it does not turn.
pub proof fn law_tram_packet(t: TramVehicle, n: PacketNumbers)
    ensures
        packet_bytes(packet_of_tram(t, n)).len() == PACKET_LENGTH,
        packet_bytes(packet_of_tram(t, n))[28] == 4,
        packet_bytes(packet_of_tram(t, n))[29] == 0,
        packet_bytes(packet_of_tram(t, n))[30] == t.trip_kind,
        packet_bytes(packet_of_tram(t, n))[31] == 0,
{
    let p = packet_of_tram(t, n);
    lemma_packet_len(p);
    lemma_low_bytes_len(p.id as int, 4);
    lemma_low_bytes_len(p.lat_bits as int, 8);
    lemma_low_bytes_len(p.lng_bits as int, 8);
    lemma_low_bytes_len(p.angle_bits as int, 4);
    lemma_low_bytes_len(p.speed_bits as int, 4);
    lemma_low_bytes_len(p.frustration_bits as int, 4);
    lemma_low_bytes_len(p.lateral_bits as int, 4);
}

proof fn lemma_packet_len(p: Packet)
    ensures
        packet_bytes(p).len() == PACKET_LENGTH,
{
    lemma_low_bytes_len(p.id as int, 4);
    lemma_low_bytes_len(p.lat_bits as int, 8);
    lemma_low_bytes_len(p.lng_bits as int, 8);
    lemma_low_bytes_len(p.angle_bits as int, 4);
    lemma_low_bytes_len(p.speed_bits as int, 4);
    lemma_low_bytes_len(p.frustration_bits as int, 4);
    lemma_low_bytes_len(p.lateral_bits as int, 4);
    match p.current_lane_id {
        Some(id) => {
            lemma_low_bytes_len(id as int, 8);
        },
        None => {
            lemma_low_bytes_len(NO_LANE as int, 8);
        },
    }
}

proof fn lemma_frame_len(packets: Seq<Packet>)
    ensures
        frame_bytes(packets).len() == PACKET_LENGTH * packets.len(),
    decreases packets.len(),
{
    if packets.len() > 0 {
        lemma_frame_len(packets.drop_last());
        lemma_packet_len(packets.last());
    }
}

/// A frame holds 48 bytes for each vehicle, and the packet of vehicle `k` at place 48 `k`.
pub proof fn law_frame_layout(packets: Seq<Packet>, k: int)
    requires
        0 <= k < packets.len(),
    ensures
        frame_bytes(packets).len() == PACKET_LENGTH * packets.len(),
        frame_bytes(packets).subrange(PACKET_LENGTH * k, PACKET_LENGTH * k + PACKET_LENGTH)
            == packet_bytes(packets[k]),
    decreases packets.len(),
{
    lemma_frame_len(packets);
    let rest = packets.drop_last();
    lemma_frame_len(rest);
    lemma_packet_len(packets.last());
    let all = frame_bytes(packets);
    let before = frame_bytes(rest);
    if k < rest.len() {
        law_frame_layout(rest, k);
        assert(rest[k] == packets[k]);
        assert(all.subrange(48 * k, 48 * k + 48) =~= before.subrange(48 * k, 48 * k + 48));
    } else {
        assert(all.subrange(48 * k, 48 * k + 48) =~= packet_bytes(packets.last()));
    }
}

/// The fields of a packet lie at their places and can be read back.
pub proof fn law_packet_fields(p: Packet)
    ensures
        packet_bytes(p).len() == PACKET_LENGTH,
        bytes_value(packet_bytes(p).subrange(0, 4)) == p.id,
        bytes_value(packet_bytes(p).subrange(4, 12)) == p.lat_bits,
        bytes_value(packet_bytes(p).subrange(12, 20)) == p.lng_bits,
        bytes_value(packet_bytes(p).subrange(20, 24)) == p.angle_bits,
        bytes_value(packet_bytes(p).subrange(24, 28)) == p.speed_bits,
        packet_bytes(p)[28] == p.vehicle_type,
        packet_bytes(p)[29] == p.profile,
        packet_bytes(p)[30] == p.trip_kind,
        packet_bytes(p)[31] % 128 == p.current_lane % 128,
        (packet_bytes(p)[31] >= 128) == p.on_turn_connector,
        bytes_value(packet_bytes(p).subrange(32, 36)) == p.frustration_bits,
        bytes_value(packet_bytes(p).subrange(36, 40)) == p.lateral_bits,
        bytes_value(packet_bytes(p).subrange(40, 48)) == (match p.current_lane_id {
            Some(id) => id,
            None => NO_LANE,
        }),
{
    lemma_packet_len(p);
    let lane = match p.current_lane_id {
        Some(id) => id,
        None => NO_LANE,
    };
    assert(byte_range(4) == 0x1_0000_0000) by {
        reveal_with_fuel(byte_range, 5);
    }
    assert(byte_range(8) == 0x1_0000_0000_0000_0000) by {
        reveal_with_fuel(byte_range, 9);
    }
    law_bytes_round_trip(p.id as int, 4);
    law_bytes_round_trip(p.lat_bits as int, 8);
    law_bytes_round_trip(p.lng_bits as int, 8);
    law_bytes_round_trip(p.angle_bits as int, 4);
    law_bytes_round_trip(p.speed_bits as int, 4);
    law_bytes_round_trip(p.frustration_bits as int, 4);
    law_bytes_round_trip(p.lateral_bits as int, 4);
    law_bytes_round_trip(lane as int, 8);
    let b = packet_bytes(p);
    assert(b.subrange(0, 4) =~= low_bytes(p.id as int, 4));
    assert(b.subrange(4, 12) =~= low_bytes(p.lat_bits as int, 8));
    assert(b.subrange(12, 20) =~= low_bytes(p.lng_bits as int, 8));
    assert(b.subrange(20, 24) =~= low_bytes(p.angle_bits as int, 4));
    assert(b.subrange(24, 28) =~= low_bytes(p.speed_bits as int, 4));
    assert(b.subrange(32, 36) =~= low_bytes(p.frustration_bits as int, 4));
    assert(b.subrange(36, 40) =~= low_bytes(p.lateral_bits as int, 4));
    assert(b.subrange(40, 48) =~= low_bytes(lane as int, 8));
}

/// The six bits that a character stands for.
pub open spec fn digit_value(c: char) -> int {
    let x = c as int;
    if 65 <= x <= 90 {
        x - 65
    } else if 97 <= x <= 122 {
        x - 71
    } else if 48 <= x <= 57 {
        x + 4
    } else if x == 43 {
        62
    } else {
        63
    }
}

/// Each three bytes can be read from the four characters that stand for them.
pub proof fn law_text_is_readable(b: Seq<u8>, k: int)
    requires
        0 <= k,
        3 * k + 2 < b.len(),
    ensures
        4 * k + 3 < base64_text(b).len(),
        ({
            let t = base64_text(b);
            digit_value(t[4 * k]) * 262_144 + digit_value(t[4 * k + 1]) * 4096 + digit_value(
                t[4 * k + 2],
            ) * 64 + digit_value(t[4 * k + 3]) == b[3 * k] * 65_536 + b[3 * k + 1] * 256 + b[3 * k
                + 2]
        }),
    decreases k,
{
    let t = base64_text(b);
    let rest = base64_text(b.skip(3));
    if k == 0 {
        lemma_digit_read((b[0] / 4) as int);
        lemma_digit_read(b[0] % 4 * 16 + b[1] / 16);
        lemma_digit_read(b[1] % 16 * 4 + b[2] / 64);
        lemma_digit_read((b[2] % 64) as int);
    } else {
        law_text_is_readable(b.skip(3), k - 1);
        assert(t[4 * k] == rest[4 * (k - 1)] && t[4 * k + 1] == rest[4 * (k - 1) + 1] && t[4 * k
            + 2] == rest[4 * (k - 1) + 2] && t[4 * k + 3] == rest[4 * (k - 1) + 3]);
        assert(b.skip(3)[3 * (k - 1)] == b[3 * k] && b.skip(3)[3 * (k - 1) + 1] == b[3 * k + 1]
            && b.skip(3)[3 * (k - 1) + 2] == b[3 * k + 2]);
    }
}

proof fn lemma_digit_read(v: int)
    requires
        0 <= v < 64,
    ensures
        digit_value(base64_digit(v)) == v,
{
}

} // verus!
