//! Curves, lines and the cars on them.

use traffic_control::map::curves::{
    build_lane_connector_with_fallback, lane_center_offset, lane_line, line_intersection,
    merge_close_points, offset_polyline, segment_intersection_xy, unit_of, Cubic,
};
use traffic_control::map::polyline::{
    closest_arclength_on_path, is_in_plane, length_of, resample_polyline_min_intervals,
    sample_path_at,
};
use traffic_control::simulation::bezier_smooth::{
    bezier_state_to_geo, BezierPath, CarState, Simulation, FULL_TURN, HALF_TURN, LUT_SAMPLES,
};
use traffic_control::simulation::crossings::{connector_crossings, step_pairs, way_crossings};
use traffic_control::simulation::route_line::{
    connector_polyline_segment_count_for_arc, draw_route, orient_polyline_forward,
    polyline_segment_intersection, push_route_dedupe, stitch_route,
    trim_polyline_backtrack_from_anchor, trim_polyline_outbound_spike_after_connector, LineStep,
};
use traffic_control::simulation::sim_loop::PHYSICS_DT;
use traffic_control::units::FULL;

const M: i64 = 1_000_000;

fn straight_path() -> BezierPath {
    BezierPath::new((0, 0), (50 * M, 0), (100 * M, 0))
}

fn arc_path() -> BezierPath {
    BezierPath::new((M, 0), (M, M), (0, M))
}

fn rotation_of(d: (i64, i64)) -> i64 {
    ((d.1 as f64).atan2(d.0 as f64) * 1_000_000.0).round() as i64
}

#[test]
fn lut_starts_at_zero() {
    let p = straight_path();
    assert_eq!(p.lut[0], 0);
}

#[test]
fn lut_ends_at_total_length() {
    let p = straight_path();
    assert_eq!(p.lut[LUT_SAMPLES - 1], p.total_length);
}

#[test]
fn lut_is_monotonically_non_decreasing() {
    let p = arc_path();
    for w in p.lut.windows(2) {
        assert!(w[1] >= w[0], "LUT is not monotone: {} < {}", w[1], w[0]);
    }
}

#[test]
fn straight_path_total_length_approx_100() {
    let p = straight_path();
    assert!((p.total_length - 100 * M).abs() < M / 100, "length={}", p.total_length);
}

#[test]
fn get_state_at_zero_is_start() {
    let p = straight_path();
    let s = p.get_state(0);
    assert_eq!(s.position, (0, 0));
}

#[test]
fn get_state_at_total_length_is_end() {
    let p = straight_path();
    let s = p.get_state(p.total_length);
    assert!((s.position.0 - 100 * M).abs() < M / 100);
    assert_eq!(s.position.1, 0);
}

#[test]
fn get_state_at_midpoint_of_straight_is_midpoint() {
    let p = straight_path();
    let s = p.get_state(p.total_length / 2);
    assert!((s.position.0 - 50 * M).abs() < M / 5, "x={}", s.position.0);
    assert_eq!(s.position.1, 0);
}

#[test]
fn straight_path_heading_is_zero_radians() {
    let p = straight_path();
    for frac in [0, 1, 2, 3, 4] {
        let s = p.get_state(p.total_length * frac / 4);
        let rotation = rotation_of(s.direction);
        assert_eq!(rotation, 0, "rotation={} at frac={}", rotation, frac);
    }
}

#[test]
fn lerp_alpha_zero_returns_a() {
    let a = CarState { position: (0, 0), rotation: 0 };
    let b = CarState { position: (10 * M, 0), rotation: M };
    let r = CarState::lerp(&a, &b, 0);
    assert_eq!(r.position, a.position);
    assert_eq!(r.rotation, a.rotation);
}

#[test]
fn lerp_alpha_one_returns_b() {
    let a = CarState { position: (0, 0), rotation: 0 };
    let b = CarState { position: (10 * M, 0), rotation: M };
    let r = CarState::lerp(&a, &b, FULL);
    assert_eq!(r.position.0, 10 * M);
    assert_eq!(r.rotation, M);
}

#[test]
fn lerp_midpoint() {
    let a = CarState { position: (0, 0), rotation: 0 };
    let b = CarState { position: (10 * M, 0), rotation: 2 * M };
    let r = CarState::lerp(&a, &b, FULL / 2);
    assert_eq!(r.position.0, 5 * M);
    assert_eq!(r.rotation, M);
}

#[test]
fn lerp_angle_shortest_arc_across_pi() {
    let a = CarState { position: (0, 0), rotation: HALF_TURN - 100_000 };
    let b = CarState { position: (0, 0), rotation: -(HALF_TURN - 100_000) };
    let r = CarState::lerp(&a, &b, FULL / 2);
    assert!(r.rotation.abs() > HALF_TURN - 200_000, "rotation={}", r.rotation);
}

#[test]
fn lerp_angle_no_wrap_needed() {
    let a = CarState { position: (0, 0), rotation: 0 };
    let b = CarState { position: (0, 0), rotation: 1_570_796 };
    let r = CarState::lerp(&a, &b, FULL / 2);
    assert_eq!(r.rotation, 1_570_796 / 2);
}

#[test]
fn simulation_advances_distance_per_step() {
    let p = straight_path();
    let speed = 10 * M;
    let mut sim = Simulation::new(p, speed, 0);
    let d_before = sim.distance;
    sim.step(0);
    let expected = speed * PHYSICS_DT / 1_000_000;
    assert_eq!(sim.distance - d_before, expected);
}

#[test]
fn simulation_wraps_at_total_length() {
    let p = straight_path();
    let len = p.total_length;
    let speed = len * 1_000_000 / PHYSICS_DT + M;
    let mut sim = Simulation::new(p, speed, 0);
    sim.step(0);
    assert!(sim.distance < len, "distance={} should be < {}", sim.distance, len);
}

#[test]
fn simulation_previous_equals_current_before_first_step() {
    let p = straight_path();
    let sim = Simulation::new(p, 10 * M, 0);
    assert_eq!(sim.previous_state.position, sim.current_state.position);
}

#[test]
fn simulation_previous_is_old_current_after_step() {
    let p = straight_path();
    let mut sim = Simulation::new(p, 10 * M, 0);
    let pos_before = sim.current_state.position;
    let ahead = sim.upcoming();
    sim.step(rotation_of(ahead.direction));
    assert_eq!(sim.previous_state.position, pos_before);
    assert_eq!(sim.current_state.position, ahead.position);
}

#[test]
fn tick_returns_residual_less_than_physics_dt() {
    let mut sim = Simulation::new(straight_path(), 10 * M, 0);
    let states = sim.states_due(1_000_000 / 30, 0);
    let rotations = states.iter().map(|s| rotation_of(s.direction)).collect();
    let residual = sim.tick(1_000_000 / 30, 0, &rotations);
    assert!(residual >= 0);
    assert!(residual < PHYSICS_DT);
    assert_eq!(states.len() as i64 * PHYSICS_DT + residual, 1_000_000 / 30);
    assert_eq!(sim.current_state.position, states[states.len() - 1].position);
    assert_eq!(Simulation::steps_due(10_000_000, 0), (14, 250_000 - 14 * PHYSICS_DT));
    assert_eq!(Simulation::steps_due(-7, 3), (0, -4));
}

#[test]
fn ticks_do_the_steps_that_are_due() {
    let mut one = Simulation::new(straight_path(), 10 * M, 0);
    let mut other = Simulation::new(straight_path(), 10 * M, 0);
    let residual = one.tick(3 * PHYSICS_DT, 5, &vec![1, 2, 3]);
    assert_eq!(residual, 5);
    for r in [1, 2, 3] {
        other.step(r);
    }
    assert_eq!(one.distance, other.distance);
    assert_eq!(one.current_state.position, other.current_state.position);
    assert_eq!(one.current_state.rotation, 3);
    assert_eq!(one.previous_state.rotation, 2);
    assert_eq!(one.tick(PHYSICS_DT - 6, 5, &vec![]), PHYSICS_DT - 1);
    assert_eq!(one.distance, other.distance);
}

#[test]
fn render_state_alpha_zero_equals_previous() {
    let p = straight_path();
    let mut sim = Simulation::new(p, 10 * M, 0);
    sim.step(0);
    let rendered = sim.render_state(0);
    assert_eq!(rendered.position, sim.previous_state.position);
}

#[test]
fn render_state_alpha_one_equals_current() {
    let p = straight_path();
    let mut sim = Simulation::new(p, 10 * M, 0);
    sim.step(0);
    let rendered = sim.render_state(PHYSICS_DT);
    assert_eq!(rendered.position, sim.current_state.position);
}

#[test]
fn render_state_is_between_previous_and_current() {
    let p = straight_path();
    let mut sim = Simulation::new(p, 10 * M, 0);
    for _ in 0..5 {
        sim.step(0);
    }
    let residual = PHYSICS_DT / 2;
    let rendered = sim.render_state(residual);

    let min_x = sim.previous_state.position.0.min(sim.current_state.position.0);
    let max_x = sim.previous_state.position.0.max(sim.current_state.position.0);
    assert!(
        rendered.position.0 >= min_x && rendered.position.0 <= max_x,
        "rendered x={} not in [{}, {}]",
        rendered.position.0,
        min_x,
        max_x,
    );
}

#[test]
fn curve_of_a_point_keeps_looking_ahead() {
    let p = BezierPath::new((0, 0), (0, 0), (10 * M, 0));
    let s = p.get_state(0);
    assert_eq!(s.position, (0, 0));
    assert!(s.direction.0 >= 0 && s.direction.1 == 0);
    assert_eq!(p.eval(0), (0, 0));
    assert_eq!(p.eval(FULL), (10 * M, 0));
    assert_eq!(p.eval(FULL / 2), (10 * M / 4, 0));
    assert_eq!(p.tangent(FULL), (20 * M, 0));
    assert_eq!(p.distance_to_t(-5), 0);
    assert_eq!(p.distance_to_t(p.total_length + 5), FULL);
}

#[test]
fn heading_is_told_from_north() {
    let east = CarState { position: (71_700 * M, 111_320 * M), rotation: 0 };
    let (lat, lng, angle) = bezier_state_to_geo(&east);
    assert_eq!((lat, lng), (1_000_000_000, 1_000_000_000));
    assert_eq!(angle, 1_570_796);
    let south = CarState { position: (0, 0), rotation: -1_570_797 };
    assert_eq!(bezier_state_to_geo(&south).2, 1_570_796 + 1_570_797);
    let west = CarState { position: (0, 0), rotation: -3_000_000 };
    assert_eq!(bezier_state_to_geo(&west).2, 4_570_796 - FULL_TURN);
}

#[test]
fn ends_of_a_line_are_found() {
    let line = vec![(0, 0), (100 * M, 0)];
    assert_eq!(closest_arclength_on_path(&line, 100 * M, (0, 0)), Some(0));
    assert_eq!(closest_arclength_on_path(&line, 100 * M, (100 * M, 0)), Some(100 * M));
    assert_eq!(closest_arclength_on_path(&line, 100 * M, (40 * M, M)), Some(40 * M));
    assert_eq!(closest_arclength_on_path(&line, 100 * M, (40 * M, 3 * M)), Some(0));
    assert_eq!(closest_arclength_on_path(&line, 100 * M, (60 * M, 3 * M)), Some(100 * M));
    assert_eq!(closest_arclength_on_path(&vec![(0, 0)], 0, (0, 0)), None);
    assert_eq!(closest_arclength_on_path(&vec![(0, 0), (0, 0)], 0, (0, 0)), None);
}

#[test]
fn places_along_a_line() {
    let line = vec![(0, 0), (30 * M, 0), (30 * M, 40 * M)];
    assert_eq!(length_of(&line), 70 * M);
    let s = sample_path_at(&line, 70 * M, 50 * M).unwrap();
    assert_eq!(s.place, (30 * M, 20 * M));
    assert_eq!(s.direction, (0, 40 * M));
    let end = sample_path_at(&line, 70 * M, 500 * M).unwrap();
    assert_eq!(end.place, (30 * M, 40 * M));
    let short = sample_path_at(&line, 10_000, 5).unwrap();
    assert_eq!(short.place, (0, 0));
    assert!(sample_path_at(&vec![(1, 1)], 5, 5).is_none());
    let cut = resample_polyline_min_intervals(&line, 7);
    assert_eq!(cut.len(), 8);
    assert_eq!(cut[0], (0, 0));
    assert_eq!(cut[3], (30 * M, 0));
    assert_eq!(cut[5], (30 * M, 20 * M));
    assert_eq!(cut[7], (30 * M, 40 * M));
    assert_eq!(resample_polyline_min_intervals(&vec![(3, 3)], 5), vec![(3, 3)]);
}

#[test]
fn lanes_lie_beside_the_middle() {
    assert_eq!(lane_center_offset(0, 1, false, 3_500_000), 1_750_000);
    assert_eq!(lane_center_offset(1, 2, false, 3_500_000), 5_250_000);
    assert_eq!(lane_center_offset(0, 2, true, 3_500_000), -1_750_000);
    assert_eq!(lane_center_offset(1, 2, true, 3_500_000), 1_750_000);
    assert_eq!(unit_of(3 * M, 4 * M), (600_000_000, 800_000_000));
    assert_eq!(unit_of(0, 0), (0, 0));
    let east = offset_polyline(&vec![(0, 0), (10 * M, 0)], M);
    assert_eq!(east, vec![(0, -M), (10 * M, -M)]);
    assert_eq!(offset_polyline(&vec![(7, 7)], M), vec![(7, 7)]);
    let lane = lane_line((0, 0), (0, 120 * M), 2 * M);
    assert_eq!(lane.len(), 13);
    assert_eq!(lane[0], (2 * M, 0));
    assert_eq!(lane[12], (2 * M, 120 * M));
    assert!(is_in_plane(&lane));
    assert!(!is_in_plane(&vec![(i64::MAX, 0)]));
}

#[test]
fn connectors_are_set_back_from_the_junction() {
    let from = vec![(-50 * M, 0), (0, 0)];
    let to = vec![(10 * M, 10 * M), (10 * M, 60 * M)];
    let c = build_lane_connector_with_fallback(&from, &to).unwrap();
    assert_eq!(
        c,
        Cubic {
            p0: (-7 * M, 0),
            p1: (-2 * M, 0),
            p2: (10 * M, 12 * M),
            p3: (10 * M, 17 * M),
        }
    );
    let line = c.sampled();
    assert_eq!(line.len(), 41);
    assert_eq!(line[0], c.p0);
    assert_eq!(line[40], c.p3);
    let meeting = build_lane_connector_with_fallback(&vec![(0, 0)], &vec![(0, 0)]).unwrap();
    assert_eq!(meeting.p0, (-3 * M, 0));
    assert_eq!(meeting.p3, (3 * M, 0));
    assert!(build_lane_connector_with_fallback(&vec![], &to).is_none());
}

#[test]
fn lines_cross_where_they_should() {
    assert_eq!(
        line_intersection((0, 0), (FULL, 0), (5 * M, -5 * M), (0, FULL)),
        Some((5 * M as i128, 0))
    );
    assert_eq!(line_intersection((0, 0), (FULL, 0), (0, M), (FULL, 0)), None);
    assert_eq!(
        segment_intersection_xy(((0, 0), (10 * M, 0)), ((4 * M, -M), (4 * M, M))),
        Some((4 * M, 0))
    );
    assert_eq!(
        segment_intersection_xy(((0, 0), (10 * M, 0)), ((14 * M, -M), (14 * M, M))),
        None
    );
    assert_eq!(segment_intersection_xy(((0, 0), (M, 0)), ((0, 1), (M, 1))), None);
    let a = LineStep { from: (0, 0), to: (10 * M, 0), way_from: 0, way_to: 10 * M };
    let b = LineStep { from: (4 * M, -M), to: (4 * M, M), way_from: 6 * M, way_to: 8 * M };
    let c = polyline_segment_intersection(a, b, true).unwrap();
    assert_eq!(c.place, (4 * M, 0));
    assert_eq!((c.along_a, c.along_b), (4 * M, 7 * M));
    assert!(polyline_segment_intersection(a, b, false).is_none());
    assert!(polyline_segment_intersection(a, a, true).is_none());
}

#[test]
fn close_places_merge() {
    let merged = merge_close_points(&vec![(0, 0), (10 * M, 0), (M, 0), (30 * M, 0)], 2 * M);
    assert_eq!(merged, vec![(M / 2, 0), (10 * M, 0), (30 * M, 0)]);
    assert_eq!(merge_close_points(&vec![], M), vec![]);
}

#[test]
fn drawn_routes_are_freed_of_spikes() {
    let mut points = vec![];
    push_route_dedupe(&mut points, (0, 0), 200);
    push_route_dedupe(&mut points, (14_339, -22_263), 200);
    push_route_dedupe(&mut points, (14_340, 0), 200);
    push_route_dedupe(&mut points, (14_340, 22_264), 200);
    assert_eq!(points, vec![(0, 0), (14_340, 0), (14_340, 22_264)]);
    let mut seg = vec![(0, 0), (10 * M, 0)];
    orient_polyline_forward(&mut seg, Some((FULL, 0)));
    assert_eq!(seg, vec![(0, 0), (10 * M, 0)]);
    orient_polyline_forward(&mut seg, Some((-FULL, 0)));
    assert_eq!(seg, vec![(10 * M, 0), (0, 0)]);
    orient_polyline_forward(&mut seg, None);
    assert_eq!(seg, vec![(10 * M, 0), (0, 0)]);
    let mut back = vec![(5 * M, 0), (3 * M, 0), (20 * M, 0)];
    trim_polyline_backtrack_from_anchor(&mut back, (0, 0), 4);
    assert_eq!(back, vec![(3 * M, 0), (20 * M, 0)]);
    let mut spike = vec![(-2 * M, 0), (-M, 0), (4 * M, 0)];
    trim_polyline_outbound_spike_after_connector(&mut spike, (0, 0), (FULL, 0), 1);
    assert_eq!(spike, vec![(-M, 0), (4 * M, 0)]);
    trim_polyline_outbound_spike_after_connector(&mut spike, (0, 0), (FULL, 0), 9);
    assert_eq!(spike, vec![(4 * M, 0)]);
    assert_eq!(connector_polyline_segment_count_for_arc(0), 11);
    assert_eq!(connector_polyline_segment_count_for_arc(11_000_001), 21);
    assert_eq!(connector_polyline_segment_count_for_arc(1_000 * M), 140);
}

#[test]
fn routes_are_stitched_of_their_pieces() {
    let east = (FULL, 0);
    let lane = vec![(-M, 0), (5 * M, 0), (10 * M, 0)];
    let connector = vec![(20 * M, 10 * M), (15 * M, 2 * M), (10 * M, 0)];
    let out = vec![(20 * M, M), (20 * M, 4 * M), (20 * M, 30 * M)];
    let pieces = vec![(false, lane), (true, connector), (false, vec![]), (false, out)];
    assert_eq!(
        stitch_route((0, 0), east, &pieces),
        vec![
            (0, 0),
            (5 * M, 0),
            (10 * M, 0),
            (15 * M, 2 * M),
            (20 * M, 10 * M),
            (20 * M, 30 * M),
        ]
    );
    assert_eq!(stitch_route((3, 4), east, &vec![]), vec![(3, 4)]);
    let near = vec![(false, vec![(0, 0), (716, 1_113), (717, 0)])];
    assert_eq!(stitch_route((0, 0), east, &near), vec![(0, 0), (717, 0)]);
}

#[test]
fn turns_are_drawn_where_the_lanes_show_no_step() {
    let east = (FULL, 0);
    let lanes = vec![(false, vec![(M, 0), (2 * M, 0)])];
    let turn = Some((true, vec![(9 * M, 0), (5 * M, 0)]));
    let ahead = vec![vec![(9 * M, 20 * M), (9 * M, M)], vec![]];
    assert_eq!(
        draw_route((0, 0), east, &lanes, &turn, &ahead),
        vec![(0, 0), (M, 0), (2 * M, 0)]
    );
    assert_eq!(
        draw_route((0, 0), east, &vec![], &turn, &ahead),
        vec![(0, 0), (5 * M, 0), (9 * M, 0), (9 * M, 20 * M), (9 * M, M)]
    );
    let curve = Some((false, vec![(0, 0), (9 * M, 0), (5 * M, 0)]));
    assert_eq!(
        draw_route((0, 0), east, &vec![], &curve, &vec![]),
        vec![(0, 0), (5 * M, 0), (9 * M, 0)]
    );
    assert_eq!(draw_route((0, 0), east, &vec![], &None, &vec![]), vec![(0, 0)]);
}

#[test]
fn connectors_cross_in_the_order_of_the_list() {
    let flat = vec![((0, 0), (10 * M, 0)), ((10 * M, 0), (20 * M, 0))];
    let steep = vec![((5 * M, -M), (5 * M, M))];
    let twice = vec![((2 * M, -M), (2 * M, M)), ((2 * M, M), (15 * M, -M))];
    let far = vec![((0, 90 * M), (M, 90 * M))];
    let found = connector_crossings(&vec![4, 7, 9, 12], &vec![flat, far, steep, twice]);
    let ids: Vec<(u64, u64)> = found.iter().map(|c| c.ids).collect();
    assert_eq!(ids, vec![(4, 9), (4, 12), (4, 12), (9, 12)]);
    assert_eq!(found[0].place, (5 * M, 0));
    assert_eq!(found[1].place, (2 * M, 0));
    assert_eq!(found[2].place, (8 * M + M / 2, 0));
}

#[test]
fn ways_cross_where_their_steps_touch() {
    let step = |from, to, way_from, way_to| LineStep { from, to, way_from, way_to };
    let lines = vec![
        vec![step((0, 0), (10 * M, 0), 0, 10 * M), step((10 * M, 0), (20 * M, 0), 10 * M, 20 * M)],
        vec![step((4 * M, -M), (4 * M, M), 6 * M, 8 * M)],
        vec![step((12 * M, -M), (12 * M, M), 0, 2 * M)],
    ];
    let pairs = step_pairs(&lines);
    let places: Vec<(usize, usize, usize, usize)> =
        pairs.iter().map(|p| (p.a, p.b, p.s, p.t)).collect();
    assert_eq!(
        places,
        vec![(0, 1, 0, 0), (0, 1, 1, 0), (0, 2, 0, 0), (0, 2, 1, 0), (1, 2, 0, 0)]
    );
    let found = way_crossings(&lines, &pairs, &vec![true, false, false, true, true]);
    assert_eq!(found.len(), 2);
    assert_eq!((found[0].a, found[0].b, found[0].x, found[0].y), (0, 1, 4 * M, 0));
    assert_eq!((found[0].along_a, found[0].along_b), (4 * M, 7 * M));
    assert_eq!((found[1].a, found[1].b, found[1].along_a), (0, 2, 12 * M));
    assert!(way_crossings(&lines, &pairs, &vec![false; 5]).is_empty());
}
