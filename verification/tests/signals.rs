//! Traffic lights and their programs.

use std::collections::HashMap;

use traffic_control::map::builders::{build_single_intersection_network, build_single_road_network};
use traffic_control::map::road_network::{IntersectionType, LaneDirection};
use traffic_control::state::LightControlMode;
use traffic_control::traffic::intersection::IntersectionManager;
use traffic_control::traffic::phased_traffic_light::{
    build_steps_for_layout, combine_movements, mask_allows, phase_max, JunctionLayout,
    PhasedVehicleLight, ProgramStepKind,
};
use traffic_control::traffic::traffic_light::{mode_label, LightPhase, TrafficLight};

#[test]
fn combine_movements_sets_expected_bits() {
    let m = combine_movements(0, &[LaneDirection::Straight, LaneDirection::Left]);
    assert_eq!(m, 0b1_0001);
    assert_eq!(combine_movements(3, &[LaneDirection::Right]), 1 << 11);
    assert_eq!(combine_movements(2, &[LaneDirection::UTurn]), 1 << 14);
    assert_eq!(combine_movements(4, &[LaneDirection::Straight]), 1 << 16);
    assert!(mask_allows(m, 0, LaneDirection::Straight));
    assert!(mask_allows(m, 0, LaneDirection::Left));
    assert!(!mask_allows(m, 0, LaneDirection::Right));
    assert!(!mask_allows(m, 1, LaneDirection::Straight));
}

#[test]
fn build_steps_four_arms_has_axis_phases() {
    let steps = build_steps_for_layout(4, 10_000_000, 8_000_000, 3_000_000, 2_500_000);
    assert_eq!(steps.len(), 12);
    assert!(matches!(steps[0].kind, ProgramStepKind::Go { .. }));
    assert!(matches!(steps[1].kind, ProgramStepKind::Caution { .. }));
    assert!(matches!(steps[2].kind, ProgramStepKind::AllRed));
}

#[test]
fn build_steps_two_arms_is_sequential() {
    let steps = build_steps_for_layout(2, 10_000_000, 8_000_000, 3_000_000, 2_500_000);
    assert_eq!(steps.len(), 6);
}

fn four_arm_layout() -> JunctionLayout {
    let arms: Vec<usize> = (0..4).collect();
    let mut edge_to_arm = HashMap::new();
    for (i, e) in arms.iter().enumerate() {
        edge_to_arm.insert(*e, i as u8);
    }
    JunctionLayout { arms, edge_to_arm }
}

#[test]
fn first_green_allows_opposing_straight_pair_only() {
    let layout = four_arm_layout();
    let mut ph = PhasedVehicleLight::new(42, layout);
    ph.step_index = 0;
    ph.timer = 0;
    assert_eq!(ph.signal_for(0, LaneDirection::Straight), LightPhase::Green);
    assert_eq!(ph.signal_for(1, LaneDirection::Straight), LightPhase::Red);
}

#[test]
fn manual_mode_does_not_advance_timer() {
    let layout = four_arm_layout();
    let mut ph = PhasedVehicleLight::new(1, layout);
    ph.set_mode(LightControlMode::Manual);
    let idx_before = ph.step_index;
    let t_before = ph.timer;
    ph.update(5_000_000);
    assert_eq!(ph.step_index, idx_before);
    assert_eq!(ph.timer, t_before);
}

#[test]
fn adaptive_mode_increases_time_remaining_for_go_step() {
    let layout = four_arm_layout();
    let mut ph_auto = PhasedVehicleLight::new(3, layout.clone());
    ph_auto.set_mode(LightControlMode::Auto);
    ph_auto.step_index = 0;
    ph_auto.timer = 0;

    let mut ph_adapt = PhasedVehicleLight::new(3, layout);
    ph_adapt.set_mode(LightControlMode::Adaptive);
    ph_adapt.queue_count = 80;
    ph_adapt.step_index = 0;
    ph_adapt.timer = 0;

    assert!(
        ph_adapt.current_time_remaining() > ph_auto.current_time_remaining(),
        "adaptive go phase should last longer with high queue"
    );
}

#[test]
fn arms_of_a_junction_with_three_arms_take_turns() {
    let steps = build_steps_for_layout(3, 10_000_000, 8_000_000, 3_000_000, 2_500_000);
    assert_eq!(steps.len(), 9);
    for arm in 0..3u8 {
        match steps[arm as usize * 3].kind {
            ProgramStepKind::Go { allowed } => {
                for other in 0..3u8 {
                    assert_eq!(mask_allows(allowed, other, LaneDirection::Left), other == arm);
                }
            }
            _ => panic!("a turn starts with green"),
        }
    }
    assert_eq!(build_steps_for_layout(5, 1, 1, 1, 1).len(), 15);
    assert_eq!(build_steps_for_layout(1, 1, 1, 1, 1).len(), 0);
}

#[test]
fn arms_of_larger_junctions_never_move_together() {
    let movements = [
        LaneDirection::Straight,
        LaneDirection::Left,
        LaneDirection::Right,
        LaneDirection::UTurn,
    ];
    for count in [5, 40, 256] {
        let steps = build_steps_for_layout(count, 10_000_000, 8_000_000, 3_000_000, 2_500_000);
        for turn in 0..count {
            let ProgramStepKind::Go { allowed } = steps[3 * turn].kind else {
                panic!("a turn starts with green");
            };
            for arm in 0..count {
                for mv in movements {
                    assert_eq!(mask_allows(allowed, arm as u8, mv), arm == turn);
                }
            }
        }
    }
    for arm in 0..=255 {
        assert_eq!(combine_movements(arm, &[]), 0);
        let both = combine_movements(arm, &[LaneDirection::Left, LaneDirection::UTurn]);
        let (left, back) = (
            combine_movements(arm, &[LaneDirection::Left]),
            combine_movements(arm, &[LaneDirection::UTurn, LaneDirection::UTurn]),
        );
        assert_eq!(both, left | back);
    }
    assert!(!mask_allows(0, 40, LaneDirection::Left));
    let mask = combine_movements(200, &[LaneDirection::Right]);
    assert!(mask_allows(mask, 200, LaneDirection::Right));
    assert!(!mask_allows(mask, 200, LaneDirection::Left));
    assert!(!mask_allows(mask, 0, LaneDirection::Right));
}

#[test]
fn a_program_runs_a_full_cycle() {
    let mut ph = PhasedVehicleLight::new(7, four_arm_layout());
    ph.set_mode(LightControlMode::Auto);
    ph.step_index = 0;
    ph.timer = 0;
    let cycle: i64 = ph.steps.iter().map(|s| s.duration).sum();
    ph.update(cycle);
    assert_eq!((ph.step_index, ph.timer), (0, 0));
    ph.update(ph.steps[0].duration);
    assert_eq!((ph.step_index, ph.timer), (1, 0));
    assert_eq!(ph.signal_for(0, LaneDirection::Straight), LightPhase::Yellow);
    assert_eq!(ph.signal_for(2, LaneDirection::Straight), LightPhase::Yellow);
    assert_eq!(ph.signal_for(1, LaneDirection::Straight), LightPhase::Red);
    assert_eq!(ph.signal_for(9, LaneDirection::Straight), LightPhase::Red);
    ph.force_advance_step();
    assert_eq!((ph.step_index, ph.timer), (2, 0));
    assert_eq!(ph.arm_phase_bytes(), vec![0, 0, 0, 0]);
    assert_eq!(ph.aggregate_phase_byte(), 0);
}

#[test]
fn layout_of_the_sandbox_crossing_has_four_arms() {
    let map = build_single_intersection_network(50_000_000_000, 20_000_000_000, 900_000, 1_400_000);
    let centre = map
        .nodes
        .iter()
        .position(|n| n.osm_id == 100)
        .expect("the crossing has a centre");
    let layout = JunctionLayout::build(&map, centre).expect("it is a junction");
    assert_eq!(layout.arm_count(), 4);
    for (i, e) in layout.arms.iter().enumerate() {
        assert_eq!(layout.arm_for_inbound_edge(*e), Some(i as u8));
        assert_eq!(map.graph.edge_endpoints(*e).map(|x| x.1), Some(centre));
    }
    let ph = PhasedVehicleLight::new_simple_cross(100, layout, &map, centre);
    assert!(ph.simple_cross_arm_pairs.is_some());
    assert!(!ph.steps.is_empty());
}

#[test]
fn light_goes_from_green_over_yellow_to_red() {
    let mut l = TrafficLight::new(5);
    l.set_mode(LightControlMode::Auto);
    l.force_phase(LightPhase::Green);
    assert!(l.is_green());
    let green = l.green_duration;
    let yellow = l.yellow_duration;
    l.update(green);
    assert_eq!(l.current_phase, LightPhase::Yellow);
    l.update(yellow);
    assert!(l.is_red());
    assert_eq!(l.time_remaining(), l.red_duration);
    let red = l.red_duration;
    l.update(red);
    assert!(l.is_green());
}

#[test]
fn manual_light_stays() {
    let mut l = TrafficLight::new(5);
    l.set_mode(LightControlMode::Manual);
    l.force_phase(LightPhase::Green);
    l.update(1_000_000_000);
    assert!(l.is_green());
}

#[test]
fn durations_have_a_least_value() {
    let mut l = TrafficLight::new(5);
    l.set_durations(1, 40_000_000);
    assert_eq!(l.green_duration, 5_000_000);
    assert_eq!(l.red_duration, 40_000_000);
}

#[test]
fn phases_and_modes_are_told() {
    for p in [LightPhase::Red, LightPhase::Yellow, LightPhase::Green] {
        assert_eq!(LightPhase::from_u8(p.to_u8()), p);
    }
    assert_eq!(mode_label(LightControlMode::SemiAuto), "semi_auto");
    let l = TrafficLight::new(9);
    let u = l.to_state_update();
    assert_eq!(u.intersection_id, 9);
    assert_eq!(u.phase, l.current_phase.to_u8());
    assert!(u.junction_arm_phases.is_none());
}

#[test]
fn nodes_without_a_sign_let_everyone_pass() {
    let map = build_single_road_network(50_000_000_000, 20_000_000_000, 1_000_000);
    let mut lights = IntersectionManager::from_graph(&map);
    assert!(lights.can_vehicle_proceed(0, false));
    assert!(lights.can_vehicle_proceed(77, false));
    assert_eq!(map.nodes[1].intersection_type, IntersectionType::PedestrianCrossing);
    lights.set_phase(100, LightPhase::Red.to_u8());
    assert!(!lights.can_vehicle_proceed(100, false));
    lights.set_phase(100, LightPhase::Green.to_u8());
    assert!(lights.can_vehicle_proceed(100, false));
    assert!(lights.can_proceed(100));
    assert!(!lights.is_stop_node(100));
    assert_eq!(lights.all_state_updates().len(), 1);
    lights.set_mode(100, LightControlMode::Manual);
    assert_eq!(lights.traffic_lights[0].mode, LightControlMode::Manual);
    lights.set_durations(100, 60_000_000, 2);
    assert_eq!(lights.traffic_lights[0].green_duration, 60_000_000);
    assert_eq!(lights.traffic_lights[0].red_duration, 5_000_000);
    lights.update_queue(100, 4);
    assert_eq!(lights.traffic_lights[0].queue_count, 4);
}

#[test]
fn lights_tell_only_changes() {
    let map = build_single_road_network(50_000_000_000, 20_000_000_000, 1_000_000);
    let mut lights = IntersectionManager::from_graph(&map);
    lights.set_mode(100, LightControlMode::Auto);
    lights.set_phase(100, LightPhase::Green.to_u8());
    let green = lights.traffic_lights[0].green_duration;
    let updates = lights.update(green);
    assert_eq!(updates.len(), 1);
    assert_eq!(updates[0].phase, LightPhase::Yellow.to_u8());
}

#[test]
fn the_better_of_two_phases_has_the_larger_number() {
    let all = [LightPhase::Red, LightPhase::Yellow, LightPhase::Green];
    for a in all {
        for b in all {
            assert_eq!(phase_max(a, b).to_u8(), a.to_u8().max(b.to_u8()));
        }
        assert_eq!(phase_max(a, LightPhase::Red), a);
    }
}
