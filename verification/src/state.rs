//! Modes and commands of a running simulation.

use vstd::prelude::*;

use crate::simulation::speed_config::SpeedConfig;

verus! {

/// Who switches a signal: the player, the player with a timed yellow, a fixed program, or a
/// program that follows demand.
#[derive(Clone, Copy, Debug, PartialEq, Eq, Structural)]
pub enum LightControlMode {
    Manual,
    SemiAuto,
    Auto,
    Adaptive,
}

/// What the front end asks of a running simulation.
#[derive(Clone, Copy, Debug)]
pub enum SimCommand {
    Pause,
    Resume,
    SetTimeScale(i64),
    SetSpeedConfig(SpeedConfig),
    SetMaxVehicles(usize),
    SetLightMode { intersection_id: u64, mode: LightControlMode },
    SetLightPhase { intersection_id: u64, phase: u8 },
    SetLightDurations { intersection_id: u64, green: i64, red: i64 },
    SetDebugVehicle(Option<u32>),
    Stop,
}

} // verus!
