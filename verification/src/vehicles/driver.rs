//! How drivers behave.

use vstd::prelude::*;

verus! {

/// A kind of driver.
#[derive(Clone, Copy, Debug, PartialEq, Eq, Structural)]
pub enum DriverProfile {
    Normal,
    Sunday,
    Pirat,
    Cautious,
}

/// What a kind of driver keeps to: lengths in micrometres, times in microseconds, accelerations in
/// micrometres per second squared, factors and points in millionths.
#[derive(Clone, Copy, Debug, PartialEq, Eq, Structural)]
pub struct DriverParams {
    /// Factor on the speed limit.
    pub desired_speed_factor: i64,
    pub time_headway: i64,
    pub min_gap: i64,
    pub comfort_accel: i64,
    pub comfort_decel: i64,
    /// Time of waiting before frustration grows.
    pub wait_threshold: i64,
    /// Points lost in a second of waiting too long.
    pub frustration_decay_rate: i64,
    /// Points recovered in a second of driving.
    pub recovery_rate: i64,
}

impl DriverProfile {
    /// The number of the kind in messages.
    pub open spec fn code(self) -> u8 {
        match self {
            DriverProfile::Normal => 0,
            DriverProfile::Sunday => 1,
            DriverProfile::Pirat => 2,
            DriverProfile::Cautious => 3,
        }
    }

    /// The kind with a number; unknown numbers mean a normal driver.
    pub open spec fn of_code(v: u8) -> DriverProfile {
        if v == 1 {
            DriverProfile::Sunday
        } else if v == 2 {
            DriverProfile::Pirat
        } else if v == 3 {
            DriverProfile::Cautious
        } else {
            DriverProfile::Normal
        }
    }

    /// The kind with a number; unknown numbers mean a normal driver.
    pub fn from_u8(v: u8) -> (r: DriverProfile)
        ensures
            r == DriverProfile::of_code(v),
    {
        match v {
            1 => DriverProfile::Sunday,
            2 => DriverProfile::Pirat,
            3 => DriverProfile::Cautious,
            _ => DriverProfile::Normal,
        }
    }

    /// The number of the kind in messages.
    pub fn to_u8(self) -> (r: u8)
        ensures
            r == self.code(),
    {
        match self {
            DriverProfile::Normal => 0,
            DriverProfile::Sunday => 1,
            DriverProfile::Pirat => 2,
            DriverProfile::Cautious => 3,
        }
    }

    /// What the kind of driver keeps to.
    pub open spec fn params_of(self) -> DriverParams {
        match self {
            DriverProfile::Normal => DriverParams {
                desired_speed_factor: 1_000_000,
                time_headway: 1_500_000,
                min_gap: 10_000_000,
                comfort_accel: 1_500_000,
                comfort_decel: 2_000_000,
                wait_threshold: 45_000_000,
                frustration_decay_rate: 1_000_000,
                recovery_rate: 500_000,
            },
            DriverProfile::Sunday => DriverParams {
                desired_speed_factor: 800_000,
                time_headway: 2_500_000,
                min_gap: 10_000_000,
                comfort_accel: 800_000,
                comfort_decel: 1_500_000,
                wait_threshold: 90_000_000,
                frustration_decay_rate: 400_000,
                recovery_rate: 300_000,
            },
            DriverProfile::Pirat => DriverParams {
                desired_speed_factor: 1_400_000,
                time_headway: 800_000,
                min_gap: 8_000_000,
                comfort_accel: 3_000_000,
                comfort_decel: 5_000_000,
                wait_threshold: 15_000_000,
                frustration_decay_rate: 3_000_000,
                recovery_rate: 1_500_000,
            },
            DriverProfile::Cautious => DriverParams {
                desired_speed_factor: 900_000,
                time_headway: 2_000_000,
                min_gap: 12_000_000,
                comfort_accel: 1_000_000,
                comfort_decel: 2_500_000,
                wait_threshold: 60_000_000,
                frustration_decay_rate: 700_000,
                recovery_rate: 400_000,
            },
        }
    }

    /// What the kind of driver keeps to.
    pub fn params(&self) -> (r: DriverParams)
        ensures
            r == self.params_of(),
    {
        match self {
            DriverProfile::Normal => DriverParams {
                desired_speed_factor: 1_000_000,
                time_headway: 1_500_000,
                min_gap: 10_000_000,
                comfort_accel: 1_500_000,
                comfort_decel: 2_000_000,
                wait_threshold: 45_000_000,
                frustration_decay_rate: 1_000_000,
                recovery_rate: 500_000,
            },
            DriverProfile::Sunday => DriverParams {
                desired_speed_factor: 800_000,
                time_headway: 2_500_000,
                min_gap: 10_000_000,
                comfort_accel: 800_000,
                comfort_decel: 1_500_000,
                wait_threshold: 90_000_000,
                frustration_decay_rate: 400_000,
                recovery_rate: 300_000,
            },
            DriverProfile::Pirat => DriverParams {
                desired_speed_factor: 1_400_000,
                time_headway: 800_000,
                min_gap: 8_000_000,
                comfort_accel: 3_000_000,
                comfort_decel: 5_000_000,
                wait_threshold: 15_000_000,
                frustration_decay_rate: 3_000_000,
                recovery_rate: 1_500_000,
            },
            DriverProfile::Cautious => DriverParams {
                desired_speed_factor: 900_000,
                time_headway: 2_000_000,
                min_gap: 12_000_000,
                comfort_accel: 1_000_000,
                comfort_decel: 2_500_000,
                wait_threshold: 60_000_000,
                frustration_decay_rate: 700_000,
                recovery_rate: 400_000,
            },
        }
    }
}

/// Reading the number of a kind of driver gives the kind back.
pub proof fn law_profile_round_trip(p: DriverProfile)
    ensures
        DriverProfile::of_code(p.code()) == p,
{
}

} // verus!
