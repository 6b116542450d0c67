//! Kinds of vehicles.

use vstd::prelude::*;

verus! {

/// A kind of vehicle.
#[derive(Clone, Copy, Debug, PartialEq, Eq, Structural)]
pub enum VehicleType {
    Car,
    Van,
    Bus,
    Truck,
    Tram,
}

/// Sizes in micrometres, speeds in micrometres per second, accelerations in micrometres per second
/// squared.
#[derive(Clone, Copy, Debug)]
pub struct VehicleTypeParams {
    pub width: i64,
    pub length: i64,
    pub max_speed: i64,
    pub max_accel: i64,
    pub max_decel: i64,
    pub color_rgb: (u8, u8, u8),
}

impl VehicleType {
    /// The number of the kind in messages.
    pub open spec fn code(self) -> u8 {
        match self {
            VehicleType::Car => 0,
            VehicleType::Van => 1,
            VehicleType::Bus => 2,
            VehicleType::Truck => 3,
            VehicleType::Tram => 4,
        }
    }

    /// The kind with a number; unknown numbers mean a car.
    pub open spec fn of_code(v: u8) -> VehicleType {
        if v == 1 {
            VehicleType::Van
        } else if v == 2 {
            VehicleType::Bus
        } else if v == 3 {
            VehicleType::Truck
        } else if v == 4 {
            VehicleType::Tram
        } else {
            VehicleType::Car
        }
    }

    /// The kind with a number; unknown numbers mean a car.
    pub fn from_u8(v: u8) -> (r: VehicleType)
        ensures
            r == VehicleType::of_code(v),
    {
        match v {
            1 => VehicleType::Van,
            2 => VehicleType::Bus,
            3 => VehicleType::Truck,
            4 => VehicleType::Tram,
            _ => VehicleType::Car,
        }
    }

    /// The number of the kind in messages.
    pub fn to_u8(self) -> (r: u8)
        ensures
            r == self.code(),
    {
        match self {
            VehicleType::Car => 0,
            VehicleType::Van => 1,
            VehicleType::Bus => 2,
            VehicleType::Truck => 3,
            VehicleType::Tram => 4,
        }
    }

    /// Size and limits of the kind.
    pub open spec fn params_of(self) -> VehicleTypeParams {
        match self {
            VehicleType::Car => VehicleTypeParams {
                width: 1_800_000,
                length: 4_500_000,
                max_speed: 13_888_889,
                max_accel: 3_000_000,
                max_decel: 5_000_000,
                color_rgb: (70, 130, 180),
            },
            VehicleType::Van => VehicleTypeParams {
                width: 2_000_000,
                length: 6_000_000,
                max_speed: 11_111_111,
                max_accel: 2_000_000,
                max_decel: 4_000_000,
                color_rgb: (218, 165, 32),
            },
            VehicleType::Bus => VehicleTypeParams {
                width: 2_500_000,
                length: 12_000_000,
                max_speed: 8_333_333,
                max_accel: 1_200_000,
                max_decel: 3_000_000,
                color_rgb: (255, 140, 0),
            },
            VehicleType::Truck => VehicleTypeParams {
                width: 2_600_000,
                length: 16_000_000,
                max_speed: 6_944_444,
                max_accel: 800_000,
                max_decel: 2_000_000,
                color_rgb: (139, 0, 0),
            },
            VehicleType::Tram => VehicleTypeParams {
                width: 2_400_000,
                length: 20_000_000,
                max_speed: 11_111_111,
                max_accel: 1_200_000,
                max_decel: 2_000_000,
                color_rgb: (255, 215, 0),
            },
        }
    }

    /// Size and limits of the kind.
    pub fn params(&self) -> (r: VehicleTypeParams)
        ensures
            r == self.params_of(),
    {
        match self {
            VehicleType::Car => VehicleTypeParams {
                width: 1_800_000,
                length: 4_500_000,
                max_speed: 13_888_889,
                max_accel: 3_000_000,
                max_decel: 5_000_000,
                color_rgb: (70, 130, 180),
            },
            VehicleType::Van => VehicleTypeParams {
                width: 2_000_000,
                length: 6_000_000,
                max_speed: 11_111_111,
                max_accel: 2_000_000,
                max_decel: 4_000_000,
                color_rgb: (218, 165, 32),
            },
            VehicleType::Bus => VehicleTypeParams {
                width: 2_500_000,
                length: 12_000_000,
                max_speed: 8_333_333,
                max_accel: 1_200_000,
                max_decel: 3_000_000,
                color_rgb: (255, 140, 0),
            },
            VehicleType::Truck => VehicleTypeParams {
                width: 2_600_000,
                length: 16_000_000,
                max_speed: 6_944_444,
                max_accel: 800_000,
                max_decel: 2_000_000,
                color_rgb: (139, 0, 0),
            },
            VehicleType::Tram => VehicleTypeParams {
                width: 2_400_000,
                length: 20_000_000,
                max_speed: 11_111_111,
                max_accel: 1_200_000,
                max_decel: 2_000_000,
                color_rgb: (255, 215, 0),
            },
        }
    }

    /// Half the diagonal of the vehicle's outline, to the micrometre.
    pub open spec fn radius(self) -> i64 {
        match self {
            VehicleType::Car => 2_423_324,
            VehicleType::Van => 3_162_277,
            VehicleType::Bus => 6_128_825,
            VehicleType::Truck => 8_104_936,
            VehicleType::Tram => 10_071_742,
        }
    }

    /// Half the diagonal of the vehicle's outline, to the micrometre.
    pub fn path_radius(&self) -> (r: i64)
        ensures
            r == self.radius(),
    {
        match self {
            VehicleType::Car => 2_423_324,
            VehicleType::Van => 3_162_277,
            VehicleType::Bus => 6_128_825,
            VehicleType::Truck => 8_104_936,
            VehicleType::Tram => 10_071_742,
        }
    }
}

/// Reading the number of a kind of vehicle gives the kind back.
pub proof fn law_vehicle_type_round_trip(t: VehicleType)
    ensures
        VehicleType::of_code(t.code()) == t,
{
}

/// The radius of a vehicle is half its diagonal, rounded down to the micrometre.
pub proof fn law_radius_is_half_diagonal(t: VehicleType)
    ensures
        is_half_diagonal(t.params_of().length as int, t.params_of().width as int, t.radius() as int),
{
    assert(is_half_diagonal(4_500_000, 1_800_000, 2_423_324)) by (nonlinear_arith);
    assert(is_half_diagonal(6_000_000, 2_000_000, 3_162_277)) by (nonlinear_arith);
    assert(is_half_diagonal(12_000_000, 2_500_000, 6_128_825)) by (nonlinear_arith);
    assert(is_half_diagonal(16_000_000, 2_600_000, 8_104_936)) by (nonlinear_arith);
    assert(is_half_diagonal(20_000_000, 2_400_000, 10_071_742)) by (nonlinear_arith);
}

/// Whether `r` is half the diagonal of a rectangle, rounded down.
pub open spec fn is_half_diagonal(length: int, width: int, r: int) -> bool {
    4 * (r * r) <= length * length + width * width < 4 * ((r + 1) * (r + 1))
}

} // verus!
