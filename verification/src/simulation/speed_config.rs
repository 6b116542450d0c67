//! How fast drivers go and what makes them angry.

use vstd::prelude::*;

use crate::vehicles::driver::DriverProfile;

verus! {

/// Factors on speed limits, in millionths: the usual one and the range that noise stays in.
#[derive(Clone, Copy, Debug)]
pub struct ComplianceRange {
    pub base: i64,
    pub min: i64,
    pub max: i64,
}

/// How routes are planned; preferences in millionths, from 0 for the shortest to a million for the
/// fastest.
#[derive(Clone, Copy, Debug)]
pub struct RouteConfig {
    /// Speed to which preferences refer.
    pub ref_speed: i64,
    /// Spread of the noise on preferences.
    pub noise_sigma: i64,
    pub normal_alpha: (i64, i64),
    pub sunday_alpha: (i64, i64),
    pub pirat_alpha: (i64, i64),
    pub cautious_alpha: (i64, i64),
}

/// One value for each kind of driver.
#[derive(Clone, Copy, Debug)]
pub struct PerProfile {
    pub normal: i64,
    pub sunday: i64,
    pub pirat: i64,
    pub cautious: i64,
}

impl PerProfile {
    /// The value for a kind of driver.
    pub open spec fn of(self, p: DriverProfile) -> i64 {
        match p {
            DriverProfile::Normal => self.normal,
            DriverProfile::Sunday => self.sunday,
            DriverProfile::Pirat => self.pirat,
            DriverProfile::Cautious => self.cautious,
        }
    }

    /// The value for a kind of driver.
    pub fn get(&self, p: DriverProfile) -> (r: i64)
        ensures
            r == self.of(p),
    {
        match p {
            DriverProfile::Normal => self.normal,
            DriverProfile::Sunday => self.sunday,
            DriverProfile::Pirat => self.pirat,
            DriverProfile::Cautious => self.cautious,
        }
    }
}

/// What makes drivers angry: times in microseconds, points and parts in millionths, rates in
/// millionths of points per second.
#[derive(Clone, Copy, Debug)]
pub struct RageConfig {
    /// Time of standing before frustration grows faster and faster.
    pub standstill_threshold: PerProfile,
    /// Growth while standing.
    pub decay_rate_linear: PerProfile,
    /// Recovery while driving.
    pub recovery_rate: PerProfile,
    /// Part of the speed limit below which a vehicle crawls.
    pub crawl_fraction: i64,
    /// Time of crawling before frustration grows.
    pub crawl_threshold: i64,
    /// Growth while crawling.
    pub crawl_rate: PerProfile,
    /// Growth at another stop at the same junction.
    pub repeat_stop_bonus: PerProfile,
    /// Average frustration above which the game is lost in the end.
    pub global_loss_threshold: i64,
    /// For how long the average may stay above that.
    pub global_loss_duration: i64,
    /// Part of the vehicles at the limit at which the game is lost at once.
    pub mass_rage_fraction: i64,
}

/// Speed limits in metres per hour, and how drivers keep to them.
#[derive(Clone, Copy, Debug)]
pub struct SpeedConfig {
    pub urban_1lane: i64,
    pub urban_2lane: i64,
    pub urban_3lane_plus: i64,
    pub urban_motorway: i64,
    pub urban_residential: i64,
    pub urban_living: i64,
    pub rural_1lane: i64,
    pub rural_2lane_plus: i64,
    pub rural_motorway: i64,
    pub compliance_normal: ComplianceRange,
    pub compliance_sunday: ComplianceRange,
    pub compliance_pirat: ComplianceRange,
    pub compliance_cautious: ComplianceRange,
    /// Spread of the noise on factors.
    pub noise_sigma: i64,
    pub route: RouteConfig,
    pub rage: RageConfig,
}

/// How routes are planned if nothing else is set.
pub open spec fn default_route_config() -> RouteConfig {
    RouteConfig {
        ref_speed: 13_890_000,
        noise_sigma: 50_000,
        normal_alpha: (300_000, 800_000),
        sunday_alpha: (0, 400_000),
        pirat_alpha: (700_000, 1_000_000),
        cautious_alpha: (100_000, 600_000),
    }
}

impl Default for RouteConfig {
    fn default() -> (r: RouteConfig)
        ensures
            r == default_route_config(),
    {
        RouteConfig {
            ref_speed: 13_890_000,
            noise_sigma: 50_000,
            normal_alpha: (300_000, 800_000),
            sunday_alpha: (0, 400_000),
            pirat_alpha: (700_000, 1_000_000),
            cautious_alpha: (100_000, 600_000),
        }
    }
}

/// What makes drivers angry if nothing else is set.
pub open spec fn default_rage_config() -> RageConfig {
    RageConfig {
        standstill_threshold: PerProfile {
            normal: 45_000_000,
            sunday: 90_000_000,
            pirat: 15_000_000,
            cautious: 60_000_000,
        },
        decay_rate_linear: PerProfile {
            normal: 500_000,
            sunday: 200_000,
            pirat: 2_000_000,
            cautious: 350_000,
        },
        recovery_rate: PerProfile {
            normal: 300_000,
            sunday: 200_000,
            pirat: 800_000,
            cautious: 250_000,
        },
        crawl_fraction: 200_000,
        crawl_threshold: 10_000_000,
        crawl_rate: PerProfile {
            normal: 200_000,
            sunday: 100_000,
            pirat: 600_000,
            cautious: 150_000,
        },
        repeat_stop_bonus: PerProfile {
            normal: 2_000_000,
            sunday: 500_000,
            pirat: 8_000_000,
            cautious: 1_000_000,
        },
        global_loss_threshold: 80_000_000,
        global_loss_duration: 30_000_000,
        mass_rage_fraction: 50_000,
    }
}

impl Default for RageConfig {
    fn default() -> (r: RageConfig)
        ensures
            r == default_rage_config(),
    {
        RageConfig {
            standstill_threshold: PerProfile {
                normal: 45_000_000,
                sunday: 90_000_000,
                pirat: 15_000_000,
                cautious: 60_000_000,
            },
            decay_rate_linear: PerProfile {
                normal: 500_000,
                sunday: 200_000,
                pirat: 2_000_000,
                cautious: 350_000,
            },
            recovery_rate: PerProfile {
                normal: 300_000,
                sunday: 200_000,
                pirat: 800_000,
                cautious: 250_000,
            },
            crawl_fraction: 200_000,
            crawl_threshold: 10_000_000,
            crawl_rate: PerProfile {
                normal: 200_000,
                sunday: 100_000,
                pirat: 600_000,
                cautious: 150_000,
            },
            repeat_stop_bonus: PerProfile {
                normal: 2_000_000,
                sunday: 500_000,
                pirat: 8_000_000,
                cautious: 1_000_000,
            },
            global_loss_threshold: 80_000_000,
            global_loss_duration: 30_000_000,
            mass_rage_fraction: 50_000,
        }
    }
}

/// The settings if nothing else is set.
pub open spec fn default_speed_config() -> SpeedConfig {
    SpeedConfig {
        urban_1lane: 50_000,
        urban_2lane: 70_000,
        urban_3lane_plus: 70_000,
        urban_motorway: 120_000,
        urban_residential: 30_000,
        urban_living: 20_000,
        rural_1lane: 90_000,
        rural_2lane_plus: 90_000,
        rural_motorway: 140_000,
        compliance_normal: ComplianceRange { base: 1_100_000, min: 950_000, max: 1_200_000 },
        compliance_sunday: ComplianceRange { base: 950_000, min: 850_000, max: 1_050_000 },
        compliance_pirat: ComplianceRange { base: 1_350_000, min: 1_150_000, max: 1_600_000 },
        compliance_cautious: ComplianceRange { base: 920_000, min: 850_000, max: 1_000_000 },
        noise_sigma: 40_000,
        route: default_route_config(),
        rage: default_rage_config(),
    }
}

impl Default for SpeedConfig {
    fn default() -> (r: SpeedConfig)
        ensures
            r == default_speed_config(),
    {
        SpeedConfig {
            urban_1lane: 50_000,
            urban_2lane: 70_000,
            urban_3lane_plus: 70_000,
            urban_motorway: 120_000,
            urban_residential: 30_000,
            urban_living: 20_000,
            rural_1lane: 90_000,
            rural_2lane_plus: 90_000,
            rural_motorway: 140_000,
            compliance_normal: ComplianceRange { base: 1_100_000, min: 950_000, max: 1_200_000 },
            compliance_sunday: ComplianceRange { base: 950_000, min: 850_000, max: 1_050_000 },
            compliance_pirat: ComplianceRange { base: 1_350_000, min: 1_150_000, max: 1_600_000 },
            compliance_cautious: ComplianceRange { base: 920_000, min: 850_000, max: 1_000_000 },
            noise_sigma: 40_000,
            route: RouteConfig::default(),
            rage: RageConfig::default(),
        }
    }
}

impl SpeedConfig {
    /// The factors for a kind of driver.
    pub open spec fn compliance(self, profile: DriverProfile) -> ComplianceRange {
        match profile {
            DriverProfile::Normal => self.compliance_normal,
            DriverProfile::Sunday => self.compliance_sunday,
            DriverProfile::Pirat => self.compliance_pirat,
            DriverProfile::Cautious => self.compliance_cautious,
        }
    }

    /// The factors for a kind of driver.
    pub fn compliance_for(&self, profile: DriverProfile) -> (r: &ComplianceRange)
        ensures
            *r == self.compliance(profile),
    {
        match profile {
            DriverProfile::Normal => &self.compliance_normal,
            DriverProfile::Sunday => &self.compliance_sunday,
            DriverProfile::Pirat => &self.compliance_pirat,
            DriverProfile::Cautious => &self.compliance_cautious,
        }
    }

    /// The range of preferences for a kind of driver.
    pub open spec fn alpha_range(self, profile: DriverProfile) -> (i64, i64) {
        match profile {
            DriverProfile::Normal => self.route.normal_alpha,
            DriverProfile::Sunday => self.route.sunday_alpha,
            DriverProfile::Pirat => self.route.pirat_alpha,
            DriverProfile::Cautious => self.route.cautious_alpha,
        }
    }

    /// The range of preferences for a kind of driver.
    pub fn route_alpha_range(&self, profile: DriverProfile) -> (r: (i64, i64))
        ensures
            r == self.alpha_range(profile),
    {
        match profile {
            DriverProfile::Normal => self.route.normal_alpha,
            DriverProfile::Sunday => self.route.sunday_alpha,
            DriverProfile::Pirat => self.route.pirat_alpha,
            DriverProfile::Cautious => self.route.cautious_alpha,
        }
    }

    /// The place of a kind of driver in lists.
    pub fn profile_idx(profile: DriverProfile) -> (r: usize)
        ensures
            r == profile.code(),
    {
        match profile {
            DriverProfile::Normal => 0,
            DriverProfile::Sunday => 1,
            DriverProfile::Pirat => 2,
            DriverProfile::Cautious => 3,
        }
    }
}

/// By default the usual factor and the range of preferences of every kind of driver are ranges, and
/// the factor lies in its range.
pub proof fn law_default_ranges(p: DriverProfile)
    ensures
        ({
            let c = default_speed_config().compliance(p);
            let a = default_speed_config().alpha_range(p);
            &&& c.min <= c.base <= c.max
            &&& 0 <= a.0 <= a.1 <= 1_000_000
        }),
{
}

} // verus!
