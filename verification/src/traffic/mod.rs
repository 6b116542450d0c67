//! Signals and signs at junctions.

pub mod intersection;
pub mod phased_traffic_light;
pub mod traffic_light;
