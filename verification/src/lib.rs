//! Verified core of a 2D traffic simulation: road and lane networks, signal programs,
//! right-of-way reservations, routing decisions and the data exchanged with a front end.
//!
//! Measured quantities are integers: lengths in micrometres, times in microseconds, speeds in
//! micrometres per second and positions along an edge in billionths of its length.

pub mod commands;
pub mod map;
pub mod simulation;
pub mod state;
pub mod time;
pub mod traffic;
pub mod units;
pub mod util;
pub mod vehicles;
