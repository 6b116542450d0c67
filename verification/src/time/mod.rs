//! The time of day and what depends on it.

pub mod day_cycle;
pub mod game_clock;
