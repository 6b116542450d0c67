//! Vehicles, their types and their drivers.

pub mod driver;
pub mod types;
pub mod vehicle;
