//! Helpers shared by the rest of the crate.

pub mod random;
pub mod text;
