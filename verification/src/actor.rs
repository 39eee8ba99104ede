//! Actor resources.

pub mod params;
pub mod rgconfig;
