//! Actor parameter resources.

pub mod drop;
pub mod umii;
