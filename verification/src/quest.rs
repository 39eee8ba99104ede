//! Quest resources.

pub mod product;
