//! Game data resources.

pub mod savedata;
