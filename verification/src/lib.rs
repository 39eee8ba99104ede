//! A mod-merge engine for the resources of a game.
//!
//! Resources are read into typed trees, the diff between a base version
//! and a modified one is taken, and any number of such diffs are merged
//! back onto the base, in the order in which the mods are loaded.
//!
//! - `assoc`, `datum`, `text`: the mathematical model of ordered maps, what
//!   the containers ask of their keys and values, and text helpers.
//! - `util`: the delete-tracking containers with the laws of diff and
//!   merge, and diff and merge on the generic trees.
//! - `byml`, `aamp`: the two generic trees, the hierarchical hash/array
//!   document and the parameter archive.
//! - `prelude`: the diff/merge protocol of the typed resources.
//! - `actor`, `data`, `quest`, `tips`: the typed resources.
//! - `resource`: canonical paths, and the dispatch from a path to the kind
//!   of resource that claims it.
//! - `unpack`: the loader of packaged mods.
//! - `gui`: the state of the interactive shell, and what its messages do
//!   to it.

pub mod aamp;
pub mod actor;
pub mod assoc;
pub mod byml;
pub mod data;
pub mod datum;
pub mod error;
pub mod gui;
pub mod prelude;
pub mod quest;
pub mod resource;
pub mod text;
pub mod tips;
pub mod unpack;
pub mod util;
