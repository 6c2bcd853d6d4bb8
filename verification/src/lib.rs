//! Verified layout logic of a tiling window manager: configuration
//! matching, the container tree with its tabbed and split layouts,
//! monitor side areas and window placement.
use vstd::prelude::*;

pub mod areas;
pub mod attach;
pub mod config;
pub mod directions;
pub mod events;
pub mod focus;
pub mod focus_direction;
pub mod geometry;
pub mod links;
pub mod matching;
pub mod mocks;
pub mod monitor_ops;
pub mod monitors;
pub mod preflight;
pub mod reload;
pub mod moves;
pub mod resizing;
pub mod rules;
pub mod seqs;
pub mod side_areas;
pub mod sizes;
pub mod splits;
pub mod sync;
pub mod tab_bar;
pub mod tab_commands;
pub mod tabs;
pub mod text;
pub mod tree;
pub mod window_size;
pub mod window_state;

verus! {
} // verus!
