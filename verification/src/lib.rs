use vstd::prelude::*;

pub mod coords;
pub mod voxels;
pub mod block_config;
pub mod terrain;
pub mod world;
pub mod persistence;
pub mod meshing;
pub mod gameplay;
pub mod client;
pub mod ordering;
pub mod glyphs;
pub mod menu;
pub mod chunk_budget;
pub mod jobs;
pub mod world_load;
pub mod settings_file;

verus! {
} // verus!
