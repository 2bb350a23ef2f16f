//! Game-state logic of a voxel real-time-strategy sandbox: configuration, the tile file
//! format, terrain bookkeeping, the layout and upload of terrain meshes, input handling and
//! UI state.

pub mod config;
pub mod dyn_mesh;
pub mod input;
pub mod voxels;
pub mod chunks;
pub mod terrain;
pub mod tile;
pub mod tilesets;
pub mod mesh_manager;
pub mod mesh_parts;
pub mod ui;
pub mod upload;
