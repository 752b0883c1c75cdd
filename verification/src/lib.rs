//! Voxelith: a sparse, chunked store of colored voxels, the mesher that turns
//! a chunk into triangles, and the reversible edit commands that change it.
//!
//! - `voxel`, `chunk`, `world`: the store, from one voxel to the world.
//! - `mesh`: the quads of the visible faces of a chunk.
//! - `commands`, `tools`, `editor`: edits that can be undone, the tools
//!   that make them, and the state of an editing session.
//! - `project`, `vox`: chunks and models as bytes.
//! - `bytes`, `listing`, `packing`: what the other modules share.

pub mod bytes;
pub mod chunk;
pub mod commands;
pub mod editor;
pub mod listing;
pub mod mesh;
pub mod packing;
pub mod project;
pub mod tools;
pub mod vox;
pub mod voxel;
pub mod world;
