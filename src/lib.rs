//! Terrain distribution for a client/server voxel world: voxel bounds and
//! their rescaling between levels of detail, edges, the multi-owner LOD map,
//! the server's terrain loader, the client's surroundings tracker and block
//! cache, the sparse voxel store and its byte encoding.

pub mod bounds;
pub mod block_position;
pub mod lod;
pub mod voxel;
pub mod edge;
pub mod cube_shell;
pub mod assoc;
pub mod terrain_loader;
pub mod serialize;
pub mod terrain;
pub mod surroundings;
pub mod closure_series;
pub mod communicate;
pub mod loaded_blocks;
