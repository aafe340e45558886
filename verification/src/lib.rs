//! Storage of a voxel world: chunks of 16 x 16 x 16 voxels, the text format
//! that keeps them in a world file, the index from chunk coordinates to
//! offsets in that file, and the list of instances that a renderer draws.

pub mod world;
