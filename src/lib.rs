//! Chunked, multi-resolution storage for dense voxel lattices.
pub mod array;
pub mod builder;
pub mod chunk;
pub mod clipmap;
pub mod geometry;
pub mod map;
pub mod storage;

pub use array::Array3x1;
pub use builder::{ChunkMapBuilder, ChunkMapBuilderNxM, ChunkMapConfig};
pub use chunk::{Chunk, ChunkWithMeta};
pub use clipmap::{focus_keys, ChunkKey3, ClipEvent, ClipmapState};
pub use geometry::{floor_div_i32, Extent3i, Point3i};
pub use map::ChunkMap;
pub use storage::{ChunkStorage, VecChunkStorage};
