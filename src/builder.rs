use crate::array::{fits_in_buffer, Array3x1};
use crate::chunk::Chunk;
use crate::geometry::{Extent3i, Point3i};
use vstd::prelude::*;

verus! {

/// Constant parameters of a chunk map.
#[derive(Clone, Copy)]
pub struct ChunkMapConfig<T> {
    /// The shape of every chunk.
    pub chunk_shape: Point3i,
    /// The value taken in regions where chunks are vacant.
    pub ambient_value: T,
    /// The level of detail of root nodes: there are `root_lod + 1` levels, level 0 having the
    /// highest sample rate.
    pub root_lod: u8,
}

/// The extent of the chunk whose minimum is the origin.
pub open spec fn origin_chunk_extent(shape: Point3i) -> Extent3i {
    Extent3i { minimum: Point3i { x: 0, y: 0, z: 0 }, shape }
}

impl<T> ChunkMapConfig<T> {
    /// Every axis of the chunk shape is positive, a chunk's buffer fits in memory, and the
    /// number of levels fits in a `u8`.
    pub open spec fn is_valid(&self) -> bool {
        &&& origin_chunk_extent(self.chunk_shape).is_nonempty_spec()
        &&& fits_in_buffer(origin_chunk_extent(self.chunk_shape))
        &&& self.root_lod < 255
    }
}

/// An object that knows how to construct the chunks of a `ChunkMap`.
pub trait ChunkMapBuilder<T: Copy>: Sized {
    type Chunk: Chunk<T>;

    spec fn config_spec(&self) -> ChunkMapConfig<T>;

    fn config(&self) -> (r: &ChunkMapConfig<T>)
        ensures
            *r == self.config_spec(),
    ;

    /// A new chunk over `extent` with entirely ambient values.
    fn new_ambient(&self, extent: Extent3i) -> (r: Self::Chunk)
        requires
            fits_in_buffer(extent),
        ensures
            r.array_spec().wf(),
            r.array_spec().extent_spec() == extent,
            r.array_spec().len_spec() == extent.num_points_spec(),
            r.array_spec().is_filled_with(self.config_spec().ambient_value),
    ;

    fn chunk_shape(&self) -> (r: Point3i)
        ensures
            r == self.config_spec().chunk_shape,
    {
        self.config().chunk_shape
    }

    fn ambient_value(&self) -> (r: T)
        ensures
            r == self.config_spec().ambient_value,
    {
        self.config().ambient_value
    }

    fn root_lod(&self) -> (r: u8)
        ensures
            r == self.config_spec().root_lod,
    {
        self.config().root_lod
    }

    fn num_lods(&self) -> (r: u8)
        requires
            self.config_spec().root_lod < 255,
        ensures
            r == self.config_spec().root_lod + 1,
    {
        self.root_lod() + 1
    }
}

/// A `ChunkMapBuilder` whose chunks are plain arrays.
#[derive(Clone, Copy)]
pub struct ChunkMapBuilderNxM<T> {
    pub config: ChunkMapConfig<T>,
}

impl<T> ChunkMapBuilderNxM<T> {
    pub fn new(config: ChunkMapConfig<T>) -> (r: Self)
        ensures
            r.config == config,
    {
        ChunkMapBuilderNxM { config }
    }
}

impl<T: Copy> ChunkMapBuilder<T> for ChunkMapBuilderNxM<T> {
    type Chunk = Array3x1<T>;

    open spec fn config_spec(&self) -> ChunkMapConfig<T> {
        self.config
    }

    fn config(&self) -> (r: &ChunkMapConfig<T>) {
        &self.config
    }

    fn new_ambient(&self, extent: Extent3i) -> (r: Array3x1<T>) {
        Array3x1::fill(extent, self.config.ambient_value)
    }
}

} // verus!
