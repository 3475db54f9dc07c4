use crate::array::Array3x1;
use vstd::prelude::*;

verus! {

/// One piece of a chunked lattice map: anything that owns a dense array and lends it out.
pub trait Chunk<T>: Sized {
    /// The array that this chunk owns.
    spec fn array_spec(&self) -> Array3x1<T>;

    /// This chunk with its array replaced by `a` and everything else, metadata included, kept.
    spec fn with_array(self, a: Array3x1<T>) -> Self;

    /// Borrow the inner array.
    fn array_ref(&self) -> (r: &Array3x1<T>)
        ensures
            *r == self.array_spec(),
    ;

    /// Mutably borrow the inner array; what is written through the borrow is what the chunk
    /// holds afterwards.
    fn array_mut(&mut self) -> (r: &mut Array3x1<T>)
        ensures
            *r == old(self).array_spec(),
            final(self).array_spec() == *final(r),
            *final(self) == old(self).with_array(*final(r)),
    ;
}

impl<T> Chunk<T> for Array3x1<T> {
    open spec fn array_spec(&self) -> Array3x1<T> {
        *self
    }

    open spec fn with_array(self, a: Array3x1<T>) -> Self {
        a
    }

    fn array_ref(&self) -> (r: &Array3x1<T>) {
        self
    }

    fn array_mut(&mut self) -> (r: &mut Array3x1<T>) {
        self
    }
}

/// A chunk that carries user metadata beside its array.
pub struct ChunkWithMeta<T, Meta> {
    pub array: Array3x1<T>,
    pub metadata: Meta,
}

impl<T, Meta> ChunkWithMeta<T, Meta> {
    pub fn new(array: Array3x1<T>, metadata: Meta) -> (r: Self)
        ensures
            r.array == array,
            r.metadata == metadata,
    {
        ChunkWithMeta { array, metadata }
    }
}

impl<T, Meta> Chunk<T> for ChunkWithMeta<T, Meta> {
    open spec fn array_spec(&self) -> Array3x1<T> {
        self.array
    }

    open spec fn with_array(self, a: Array3x1<T>) -> Self {
        ChunkWithMeta { array: a, metadata: self.metadata }
    }

    fn array_ref(&self) -> (r: &Array3x1<T>) {
        &self.array
    }

    fn array_mut(&mut self) -> (r: &mut Array3x1<T>) {
        &mut self.array
    }
}

} // verus!
