use crate::array::fits_in_buffer;
use crate::builder::{origin_chunk_extent, ChunkMapBuilder, ChunkMapConfig};
use crate::chunk::Chunk;
use crate::geometry::{floor_div, point_floor_div_exec, Extent3i, Point3i};
use crate::storage::{ChunkStorage, VecChunkStorage};
use vstd::arithmetic::div_mod::lemma_fundamental_div_mod;
use vstd::prelude::*;

verus! {

/// The coordinate of the chunk that holds `p`, in units of chunks.
pub open spec fn chunk_key(p: Point3i, shape: Point3i) -> Point3i {
    Point3i {
        x: floor_div(p.x as int, shape.x as int) as i32,
        y: floor_div(p.y as int, shape.y as int) as i32,
        z: floor_div(p.z as int, shape.z as int) as i32,
    }
}

/// The minimum of the chunk at coordinate `c`, when it is representable.
pub open spec fn chunk_min(c: Point3i, shape: Point3i) -> Point3i {
    Point3i {
        x: (c.x * shape.x) as i32,
        y: (c.y * shape.y) as i32,
        z: (c.z * shape.z) as i32,
    }
}

pub open spec fn i32_fits(v: int) -> bool {
    i32::MIN <= v <= i32::MAX
}

/// The minimum of the chunk at coordinate `c` is a lattice point.
pub open spec fn chunk_min_fits(c: Point3i, shape: Point3i) -> bool {
    i32_fits(c.x * shape.x) && i32_fits(c.y * shape.y) && i32_fits(c.z * shape.z)
}

pub open spec fn chunk_extent(c: Point3i, shape: Point3i) -> Extent3i {
    Extent3i { minimum: chunk_min(c, shape), shape }
}

proof fn lemma_axis(a: int, b: int)
    requires
        b >= 1,
        i32_fits(a),
    ensures
        i32_fits(a / b),
        (a / b) * b <= a < (a / b) * b + b,
{
    lemma_fundamental_div_mod(a, b);
    assert(i32_fits(a / b)) by (nonlinear_arith)
        requires
            b >= 1,
            i32_fits(a),
            a == b * (a / b) + a % b,
            0 <= a % b < b,
    ;
    assert((a / b) * b == b * (a / b)) by (nonlinear_arith);
}

/// A point lies in the chunk that `chunk_key` names for it.
pub proof fn lemma_chunk_key(p: Point3i, shape: Point3i)
    requires
        shape.x >= 1 && shape.y >= 1 && shape.z >= 1,
    ensures
        chunk_key(p, shape).x as int == floor_div(p.x as int, shape.x as int),
        chunk_key(p, shape).y as int == floor_div(p.y as int, shape.y as int),
        chunk_key(p, shape).z as int == floor_div(p.z as int, shape.z as int),
        chunk_min_fits(chunk_key(p, shape), shape) ==> chunk_extent(chunk_key(p, shape), shape).contains_spec(p),
{
    lemma_axis(p.x as int, shape.x as int);
    lemma_axis(p.y as int, shape.y as int);
    lemma_axis(p.z as int, shape.z as int);
}

/// Chunks over a lattice, one store per level of detail. Reads of vacant space give the ambient
/// value; writes create chunks on demand.
pub struct ChunkMap<T, B, S> {
    builder: B,
    storages: Vec<S>,
    marker: std::marker::PhantomData<T>,
}

fn storage_mut<S>(v: &mut Vec<S>, i: usize) -> (r: &mut S)
    requires
        i < old(v)@.len(),
    ensures
        *r == old(v)@[i as int],
        final(v)@ == old(v)@.update(i as int, *final(r)),
{
    &mut v[i]
}

impl<T: Copy, B: ChunkMapBuilder<T>, S: ChunkStorage<B::Chunk>> ChunkMap<T, B, S> {
    pub closed spec fn builder_spec(&self) -> B {
        self.builder
    }

    pub open spec fn config_spec(&self) -> ChunkMapConfig<T> {
        self.builder_spec().config_spec()
    }

    /// The stores, one per level of detail.
    pub closed spec fn stores(&self) -> Seq<S> {
        self.storages@
    }

    /// The chunks stored at one level of detail, by chunk coordinate.
    pub open spec fn storage_at(&self, lod: int) -> Map<Point3i, B::Chunk> {
        self.stores()[lod].storage_view()
    }

    /// A store that a map with chunks of `shape` can take: each chunk it holds is a well-formed
    /// array over the extent that its key names.
    pub open spec fn store_fits(s: S, shape: Point3i) -> bool {
        &&& s.inv()
        &&& forall|c: Point3i| #[trigger] s.storage_view().contains_key(c) ==> {
            &&& chunk_min_fits(c, shape)
            &&& s.storage_view()[c].array_spec().wf()
            &&& s.storage_view()[c].array_spec().extent_spec() == chunk_extent(c, shape)
        }
    }

    /// Each stored chunk is a well-formed array over the extent that its key names.
    pub closed spec fn wf(&self) -> bool {
        let shape = self.config_spec().chunk_shape;
        &&& self.config_spec().is_valid()
        &&& self.storages@.len() == self.config_spec().root_lod + 1
        &&& forall|lod: int| 0 <= lod < self.storages@.len() ==> #[trigger] self.storages@[lod].inv()
        &&& forall|lod: int, c: Point3i|
            0 <= lod < self.storages@.len() && #[trigger] self.storage_at(lod).contains_key(c) ==> {
                &&& chunk_min_fits(c, shape)
                &&& self.storage_at(lod)[c].array_spec().wf()
                &&& self.storage_at(lod)[c].array_spec().extent_spec() == chunk_extent(c, shape)
            }
    }

    /// No chunk is stored at this level of detail.
    pub open spec fn is_vacant(&self, lod: int) -> bool {
        self.storage_at(lod) == Map::<Point3i, B::Chunk>::empty()
    }

    /// The value that the map holds at `p` on level `lod`.
    pub open spec fn value_at(&self, lod: int, p: Point3i) -> T {
        let c = chunk_key(p, self.config_spec().chunk_shape);
        if self.storage_at(lod).contains_key(c) {
            self.storage_at(lod)[c].array_spec().value_at(p)
        } else {
            self.config_spec().ambient_value
        }
    }

    /// A map over `builder` and one store per level of detail.
    pub fn new(builder: B, storages: Vec<S>) -> (m: Self)
        requires
            builder.config_spec().is_valid(),
            storages@.len() == builder.config_spec().root_lod + 1,
            forall|i: int|
                0 <= i < storages@.len() ==> Self::store_fits(#[trigger] storages@[i], builder.config_spec().chunk_shape),
        ensures
            m.wf(),
            m.builder_spec() == builder,
            m.stores() == storages@,
    {
        let m = ChunkMap { builder, storages, marker: std::marker::PhantomData };
        proof {
            assert forall|lod: int, c: Point3i|
                0 <= lod < storages@.len() && #[trigger] m.storage_at(lod).contains_key(c) implies {
                &&& chunk_min_fits(c, builder.config_spec().chunk_shape)
                &&& m.storage_at(lod)[c].array_spec().wf()
                &&& m.storage_at(lod)[c].array_spec().extent_spec() == chunk_extent(c, builder.config_spec().chunk_shape)
            } by {
                assert(Self::store_fits(storages@[lod], builder.config_spec().chunk_shape));
            }
            assert forall|lod: int| 0 <= lod < storages@.len() implies #[trigger] m.storages@[lod].inv() by {
                assert(Self::store_fits(storages@[lod], builder.config_spec().chunk_shape));
            }
        }
        m
    }

    /// A new map over one store per level of detail: level `i` holds the store that the `i`-th
    /// call of `storage_factory` made.
    pub fn build_with_storage<F: Fn() -> S>(builder: B, storage_factory: F) -> (m: Self)
        requires
            builder.config_spec().is_valid(),
            storage_factory.requires(()),
            forall|s: S| #[trigger] storage_factory.ensures((), s) ==> Self::store_fits(s, builder.config_spec().chunk_shape),
        ensures
            m.wf(),
            m.builder_spec() == builder,
            m.stores().len() == builder.config_spec().root_lod + 1,
            forall|i: int| 0 <= i < m.stores().len() ==> storage_factory.ensures((), #[trigger] m.stores()[i]),
    {
        let n: usize = builder.num_lods() as usize;
        let mut storages: Vec<S> = Vec::new();
        while storages.len() < n
            invariant
                storages@.len() <= n,
                storage_factory.requires(()),
                forall|s: S| #[trigger] storage_factory.ensures((), s) ==> Self::store_fits(s, builder.config_spec().chunk_shape),
                forall|i: int| 0 <= i < storages@.len() ==> storage_factory.ensures((), #[trigger] storages@[i]),
            decreases n - storages@.len(),
        {
            let s = storage_factory();
            storages.push(s);
        }
        ChunkMap::new(builder, storages)
    }

    /// The configuration of a well-formed map is valid.
    pub proof fn lemma_wf_config(&self)
        requires
            self.wf(),
        ensures
            self.config_spec().is_valid(),
            self.config_spec().chunk_shape.x >= 1,
            self.config_spec().chunk_shape.y >= 1,
            self.config_spec().chunk_shape.z >= 1,
    {
    }

    pub fn builder(&self) -> (r: &B)
        ensures
            *r == self.builder_spec(),
    {
        &self.builder
    }

    /// Whether a chunk is stored at coordinate `c` on level `lod`.
    pub fn contains_chunk(&self, lod: u8, c: Point3i) -> (r: bool)
        requires
            self.wf(),
            lod <= self.config_spec().root_lod,
        ensures
            r == self.storage_at(lod as int).contains_key(c),
    {
        self.storages[lod as usize].get(c).is_some()
    }

    /// The value at `p` on level `lod`: the stored one, or the ambient value where no chunk is.
    pub fn read(&self, lod: u8, p: Point3i) -> (r: T)
        requires
            self.wf(),
            lod <= self.config_spec().root_lod,
        ensures
            r == self.value_at(lod as int, p),
    {
        let shape = self.builder.chunk_shape();
        let c = point_floor_div_exec(p, shape);
        proof {
            lemma_chunk_key(p, shape);
        }
        match self.storages[lod as usize].get(c) {
            Some(chunk) => {
                proof {
                    assert(self.storage_at(lod as int).contains_key(c));
                }
                chunk.array_ref().get(p)
            },
            None => self.builder.ambient_value(),
        }
    }

    /// Writes `v` at `p` on level `lod`, creating the chunk from ambient values if it is vacant.
    /// Every other point on every level keeps its value.
    pub fn write(&mut self, lod: u8, p: Point3i, v: T)
        requires
            old(self).wf(),
            lod <= old(self).config_spec().root_lod,
            chunk_min_fits(chunk_key(p, old(self).config_spec().chunk_shape), old(self).config_spec().chunk_shape),
        ensures
            final(self).wf(),
            final(self).builder_spec() == old(self).builder_spec(),
            final(self).value_at(lod as int, p) == v,
            forall|l: int, q: Point3i|
                0 <= l <= old(self).config_spec().root_lod && (l != lod || q != p) ==> #[trigger] final(self).value_at(l, q)
                    == old(self).value_at(l, q),
            final(self).storage_at(lod as int).dom() == old(self).storage_at(lod as int).dom().insert(
                chunk_key(p, old(self).config_spec().chunk_shape),
            ),
            forall|l: int|
                0 <= l <= old(self).config_spec().root_lod && l != lod ==> #[trigger] final(self).storage_at(l)
                    == old(self).storage_at(l),
    {
        let shape = self.builder.chunk_shape();
        let c = point_floor_div_exec(p, shape);
        proof {
            lemma_chunk_key(p, shape);
        }
        let cmin = Point3i {
            x: (c.x as i64 * shape.x as i64) as i32,
            y: (c.y as i64 * shape.y as i64) as i32,
            z: (c.z as i64 * shape.z as i64) as i32,
        };
        let extent = Extent3i { minimum: cmin, shape };
        let ghost old_map = self.storage_at(lod as int);
        let st = storage_mut(&mut self.storages, lod as usize);
        let mut chunk = match st.remove(c) {
            Some(ch) => ch,
            None => {
                proof {
                    assert(extent.num_points_spec() == origin_chunk_extent(shape).num_points_spec());
                    assert(fits_in_buffer(extent));
                }
                self.builder.new_ambient(extent)
            },
        };
        let ghost old_chunk = chunk;
        let a = chunk.array_mut();
        a.set(p, v);
        st.insert(c, chunk);
        proof {
            let new_map = self.storage_at(lod as int);
            assert(new_map == old_map.insert(c, chunk));
            assert(self.storages@.len() == old(self).storages@.len());
            assert forall|l: int, d: Point3i|
                0 <= l < self.storages@.len() && #[trigger] self.storage_at(l).contains_key(d) implies {
                &&& chunk_min_fits(d, shape)
                &&& self.storage_at(l)[d].array_spec().wf()
                &&& self.storage_at(l)[d].array_spec().extent_spec() == chunk_extent(d, shape)
            } by {
                if l != lod {
                    assert(self.storage_at(l) == old(self).storage_at(l));
                }
            }
            assert forall|l: int, q: Point3i|
                0 <= l < self.storages@.len() && (l != lod || q != p) implies #[trigger] self.value_at(l, q) == old(self).value_at(l, q) by {
                if l == lod {
                    let cq = chunk_key(q, shape);
                    if cq == c {
                        lemma_chunk_key(q, shape);
                    }
                } else {
                    assert(self.storage_at(l) == old(self).storage_at(l));
                }
            }
            assert(new_map.dom() =~= old_map.dom().insert(c));
        }
    }
}

impl<T: Copy, B: ChunkMapBuilder<T>> ChunkMap<T, B, VecChunkStorage<B::Chunk>> {
    /// A new map over the default in-memory store.
    pub fn build_with_vec_storage(builder: B) -> (m: Self)
        requires
            builder.config_spec().is_valid(),
        ensures
            m.wf(),
            m.builder_spec() == builder,
            forall|lod: int| 0 <= lod <= builder.config_spec().root_lod ==> #[trigger] m.is_vacant(lod),
    {
        let m = ChunkMap::build_with_storage(
            builder,
            || -> (s: VecChunkStorage<B::Chunk>)
            ensures
                s.inv(),
                s.storage_view() == Map::<Point3i, B::Chunk>::empty(),
            { VecChunkStorage::new() });
        proof {
            assert forall|lod: int| 0 <= lod <= builder.config_spec().root_lod implies #[trigger] m.is_vacant(lod) by {
                assert(m.stores()[lod].storage_view() == Map::<Point3i, B::Chunk>::empty());
            }
        }
        m
    }
}

} // verus!
