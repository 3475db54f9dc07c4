use crate::geometry::{lemma_linear_index, Extent3i, Point3i};
use vstd::prelude::*;

verus! {

/// A dense buffer of values over one extent, one value for each point of the extent.
pub struct Array3x1<T> {
    extent: Extent3i,
    values: Vec<T>,
}

spec fn min_int(a: int, b: int) -> int {
    if a < b {
        a
    } else {
        b
    }
}

/// The buffer length that an extent asks for fits in memory. An extent with a zero or negative
/// axis holds no point and needs an empty buffer.
pub open spec fn fits_in_buffer(e: Extent3i) -> bool {
    e.num_points_spec() <= usize::MAX as int
}

impl<T> Array3x1<T> {
    /// The buffer holds exactly one value per point of the extent.
    pub closed spec fn wf(&self) -> bool {
        &&& fits_in_buffer(self.extent)
        &&& self.values@.len() == self.extent.num_points_spec()
    }

    /// The length of the buffer.
    pub closed spec fn len_spec(&self) -> int {
        self.values@.len() as int
    }

    pub closed spec fn extent_spec(&self) -> Extent3i {
        self.extent
    }

    /// The value stored at a point of the extent.
    pub closed spec fn value_at(&self, p: Point3i) -> T {
        self.values@[self.extent.linear_index(p)]
    }

    /// Every point of the extent holds `v`.
    pub open spec fn is_filled_with(&self, v: T) -> bool {
        forall|p: Point3i| self.extent_spec().contains_spec(p) ==> #[trigger] self.value_at(p) == v
    }

}

impl<T: Copy> Array3x1<T> {
    /// A new array over `extent` with every point set to `value`.
    pub fn fill(extent: Extent3i, value: T) -> (r: Array3x1<T>)
        requires
            fits_in_buffer(extent),
        ensures
            r.wf(),
            r.extent_spec() == extent,
            r.len_spec() == extent.num_points_spec(),
            r.is_filled_with(value),
    {
        let sx: usize = if extent.shape.x < 0 { 0 } else { extent.shape.x as usize };
        let sy: usize = if extent.shape.y < 0 { 0 } else { extent.shape.y as usize };
        let sz: usize = if extent.shape.z < 0 { 0 } else { extent.shape.z as usize };
        let n: usize = if sx == 0 || sy == 0 || sz == 0 {
            proof {
                assert(sx * sy * sz == 0) by (nonlinear_arith)
                    requires
                        sx == 0 || sy == 0 || sz == 0,
                ;
            }
            0
        } else {
            assert(sx * sy <= sx * sy * sz) by (nonlinear_arith)
                requires
                    sz >= 1,
                    sx >= 1,
                    sy >= 1,
            ;
            sx * sy * sz
        };
        let mut values: Vec<T> = Vec::new();
        while values.len() < n
            invariant
                values@.len() <= n,
                forall|i: int| 0 <= i < values@.len() ==> values@[i] == value,
            decreases n - values@.len(),
        {
            values.push(value);
        }
        let r = Array3x1 { extent, values };
        assert forall|p: Point3i| r.extent_spec().contains_spec(p) implies #[trigger] r.value_at(
            p,
        ) == value by {
            lemma_linear_index(extent, p, p);
        }
        r
    }

    /// The number of values held: one per point of the extent.
    pub fn len(&self) -> (r: usize)
        requires
            self.wf(),
        ensures
            r == self.len_spec(),
            r == self.extent_spec().num_points_spec(),
    {
        self.values.len()
    }

    pub fn extent(&self) -> (r: Extent3i)
        ensures
            r == self.extent_spec(),
    {
        self.extent
    }

    fn index_of(&self, p: Point3i) -> (i: usize)
        requires
            self.wf(),
            self.extent_spec().contains_spec(p),
        ensures
            i as int == self.extent.linear_index(p),
            i < self.values@.len(),
    {
        let e = self.extent;
        proof {
            lemma_linear_index(e, p, p);
        }
        let dx = (p.x as i64 - e.minimum.x as i64) as usize;
        let dy = (p.y as i64 - e.minimum.y as i64) as usize;
        let dz = (p.z as i64 - e.minimum.z as i64) as usize;
        let sx = e.shape.x as usize;
        let sy = e.shape.y as usize;
        let sz = e.shape.z as usize;
        assert(dz * sy + dy <= sx * sy * sz && (dz * sy + dy) * sx + dx < sx * sy * sz) by (
        nonlinear_arith)
            requires
                dx < sx,
                dy < sy,
                dz < sz,
                sx >= 1,
        ;
        (dz * sy + dy) * sx + dx
    }

    /// The value at `p`, which must lie in the extent.
    pub fn get(&self, p: Point3i) -> (r: T)
        requires
            self.wf(),
            self.extent_spec().contains_spec(p),
        ensures
            r == self.value_at(p),
    {
        let i = self.index_of(p);
        self.values[i]
    }

    /// Sets the value at `p`, which must lie in the extent; every other point keeps its value.
    pub fn set(&mut self, p: Point3i, v: T)
        requires
            old(self).wf(),
            old(self).extent_spec().contains_spec(p),
        ensures
            final(self).wf(),
            final(self).extent_spec() == old(self).extent_spec(),
            final(self).value_at(p) == v,
            forall|q: Point3i|
                q != p && old(self).extent_spec().contains_spec(q) ==> #[trigger] final(self).value_at(q)
                    == old(self).value_at(q),
    {
        let i = self.index_of(p);
        self.values.set(i, v);
        proof {
            assert forall|q: Point3i|
                q != p && old(self).extent_spec().contains_spec(q) implies #[trigger] self.value_at(
                q,
            ) == old(self).value_at(q) by {
                lemma_linear_index(self.extent, p, q);
                lemma_linear_index(self.extent, q, q);
            }
        }
    }

    /// Sets every point of `sub`, which must lie in the extent, to `v`; the other points keep
    /// their values.
    pub fn fill_extent(&mut self, sub: Extent3i, v: T)
        requires
            old(self).wf(),
            forall|q: Point3i| #[trigger] sub.contains_spec(q) ==> old(self).extent_spec().contains_spec(q),
        ensures
            final(self).wf(),
            final(self).extent_spec() == old(self).extent_spec(),
            forall|q: Point3i|
                old(self).extent_spec().contains_spec(q) ==> #[trigger] final(self).value_at(q) == if sub.contains_spec(q) {
                    v
                } else {
                    old(self).value_at(q)
                },
    {
        let ghost e = self.extent;
        let lx = sub.minimum.x as i64;
        let ly = sub.minimum.y as i64;
        let lz = sub.minimum.z as i64;
        let top: i64 = i32::MAX as i64 + 1;
        let hx = if lx + sub.shape.x as i64 > top { top } else { lx + sub.shape.x as i64 };
        let hy = if ly + sub.shape.y as i64 > top { top } else { ly + sub.shape.y as i64 };
        let hz = if lz + sub.shape.z as i64 > top { top } else { lz + sub.shape.z as i64 };
        if lx >= hx || ly >= hy || lz >= hz {
            assert forall|q: Point3i| old(self).extent_spec().contains_spec(q) implies !sub.contains_spec(q) by {}
            return;
        }
        let mut x: i64 = lx;
        while x < hx
            invariant
                self.wf(),
                self.extent == e,
                e == old(self).extent_spec(),
                lx <= x <= hx,
                lx == sub.minimum.x, ly == sub.minimum.y, lz == sub.minimum.z,
                hx == min_int(sub.minimum.x + sub.shape.x, i32::MAX + 1), hy == min_int(sub.minimum.y + sub.shape.y, i32::MAX + 1),
                hz == min_int(sub.minimum.z + sub.shape.z, i32::MAX + 1),
                ly < hy, lz < hz,
                forall|q: Point3i| #[trigger] sub.contains_spec(q) ==> e.contains_spec(q),
                forall|q: Point3i|
                    e.contains_spec(q) ==> #[trigger] self.value_at(q) == if sub.contains_spec(q) && (q.x as int) < x {
                        v
                    } else {
                        old(self).value_at(q)
                    },
            decreases hx - x,
        {
            let mut y: i64 = ly;
            while y < hy
                invariant
                    self.wf(),
                    self.extent == e,
                    e == old(self).extent_spec(),
                    lx <= x < hx,
                    ly <= y <= hy,
                    lx == sub.minimum.x, ly == sub.minimum.y, lz == sub.minimum.z,
                    hx == min_int(sub.minimum.x + sub.shape.x, i32::MAX + 1), hy == min_int(sub.minimum.y + sub.shape.y, i32::MAX + 1),
                hz == min_int(sub.minimum.z + sub.shape.z, i32::MAX + 1),
                    lz < hz,
                    forall|q: Point3i| #[trigger] sub.contains_spec(q) ==> e.contains_spec(q),
                    forall|q: Point3i|
                        e.contains_spec(q) ==> #[trigger] self.value_at(q) == if sub.contains_spec(q) && ((q.x as int) < x
                            || (q.x == x && (q.y as int) < y)) {
                            v
                        } else {
                            old(self).value_at(q)
                        },
                decreases hy - y,
            {
                let mut z: i64 = lz;
                while z < hz
                    invariant
                        self.wf(),
                        self.extent == e,
                        e == old(self).extent_spec(),
                        lx <= x < hx,
                        ly <= y < hy,
                        lz <= z <= hz,
                        lx == sub.minimum.x, ly == sub.minimum.y, lz == sub.minimum.z,
                        hx == min_int(sub.minimum.x + sub.shape.x, i32::MAX + 1), hy == min_int(sub.minimum.y + sub.shape.y, i32::MAX + 1),
                hz == min_int(sub.minimum.z + sub.shape.z, i32::MAX + 1),
                        forall|q: Point3i| #[trigger] sub.contains_spec(q) ==> e.contains_spec(q),
                        forall|q: Point3i|
                            e.contains_spec(q) ==> #[trigger] self.value_at(q) == if sub.contains_spec(q) && ((q.x as int) < x
                                || (q.x == x && (q.y as int) < y) || (q.x == x && q.y == y && (q.z as int) < z)) {
                                v
                            } else {
                                old(self).value_at(q)
                            },
                    decreases hz - z,
                {
                    let p = Point3i { x: x as i32, y: y as i32, z: z as i32 };
                    proof {
                        assert(sub.contains_spec(p));
                    }
                    self.set(p, v);
                    z = z + 1;
                }
                y = y + 1;
            }
            x = x + 1;
        }
    }
}

} // verus!
