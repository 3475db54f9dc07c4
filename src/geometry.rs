use vstd::arithmetic::div_mod::lemma_fundamental_div_mod;
use vstd::arithmetic::div_mod::lemma_fundamental_div_mod_converse;
use vstd::prelude::*;

verus! {

/// A point of the three-dimensional integer lattice.
#[derive(Clone, Copy, PartialEq, Eq, Structural, Debug, Hash)]
pub struct Point3i {
    pub x: i32,
    pub y: i32,
    pub z: i32,
}

impl Point3i {
    pub fn new(x: i32, y: i32, z: i32) -> (r: Point3i)
        ensures
            r == (Point3i { x, y, z }),
    {
        Point3i { x, y, z }
    }

    /// The point with every component equal to `v`.
    pub fn fill(v: i32) -> (r: Point3i)
        ensures
            r == (Point3i { x: v, y: v, z: v }),
    {
        Point3i { x: v, y: v, z: v }
    }
}

/// An axis-aligned box: the points `p` with `minimum <= p < minimum + shape` on every axis.
#[derive(Clone, Copy, PartialEq, Eq, Structural, Debug, Hash)]
pub struct Extent3i {
    pub minimum: Point3i,
    pub shape: Point3i,
}

/// Whether `v` lies in the half-open interval `[lo, lo + len)`.
pub open spec fn in_interval(v: int, lo: int, len: int) -> bool {
    lo <= v < lo + len
}

pub open spec fn clamp0(v: int) -> int {
    if v < 0 {
        0
    } else {
        v
    }
}

/// Floor division; for a positive divisor Verus's `/` on `int` already rounds down.
pub open spec fn floor_div(a: int, b: int) -> int {
    a / b
}

pub open spec fn pow2(n: nat) -> nat
    decreases n,
{
    if n == 0 {
        1
    } else {
        2 * pow2((n - 1) as nat)
    }
}

impl Extent3i {
    pub open spec fn contains_spec(self, p: Point3i) -> bool {
        &&& in_interval(p.x as int, self.minimum.x as int, self.shape.x as int)
        &&& in_interval(p.y as int, self.minimum.y as int, self.shape.y as int)
        &&& in_interval(p.z as int, self.minimum.z as int, self.shape.z as int)
    }

    /// Every axis of the shape is at least one.
    pub open spec fn is_nonempty_spec(self) -> bool {
        self.shape.x >= 1 && self.shape.y >= 1 && self.shape.z >= 1
    }

    /// The number of points: the product of the shape's axes, a negative axis counting as zero.
    pub open spec fn num_points_spec(self) -> int {
        clamp0(self.shape.x as int) * clamp0(self.shape.y as int) * clamp0(self.shape.z as int)
    }

    pub open spec fn volume_spec(self) -> int {
        self.shape.x as int * self.shape.y as int * self.shape.z as int
    }

    /// Row-major position of `p` in a buffer laid out over this extent (x varies fastest).
    pub open spec fn linear_index(self, p: Point3i) -> int {
        ((p.z as int - self.minimum.z as int) * self.shape.y as int + (p.y as int
            - self.minimum.y as int)) * self.shape.x as int + (p.x as int - self.minimum.x as int)
    }

    pub fn from_min_and_shape(minimum: Point3i, shape: Point3i) -> (r: Extent3i)
        ensures
            r == (Extent3i { minimum, shape }),
    {
        Extent3i { minimum, shape }
    }

    pub fn contains(&self, p: Point3i) -> (r: bool)
        ensures
            r == self.contains_spec(p),
    {
        let px = p.x as i64;
        let py = p.y as i64;
        let pz = p.z as i64;
        let mx = self.minimum.x as i64;
        let my = self.minimum.y as i64;
        let mz = self.minimum.z as i64;
        mx <= px && px < mx + self.shape.x as i64 && my <= py && py < my + self.shape.y as i64
            && mz <= pz && pz < mz + self.shape.z as i64
    }

    /// The points that lie in both extents; an empty intersection has a zero shape axis.
    pub fn intersection(&self, other: &Extent3i) -> (r: Extent3i)
        ensures
            forall|q: Point3i| #[trigger] r.contains_spec(q) <==> self.contains_spec(q) && other.contains_spec(q),
            r.shape.x >= 0 && r.shape.y >= 0 && r.shape.z >= 0,
    {
        let (mx, sx) = intersect_axis(self.minimum.x, self.shape.x, other.minimum.x, other.shape.x);
        let (my, sy) = intersect_axis(self.minimum.y, self.shape.y, other.minimum.y, other.shape.y);
        let (mz, sz) = intersect_axis(self.minimum.z, self.shape.z, other.minimum.z, other.shape.z);
        Extent3i { minimum: Point3i { x: mx, y: my, z: mz }, shape: Point3i { x: sx, y: sy, z: sz } }
    }

    /// The smallest extent that holds both of two nonempty extents.
    pub fn bounding_union(&self, other: &Extent3i) -> (r: Extent3i)
        requires
            self.is_nonempty_spec(),
            other.is_nonempty_spec(),
            union_axis_fits(self.minimum.x as int, self.shape.x as int, other.minimum.x as int, other.shape.x as int),
            union_axis_fits(self.minimum.y as int, self.shape.y as int, other.minimum.y as int, other.shape.y as int),
            union_axis_fits(self.minimum.z as int, self.shape.z as int, other.minimum.z as int, other.shape.z as int),
        ensures
            forall|q: Point3i| self.contains_spec(q) || other.contains_spec(q) ==> #[trigger] r.contains_spec(q),
            r.minimum.x == min_i(self.minimum.x as int, other.minimum.x as int),
            r.minimum.y == min_i(self.minimum.y as int, other.minimum.y as int),
            r.minimum.z == min_i(self.minimum.z as int, other.minimum.z as int),
            r.minimum.x + r.shape.x == max_i(self.minimum.x + self.shape.x, other.minimum.x + other.shape.x),
            r.minimum.y + r.shape.y == max_i(self.minimum.y + self.shape.y, other.minimum.y + other.shape.y),
            r.minimum.z + r.shape.z == max_i(self.minimum.z + self.shape.z, other.minimum.z + other.shape.z),
    {
        let (mx, sx) = union_axis(self.minimum.x, self.shape.x, other.minimum.x, other.shape.x);
        let (my, sy) = union_axis(self.minimum.y, self.shape.y, other.minimum.y, other.shape.y);
        let (mz, sz) = union_axis(self.minimum.z, self.shape.z, other.minimum.z, other.shape.z);
        Extent3i { minimum: Point3i { x: mx, y: my, z: mz }, shape: Point3i { x: sx, y: sy, z: sz } }
    }
}

pub open spec fn min_i(a: int, b: int) -> int {
    if a < b {
        a
    } else {
        b
    }
}

pub open spec fn max_i(a: int, b: int) -> int {
    if a > b {
        a
    } else {
        b
    }
}

/// The span from the smaller minimum to the larger end of two intervals fits in an `i32`.
pub open spec fn union_axis_fits(m1: int, s1: int, m2: int, s2: int) -> bool {
    max_i(m1 + s1, m2 + s2) - min_i(m1, m2) <= i32::MAX
}

fn union_axis(m1: i32, s1: i32, m2: i32, s2: i32) -> (r: (i32, i32))
    requires
        s1 >= 1,
        s2 >= 1,
        union_axis_fits(m1 as int, s1 as int, m2 as int, s2 as int),
    ensures
        r.0 == min_i(m1 as int, m2 as int),
        r.0 + r.1 == max_i(m1 + s1, m2 + s2),
{
    let lo: i64 = if m1 < m2 { m1 as i64 } else { m2 as i64 };
    let h1: i64 = m1 as i64 + s1 as i64;
    let h2: i64 = m2 as i64 + s2 as i64;
    let hi: i64 = if h1 > h2 { h1 } else { h2 };
    (lo as i32, (hi - lo) as i32)
}

fn intersect_axis(m1: i32, s1: i32, m2: i32, s2: i32) -> (r: (i32, i32))
    ensures
        r.1 >= 0,
        forall|v: int| in_interval(v, r.0 as int, r.1 as int) <==> in_interval(v, m1 as int, s1 as int) && in_interval(v, m2 as int, s2 as int),
{
    let lo: i64 = if m1 > m2 { m1 as i64 } else { m2 as i64 };
    let h1: i64 = m1 as i64 + s1 as i64;
    let h2: i64 = m2 as i64 + s2 as i64;
    let hi: i64 = if h1 < h2 { h1 } else { h2 };
    if hi <= lo {
        (lo as i32, 0)
    } else {
        (lo as i32, (hi - lo) as i32)
    }
}

/// Within a nonempty extent, distinct points have distinct buffer positions, all of them in
/// `[0, volume)`.
pub proof fn lemma_linear_index(e: Extent3i, p: Point3i, q: Point3i)
    requires
        e.is_nonempty_spec(),
        e.contains_spec(p),
        e.contains_spec(q),
    ensures
        0 <= e.linear_index(p) < e.volume_spec(),
        e.linear_index(p) == e.linear_index(q) ==> p == q,
{
    let sx = e.shape.x as int;
    let sy = e.shape.y as int;
    let sz = e.shape.z as int;
    let (px, py, pz) = (
        p.x as int - e.minimum.x as int,
        p.y as int - e.minimum.y as int,
        p.z as int - e.minimum.z as int,
    );
    let (qx, qy, qz) = (
        q.x as int - e.minimum.x as int,
        q.y as int - e.minimum.y as int,
        q.z as int - e.minimum.z as int,
    );
    assert(0 <= pz * sy + py < sz * sy) by (nonlinear_arith)
        requires
            0 <= pz < sz,
            0 <= py < sy,
    ;
    assert(0 <= (pz * sy + py) * sx + px < (sz * sy) * sx) by (nonlinear_arith)
        requires
            0 <= pz * sy + py < sz * sy,
            0 <= px < sx,
    ;
    assert(sx * sy * sz == (sz * sy) * sx) by (nonlinear_arith);
    if e.linear_index(p) == e.linear_index(q) {
        let i = e.linear_index(p);
        lemma_fundamental_div_mod_converse(i, sx, pz * sy + py, px);
        lemma_fundamental_div_mod_converse(i, sx, qz * sy + qy, qx);
        let j = pz * sy + py;
        lemma_fundamental_div_mod_converse(j, sy, pz, py);
        lemma_fundamental_div_mod_converse(j, sy, qz, qy);
    }
}

/// Floor division of nested positive divisors composes: `(a / c) / d == a / (c * d)`, also
/// for negative `a`.
pub proof fn lemma_floor_div_nested(a: int, c: int, d: int)
    requires
        c > 0,
        d > 0,
    ensures
        floor_div(floor_div(a, c), d) == floor_div(a, c * d),
{
    let q1 = a / c;
    let r1 = a % c;
    lemma_fundamental_div_mod(a, c);
    let q2 = q1 / d;
    let r2 = q1 % d;
    lemma_fundamental_div_mod(q1, d);
    assert(0 <= r2 * c + r1 < c * d && a == q2 * (c * d) + (r2 * c + r1)) by (nonlinear_arith)
        requires
            0 <= r1 < c,
            0 <= r2 < d,
            a == q1 * c + r1,
            q1 == q2 * d + r2,
    ;
    lemma_fundamental_div_mod_converse(a, c * d, q2, r2 * c + r1);
}

/// Floor division of a lattice coordinate by a positive divisor.
pub fn floor_div_i32(a: i32, b: i32) -> (r: i32)
    requires
        b > 0,
    ensures
        r as int == floor_div(a as int, b as int),
{
    if a >= 0 {
        let q = (a as u32) / (b as u32);
        assert(q <= a) by (nonlinear_arith)
            requires
                q == (a as u32) as int / (b as u32) as int,
                a >= 0,
                b > 0,
        ;
        q as i32
    } else {
        let n: u64 = (-(a as i64) - 1) as u64;
        let q: u64 = n / (b as u64);
        proof {
            let rem = n as int % b as int;
            lemma_fundamental_div_mod(n as int, b as int);
            assert(q <= n) by (nonlinear_arith)
                requires
                    q == n as int / b as int,
                    n >= 0,
                    b > 0,
            ;
            assert(a as int == (-(q as int) - 1) * b as int + (b as int - rem - 1)) by (
            nonlinear_arith)
                requires
                    n as int == b as int * q as int + rem,
                    a as int == -(n as int) - 1,
            ;
            lemma_fundamental_div_mod_converse(a as int, b as int, -(q as int) - 1, b - rem - 1);
        }
        (-(q as i64) - 1) as i32
    }
}

/// Componentwise floor division by a positive shape.
pub open spec fn point_floor_div(p: Point3i, s: Point3i) -> (int, int, int) {
    (floor_div(p.x as int, s.x as int), floor_div(p.y as int, s.y as int), floor_div(p.z as int, s.z as int))
}

pub fn point_floor_div_exec(p: Point3i, s: Point3i) -> (r: Point3i)
    requires
        s.x > 0,
        s.y > 0,
        s.z > 0,
    ensures
        (r.x as int, r.y as int, r.z as int) == point_floor_div(p, s),
{
    Point3i { x: floor_div_i32(p.x, s.x), y: floor_div_i32(p.y, s.y), z: floor_div_i32(p.z, s.z) }
}

} // verus!
