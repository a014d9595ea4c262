//! Integer points, displacements and axis-aligned boxes of grid cells.
use vstd::prelude::*;

verus! {

/// A grid point, or the cell whose lowest corner is that point.
#[derive(Clone, Copy, Debug, PartialEq, Eq, Structural)]
pub struct Point {
    pub x: i32,
    pub y: i32,
    pub z: i32,
}

/// A displacement between grid points.
#[derive(Clone, Copy, Debug, PartialEq, Eq, Structural)]
pub struct Vector {
    pub x: i32,
    pub y: i32,
    pub z: i32,
}

/// The points `origin <= p < origin + size`, axis by axis. Boxes are walked with `x` as the
/// slowest axis and `z` as the fastest one.
#[derive(Clone, Copy, Debug, PartialEq, Eq, Structural)]
pub struct RangeZYX {
    pub origin: Point,
    pub size: Vector,
}

/// Whether a coordinate is a grid coordinate.
pub open spec fn on_axis(v: int) -> bool {
    i32::MIN <= v <= i32::MAX
}

/// Whether a coordinate and its two neighbors are grid coordinates.
pub open spec fn inner_on_axis(v: int) -> bool {
    i32::MIN < v < i32::MAX
}

impl Vector {
    pub fn new(x: i32, y: i32, z: i32) -> (v: Vector)
        ensures
            v == (Vector { x, y, z }),
    {
        Vector { x, y, z }
    }

    /// The vector with all three components equal to `v`.
    pub fn repeat(v: i32) -> (r: Vector)
        ensures
            r == (Vector { x: v, y: v, z: v }),
    {
        Vector { x: v, y: v, z: v }
    }
}

impl Point {
    pub fn new(x: i32, y: i32, z: i32) -> (p: Point)
        ensures
            p == (Point { x, y, z }),
    {
        Point { x, y, z }
    }

    /// Whether `self + d` is a grid point.
    pub open spec fn can_shift(self, d: Vector) -> bool {
        &&& on_axis(self.x + d.x)
        &&& on_axis(self.y + d.y)
        &&& on_axis(self.z + d.z)
    }

    /// The point `self + d`.
    pub open spec fn shifted(self, d: Vector) -> Point {
        Point { x: (self.x + d.x) as i32, y: (self.y + d.y) as i32, z: (self.z + d.z) as i32 }
    }

    /// Whether all points at distance one along each axis are grid points.
    pub open spec fn inner(self) -> bool {
        &&& inner_on_axis(self.x as int)
        &&& inner_on_axis(self.y as int)
        &&& inner_on_axis(self.z as int)
    }

    /// `self + d`.
    pub fn shift(self, d: Vector) -> (p: Point)
        requires
            self.can_shift(d),
        ensures
            p == self.shifted(d),
    {
        Point { x: self.x + d.x, y: self.y + d.y, z: self.z + d.z }
    }
}

/// Corner `k` of the unit cube, `0 <= k < 8`: the binary digits of `k` are its coordinates,
/// most significant first.
pub open spec fn corner_offset(k: int) -> Vector {
    Vector { x: (k / 4) as i32, y: (k / 2 % 2) as i32, z: (k % 2) as i32 }
}

/// The six face neighbors of a cell, in the order in which they are visited.
pub open spec fn fill_neighbor(k: int) -> Vector {
    if k == 0 {
        Vector { x: 1, y: 0, z: 0 }
    } else if k == 1 {
        Vector { x: -1i32, y: 0, z: 0 }
    } else if k == 2 {
        Vector { x: 0, y: 1, z: 0 }
    } else if k == 3 {
        Vector { x: 0, y: -1i32, z: 0 }
    } else if k == 4 {
        Vector { x: 0, y: 0, z: 1 }
    } else {
        Vector { x: 0, y: 0, z: -1i32 }
    }
}

/// The displacement to face neighbor `k`.
pub fn neighbor_step(k: usize) -> (v: Vector)
    requires
        k < 6,
    ensures
        v == fill_neighbor(k as int),
{
    match k {
        0 => Vector { x: 1, y: 0, z: 0 },
        1 => Vector { x: -1, y: 0, z: 0 },
        2 => Vector { x: 0, y: 1, z: 0 },
        3 => Vector { x: 0, y: -1, z: 0 },
        4 => Vector { x: 0, y: 0, z: 1 },
        _ => Vector { x: 0, y: 0, z: -1 },
    }
}

/// The part of the interval of length `an` at `a` that lies in the interval of length `bn` at
/// `b`, as its start and its length; the length is zero where the intervals do not meet.
pub open spec fn axis_overlap(a: int, an: int, b: int, bn: int) -> (int, int) {
    let lo = if a >= b { a } else { b };
    let hi = if a + an <= b + bn { a + an } else { b + bn };
    (lo, if hi > lo { hi - lo } else { 0 })
}

fn overlap(a: i32, an: i32, b: i32, bn: i32) -> (r: (i32, i32))
    requires
        an >= 0,
        bn >= 0,
    ensures
        r.0 as int == axis_overlap(a as int, an as int, b as int, bn as int).0,
        r.1 as int == axis_overlap(a as int, an as int, b as int, bn as int).1,
{
    let lo: i32 = if a >= b { a } else { b };
    let a_end: i64 = a as i64 + an as i64;
    let b_end: i64 = b as i64 + bn as i64;
    let hi: i64 = if a_end <= b_end { a_end } else { b_end };
    if hi > lo as i64 {
        (lo, (hi - lo as i64) as i32)
    } else {
        (lo, 0)
    }
}

impl RangeZYX {
    /// No side of the box is negative.
    pub open spec fn valid(self) -> bool {
        self.size.x >= 0 && self.size.y >= 0 && self.size.z >= 0
    }

    /// The box holds the point `p`.
    pub open spec fn has(self, p: Point) -> bool {
        &&& self.origin.x <= p.x < self.origin.x + self.size.x
        &&& self.origin.y <= p.y < self.origin.y + self.size.y
        &&& self.origin.z <= p.z < self.origin.z + self.size.z
    }

    /// The closed box, which also holds the far faces, holds the point `p`.
    pub open spec fn touches(self, p: Point) -> bool {
        &&& self.origin.x <= p.x <= self.origin.x + self.size.x
        &&& self.origin.y <= p.y <= self.origin.y + self.size.y
        &&& self.origin.z <= p.z <= self.origin.z + self.size.z
    }

    /// All of `other` lies in the box.
    pub open spec fn encloses(self, other: RangeZYX) -> bool {
        &&& self.origin.x <= other.origin.x
        &&& self.origin.y <= other.origin.y
        &&& self.origin.z <= other.origin.z
        &&& other.origin.x + other.size.x <= self.origin.x + self.size.x
        &&& other.origin.y + other.size.y <= self.origin.y + self.size.y
        &&& other.origin.z + other.size.z <= self.origin.z + self.size.z
    }

    /// The far corner of the box is a grid point.
    pub open spec fn fits(self) -> bool {
        &&& self.valid()
        &&& on_axis(self.origin.x + self.size.x)
        &&& on_axis(self.origin.y + self.size.y)
        &&& on_axis(self.origin.z + self.size.z)
    }

    /// The box is a cube of side `n`.
    pub open spec fn is_cube(self, n: int) -> bool {
        self.size.x == n && self.size.y == n && self.size.z == n
    }

    /// The number of points in the box.
    pub open spec fn count(self) -> int {
        self.size.x * self.size.y * self.size.z
    }

    /// The points that both boxes hold.
    pub open spec fn overlap_with(self, other: RangeZYX) -> RangeZYX {
        let x = axis_overlap(
            self.origin.x as int,
            self.size.x as int,
            other.origin.x as int,
            other.size.x as int,
        );
        let y = axis_overlap(
            self.origin.y as int,
            self.size.y as int,
            other.origin.y as int,
            other.size.y as int,
        );
        let z = axis_overlap(
            self.origin.z as int,
            self.size.z as int,
            other.origin.z as int,
            other.size.z as int,
        );
        RangeZYX {
            origin: Point { x: x.0 as i32, y: y.0 as i32, z: z.0 as i32 },
            size: Vector { x: x.1 as i32, y: y.1 as i32, z: z.1 as i32 },
        }
    }

    /// No point lies in both boxes.
    pub open spec fn disjoint(self, other: RangeZYX) -> bool {
        forall|p: Point| !(#[trigger] self.has(p) && other.has(p))
    }

    /// Octant `k` of the box, `0 <= k < 8`.
    pub open spec fn octant(self, k: int) -> RangeZYX {
        let half = self.size.x / 2;
        let o = corner_offset(k);
        RangeZYX {
            origin: Point {
                x: (self.origin.x + half * o.x) as i32,
                y: (self.origin.y + half * o.y) as i32,
                z: (self.origin.z + half * o.z) as i32,
            },
            size: Vector { x: half as i32, y: half as i32, z: half as i32 },
        }
    }

    /// The cube of side `extent` whose lowest corner is `origin`.
    pub fn with_extent(origin: Point, extent: i32) -> (r: RangeZYX)
        ensures
            r.origin == origin,
            r.is_cube(extent as int),
    {
        RangeZYX { origin, size: Vector::repeat(extent) }
    }

    /// Corner `k` of the unit cube.
    pub fn offset(k: usize) -> (v: Vector)
        requires
            k < 8,
        ensures
            v == corner_offset(k as int),
    {
        Vector { x: (k / 4) as i32, y: (k / 2 % 2) as i32, z: (k % 2) as i32 }
    }

    /// Whether the box holds the point `p`.
    pub fn contains(&self, p: Point) -> (b: bool)
        requires
            self.valid(),
        ensures
            b == self.has(p),
    {
        self.origin.x <= p.x && (p.x as i64) < self.origin.x as i64 + self.size.x as i64
            && self.origin.y <= p.y && (p.y as i64) < self.origin.y as i64 + self.size.y as i64
            && self.origin.z <= p.z && (p.z as i64) < self.origin.z as i64 + self.size.z as i64
    }

    /// The points that both boxes hold, as a box.
    pub fn intersection(&self, other: &RangeZYX) -> (r: RangeZYX)
        requires
            self.valid(),
            other.valid(),
        ensures
            r == self.overlap_with(*other),
            r.valid(),
            forall|p: Point| #[trigger] r.has(p) <==> self.has(p) && other.has(p),
    {
        let (x, w): (i32, i32) = overlap(self.origin.x, self.size.x, other.origin.x, other.size.x);
        let (y, h): (i32, i32) = overlap(self.origin.y, self.size.y, other.origin.y, other.size.y);
        let (z, d): (i32, i32) = overlap(self.origin.z, self.size.z, other.origin.z, other.size.z);
        RangeZYX { origin: Point { x, y, z }, size: Vector { x: w, y: h, z: d } }
    }

    /// The number of points in the box.
    pub fn volume(&self) -> (n: u128)
        requires
            self.valid(),
        ensures
            n as int == self.count(),
            n == 0 <==> (forall|p: Point| !self.has(p)),
    {
        let (x, y, z): (u128, u128, u128) = (
            self.size.x as u128,
            self.size.y as u128,
            self.size.z as u128,
        );
        proof {
            lemma_product_bound(x as int, y as int, z as int);
            lemma_count_zero(*self);
        }
        x * y * z
    }

    /// Octant `k` of a cube of even side.
    pub fn split(&self, k: usize) -> (r: RangeZYX)
        requires
            k < 8,
            self.fits(),
            self.is_cube(self.size.x as int),
        ensures
            r == self.octant(k as int),
    {
        let half: i32 = self.size.x / 2;
        let o: Vector = RangeZYX::offset(k);
        proof {
            lemma_octant_offset(half as int, k as int);
        }
        RangeZYX {
            origin: Point {
                x: self.origin.x + half * o.x,
                y: self.origin.y + half * o.y,
                z: self.origin.z + half * o.z,
            },
            size: Vector { x: half, y: half, z: half },
        }
    }
}

/// A component of a corner of the unit cube is zero or one.
pub proof fn lemma_octant_offset(half: int, k: int)
    requires
        0 <= k < 8,
    ensures
        corner_offset(k).x == 0 || corner_offset(k).x == 1,
        corner_offset(k).y == 0 || corner_offset(k).y == 1,
        corner_offset(k).z == 0 || corner_offset(k).z == 1,
        half * corner_offset(k).x == if corner_offset(k).x == 0 { 0 } else { half },
        half * corner_offset(k).y == if corner_offset(k).y == 0 { 0 } else { half },
        half * corner_offset(k).z == if corner_offset(k).z == 0 { 0 } else { half },
{
    let o = corner_offset(k);
    assert(half * o.x == if o.x == 0 { 0 } else { half }) by (nonlinear_arith)
        requires
            o.x == 0 || o.x == 1,
    ;
    assert(half * o.y == if o.y == 0 { 0 } else { half }) by (nonlinear_arith)
        requires
            o.y == 0 || o.y == 1,
    ;
    assert(half * o.z == if o.z == 0 { 0 } else { half }) by (nonlinear_arith)
        requires
            o.z == 0 || o.z == 1,
    ;
}

proof fn lemma_product_bound(x: int, y: int, z: int)
    requires
        0 <= x <= i32::MAX,
        0 <= y <= i32::MAX,
        0 <= z <= i32::MAX,
    ensures
        0 <= x * y <= i32::MAX * i32::MAX,
        0 <= x * y * z <= i32::MAX * i32::MAX * i32::MAX,
{
    assert(0 <= x * y <= 0x7fff_ffff * 0x7fff_ffff) by (nonlinear_arith)
        requires
            0 <= x <= 0x7fff_ffff,
            0 <= y <= 0x7fff_ffff,
    ;
    let xy = x * y;
    assert(0 <= xy * z <= 0x7fff_ffff * 0x7fff_ffff * 0x7fff_ffff) by (nonlinear_arith)
        requires
            0 <= xy <= 0x7fff_ffff * 0x7fff_ffff,
            0 <= z <= 0x7fff_ffff,
    ;
}

/// A box without points has a side of length zero, and only such a box has no points.
proof fn lemma_count_zero(r: RangeZYX)
    requires
        r.valid(),
    ensures
        r.count() == 0 <==> (forall|p: Point| !r.has(p)),
{
    let (x, y, z) = (r.size.x as int, r.size.y as int, r.size.z as int);
    assert(x * y * z == 0 <==> x == 0 || y == 0 || z == 0) by (nonlinear_arith)
        requires
            x >= 0,
            y >= 0,
            z >= 0,
    ;
    if r.count() != 0 {
        assert(r.has(r.origin));
    }
}

} // verus!
