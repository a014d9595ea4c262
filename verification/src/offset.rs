//! Vertex offsets: where the vertex of a grid corner lies, in lattice steps.
use crate::geometry::{corner_offset, Point, RangeZYX};
use crate::scalar::{Scalar, MAX_OFFSET};
use vstd::prelude::*;

verus! {

/// An encoded vertex offset.
#[derive(Clone, Copy, Debug, PartialEq, Eq, Structural)]
pub struct Encoded {
    pub x: u8,
    pub y: u8,
    pub z: u8,
}

/// A displacement in lattice steps.
#[derive(Clone, Copy, Debug, PartialEq, Eq, Structural)]
pub struct Displacement {
    pub x: Scalar,
    pub y: Scalar,
    pub z: Scalar,
}

/// The offsets of placed vertices, by grid corner.
pub type Vertices = Map<Point, Encoded>;

impl Encoded {
    /// No component is larger than the largest offset.
    pub open spec fn on_lattice(self) -> bool {
        self.x <= MAX_OFFSET && self.y <= MAX_OFFSET && self.z <= MAX_OFFSET
    }
}

impl Displacement {
    /// The offset at the nearest lattice steps from the grid corner.
    pub open spec fn rounded(self) -> Encoded {
        Encoded {
            x: self.x.rounded_offset(),
            y: self.y.rounded_offset(),
            z: self.z.rounded_offset(),
        }
    }

    /// The offset of a displacement from the low end of the lattice.
    pub open spec fn truncated(self) -> Encoded {
        Encoded {
            x: self.x.truncated_offset(),
            y: self.y.truncated_offset(),
            z: self.z.truncated_offset(),
        }
    }

    /// Encodes a displacement from the grid corner.
    pub fn to_full_offset(self) -> (e: Encoded)
        ensures
            e == self.rounded(),
            e.on_lattice(),
    {
        Encoded { x: self.x.round_offset(), y: self.y.round_offset(), z: self.z.round_offset() }
    }

    /// Encodes a displacement from the low end of the lattice.
    pub fn to_voxel_offset(self) -> (e: Encoded)
        ensures
            e == self.truncated(),
            e.on_lattice(),
    {
        Encoded {
            x: self.x.truncate_offset(),
            y: self.y.truncate_offset(),
            z: self.z.truncate_offset(),
        }
    }
}

/// Corner `k` of a cell.
pub open spec fn corner(cell: Point, k: int) -> Point {
    cell.shifted(corner_offset(k))
}

/// `p` is a corner of `cell`.
pub open spec fn is_corner(cell: Point, p: Point) -> bool {
    exists|k: int| 0 <= k < 8 && p == #[trigger] corner(cell, k)
}

/// The far corner of a cell is a grid point.
pub open spec fn has_corners(cell: Point) -> bool {
    cell.x < i32::MAX && cell.y < i32::MAX && cell.z < i32::MAX
}

/// Every neighbor of a corner of a cell is a grid point.
pub open spec fn is_roomy(cell: Point) -> bool {
    &&& i32::MIN < cell.x < i32::MAX - 1
    &&& i32::MIN < cell.y < i32::MAX - 1
    &&& i32::MIN < cell.z < i32::MAX - 1
}

/// Corner `k` of a cell.
pub fn cell_corner(cell: Point, k: usize) -> (p: Point)
    requires
        k < 8,
        has_corners(cell),
    ensures
        p == corner(cell, k as int),
        cell.x <= p.x <= cell.x + 1,
        cell.y <= p.y <= cell.y + 1,
        cell.z <= p.z <= cell.z + 1,
{
    cell.shift(RangeZYX::offset(k))
}

/// Every vertex of `a` is a vertex of `b`, at the same place.
pub open spec fn extends(a: Vertices, b: Vertices) -> bool {
    forall|p: Point| #[trigger]
        a.contains_key(p) ==> b.contains_key(p) && b[p] == a[p]
}

/// Every offset lies on the lattice.
pub open spec fn all_on_lattice(v: Vertices) -> bool {
    forall|p: Point| #[trigger] v.contains_key(p) ==> v[p].on_lattice()
}

/// Every vertex and all of its neighbors belong to grid points.
pub open spec fn all_inner(v: Vertices) -> bool {
    forall|p: Point| #[trigger] v.contains_key(p) ==> p.inner()
}

} // verus!
