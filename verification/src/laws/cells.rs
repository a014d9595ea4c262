//! Corners, neighbors, octants and volumes, by their coordinates.
use crate::geometry::{fill_neighbor, lemma_octant_offset, Point, RangeZYX, Vector};
use crate::offset::{corner, has_corners, is_corner};
use crate::svo::may_be_node;
use vstd::prelude::*;

verus! {

/// `p` lies zero or one steps above the lowest corner of `cell` along each axis.
pub open spec fn around_cell(cell: Point, p: Point) -> bool {
    &&& cell.x <= p.x <= cell.x + 1
    &&& cell.y <= p.y <= cell.y + 1
    &&& cell.z <= p.z <= cell.z + 1
}

/// `v` leads one step along one axis.
pub open spec fn is_step(v: Vector) -> bool {
    ||| (v.x == 1 || v.x == -1) && v.y == 0 && v.z == 0
    ||| v.x == 0 && (v.y == 1 || v.y == -1) && v.z == 0
    ||| v.x == 0 && v.y == 0 && (v.z == 1 || v.z == -1)
}

/// A point is moved along each axis on its own.
pub proof fn points_are_moved_along_each_axis(p: Point, d: Vector)
    requires
        i32::MIN <= p.x + d.x <= i32::MAX,
        i32::MIN <= p.y + d.y <= i32::MAX,
        i32::MIN <= p.z + d.z <= i32::MAX,
    ensures
        p.can_shift(d),
        p.shifted(d).x == p.x + d.x,
        p.shifted(d).y == p.y + d.y,
        p.shifted(d).z == p.z + d.z,
{
}

/// A box holds the points from its origin on, and less than its size beyond it, along each axis;
/// the closed box holds those at its size too.
pub proof fn boxes_reach_from_their_origin(r: RangeZYX, p: Point)
    ensures
        r.has(p) <==> 0 <= p.x - r.origin.x < r.size.x && 0 <= p.y - r.origin.y < r.size.y && 0
            <= p.z - r.origin.z < r.size.z,
        r.touches(p) <==> 0 <= p.x - r.origin.x <= r.size.x && 0 <= p.y - r.origin.y <= r.size.y
            && 0 <= p.z - r.origin.z <= r.size.z,
{
}

/// The corners of a cell are the eight points around it, numbered with the last axis fastest.
pub proof fn corners_are_around_their_cell(cell: Point, p: Point)
    requires
        has_corners(cell),
    ensures
        is_corner(cell, p) <==> around_cell(cell, p),
        around_cell(cell, p) ==> corner(
            cell,
            4 * (p.x - cell.x) + 2 * (p.y - cell.y) + (p.z - cell.z),
        ) == p,
        forall|k: int| 0 <= k < 8 ==> around_cell(cell, #[trigger] corner(cell, k)),
        forall|j: int, k: int|
            0 <= j < 8 && 0 <= k < 8 && j != k ==> #[trigger] corner(cell, j) != #[trigger] corner(
                cell,
                k,
            ),
{
    assert forall|k: int| 0 <= k < 8 implies around_cell(cell, #[trigger] corner(cell, k)) && k == 4
        * (corner(cell, k).x - cell.x) + 2 * (corner(cell, k).y - cell.y) + (corner(cell, k).z
        - cell.z) by {
        lemma_octant_offset(1, k);
    }
    if around_cell(cell, p) {
        let k = 4 * (p.x - cell.x) + 2 * (p.y - cell.y) + (p.z - cell.z);
        lemma_octant_offset(1, k);
        assert(corner(cell, k) == p);
    }
}

/// The six face neighbors are the points one step away, each once, opposite ones in pairs.
pub proof fn neighbors_are_one_step_away(v: Vector)
    ensures
        is_step(v) <==> exists|k: int| 0 <= k < 6 && v == #[trigger] fill_neighbor(k),
        forall|j: int, k: int|
            0 <= j < 6 && 0 <= k < 6 && j != k ==> #[trigger] fill_neighbor(j)
                != #[trigger] fill_neighbor(k),
        forall|k: int|
            0 <= k < 6 && k % 2 == 0 ==> (#[trigger] fill_neighbor(k)).x == -fill_neighbor(k + 1).x
                && fill_neighbor(k).y == -fill_neighbor(k + 1).y && fill_neighbor(k).z
                == -fill_neighbor(k + 1).z && fill_neighbor(k).x + fill_neighbor(k).y
                + fill_neighbor(k).z == 1,
{
    if is_step(v) {
        let k: int = if v.x == 1 {
            0
        } else if v.x == -1 {
            1
        } else if v.y == 1 {
            2
        } else if v.y == -1 {
            3
        } else if v.z == 1 {
            4
        } else {
            5
        };
        assert(v == fill_neighbor(k));
    }
}

/// Octant `k` holds the points of the box in the upper half along the axes that the binary digits
/// of `k` name, and in the lower half along the others.
pub proof fn octants_are_halves(r: RangeZYX, k: int, p: Point)
    requires
        may_be_node(r, r),
        r.size.x > 1,
        0 <= k < 8,
    ensures
        r.octant(k).has(p) <==> {
            &&& r.has(p)
            &&& 2 * (p.x - r.origin.x) >= r.size.x <==> k >= 4
            &&& 2 * (p.y - r.origin.y) >= r.size.x <==> k % 4 >= 2
            &&& 2 * (p.z - r.origin.z) >= r.size.x <==> k % 2 == 1
        },
        r.octant(k).is_cube(r.size.x / 2),
{
    lemma_octant_offset(r.size.x as int / 2, k);
}

/// Volumes add up: a box that is cut in two along an axis has the points of both parts, a single
/// cell is one point, and a flat box has none.
pub proof fn volumes_add_up(r: RangeZYX, a: RangeZYX, b: RangeZYX)
    requires
        r.valid(),
        a.valid(),
        b.valid(),
    ensures
        a.size.x + b.size.x == r.size.x && a.size.y == b.size.y == r.size.y && a.size.z == b.size.z
            == r.size.z ==> r.count() == a.count() + b.count(),
        a.size.y + b.size.y == r.size.y && a.size.x == b.size.x == r.size.x && a.size.z == b.size.z
            == r.size.z ==> r.count() == a.count() + b.count(),
        a.size.z + b.size.z == r.size.z && a.size.x == b.size.x == r.size.x && a.size.y == b.size.y
            == r.size.y ==> r.count() == a.count() + b.count(),
        r.is_cube(1) ==> r.count() == 1,
        r.size.x == 0 || r.size.y == 0 || r.size.z == 0 ==> r.count() == 0,
{
    let (x, y, z) = (r.size.x as int, r.size.y as int, r.size.z as int);
    let (ax, ay, az) = (a.size.x as int, a.size.y as int, a.size.z as int);
    let (bx, by, bz) = (b.size.x as int, b.size.y as int, b.size.z as int);
    assert(ax + bx == x ==> ax * y * z + bx * y * z == x * y * z) by (nonlinear_arith);
    assert(ay + by == y ==> x * ay * z + x * by * z == x * y * z) by (nonlinear_arith);
    assert(az + bz == z ==> x * y * az + x * y * bz == x * y * z) by (nonlinear_arith);
    assert(x == 0 || y == 0 || z == 0 ==> x * y * z == 0) by (nonlinear_arith);
    assert(x == 1 && y == 1 && z == 1 ==> x * y * z == 1) by (nonlinear_arith);
}

} // verus!
