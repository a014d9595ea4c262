//! Which fill cells continue a face, and where their corners go.
use crate::fill::{
    face_fill, flattened_cell, flattened_corners, lemma_last_solid_neighbor,
    only_solid_neighbor, only_solid_neighbor_is_the_only_one, solid_cells,
};
use crate::geometry::{fill_neighbor, Point, Vector};
use crate::laws::bytes::number;
use crate::laws::cells::{
    around_cell, corners_are_around_their_cell, is_step, neighbors_are_one_step_away,
};
use crate::offset::{corner, has_corners, is_corner, Displacement, Vertices};
use crate::scalar::Scalar;
use crate::surface::Answers;
use crate::svo::SvoLeaf;
use crate::vertices::flattened_fills;
use crate::voxel::Voxel;
use vstd::prelude::*;

verus! {

/// A cell counts as solid if it is the lowest cell of a leaf that lies inside, or a boundary cell
/// whose center does.
pub proof fn solid_cells_are_inside(leaves: Seq<SvoLeaf<Voxel>>, p: Point)
    ensures
        solid_cells(leaves).contains(p) <==> exists|i: int|
            0 <= i < leaves.len() && (#[trigger] leaves[i]).range.origin == p && (leaves[i].value
                == Voxel::Internal || leaves[i].value == Voxel::Boundry(true)),
{
    if solid_cells(leaves).contains(p) {
        let i = choose|i: int|
            0 <= i < leaves.len() && crate::fill::is_solid((#[trigger] leaves[i]).value)
                && leaves[i].range.origin == p;
        assert(leaves[i].range.origin == p);
    }
}

/// The cell that `v` leads to is solid, and no other face neighbor of `cell` is.
pub open spec fn is_only_solid(cell: Point, solid: Set<Point>, v: Vector) -> bool {
    &&& is_step(v)
    &&& solid.contains(cell.shifted(v))
    &&& forall|u: Vector| #[trigger] is_step(u) && u != v ==> !solid.contains(cell.shifted(u))
}

/// A direction is found exactly if it leads to the only solid face neighbor; where none or several
/// are solid, nothing is.
pub proof fn the_only_solid_neighbor_is_found(cell: Point, solid: Set<Point>, v: Vector)
    ensures
        only_solid_neighbor(cell, solid) == Some(v) <==> is_only_solid(cell, solid, v),
{
    neighbors_are_one_step_away(v);
    lemma_last_solid_neighbor(cell, solid, 6);
    if only_solid_neighbor(cell, solid) == Some(v) {
        let k = choose|k: int| 0 <= k < 6 && v == #[trigger] fill_neighbor(k);
        only_solid_neighbor_is_the_only_one(cell, solid, k);
        assert forall|u: Vector| #[trigger] is_step(u) && u != v implies !solid.contains(
            cell.shifted(u),
        ) by {
            neighbors_are_one_step_away(u);
            let j = choose|j: int| 0 <= j < 6 && u == #[trigger] fill_neighbor(j);
            assert(j != k);
        }
    }
    if is_only_solid(cell, solid, v) {
        let k = choose|k: int| 0 <= k < 6 && v == #[trigger] fill_neighbor(k);
        only_solid_neighbor_is_the_only_one(cell, solid, k);
        assert forall|j: int| 0 <= j < 6 && j != k implies !solid.contains(
            cell.shifted(#[trigger] fill_neighbor(j)),
        ) by {
            neighbors_are_one_step_away(fill_neighbor(j));
            assert(is_step(fill_neighbor(j)));
        }
    }
}

/// A fill cell continues a face if exactly one of its six face neighbors is solid, the normal in
/// its center has a component of at least 0.3 towards that one, and at each of the eight points
/// around the cell there is no normal, or one whose product with the one in the center is at least
/// one half.
pub proof fn face_fills_see_one_face<N>(
    cell: Point,
    solid: Set<Point>,
    cell_normal: spec_fn(Point) -> Option<N>,
    corner_normal: spec_fn(Point) -> Option<N>,
    facing: spec_fn(N, Vector) -> Scalar,
    alignment: spec_fn(N, N) -> Scalar,
)
    requires
        has_corners(cell),
    ensures
        face_fill(cell, solid, cell_normal, corner_normal, facing, alignment) <==> exists|v: Vector|
            {
                &&& #[trigger] is_only_solid(cell, solid, v)
                &&& cell_normal(cell) is Some
                &&& !facing(cell_normal(cell)->Some_0, v).below(number(0x3fd3_3333_3333_3333))
                &&& forall|p: Point|
                    around_cell(cell, p) && (#[trigger] corner_normal(p)) is Some ==> !alignment(
                        cell_normal(cell)->Some_0,
                        corner_normal(p)->Some_0,
                    ).below(number(0x3fe0_0000_0000_0000))
            },
{
    if face_fill(cell, solid, cell_normal, corner_normal, facing, alignment) {
        let v = only_solid_neighbor(cell, solid)->Some_0;
        the_only_solid_neighbor_is_found(cell, solid, v);
        let n = cell_normal(cell)->Some_0;
        assert forall|p: Point|
            around_cell(cell, p) && (#[trigger] corner_normal(p)) is Some implies !alignment(
            n,
            corner_normal(p)->Some_0,
        ).below(number(0x3fe0_0000_0000_0000)) by {
            corners_are_around_their_cell(cell, p);
            let k = choose|k: int| 0 <= k < 8 && p == #[trigger] corner(cell, k);
            assert(corner_normal(corner(cell, k)) is Some);
        }
        assert(is_only_solid(cell, solid, v));
    }
    if exists|v: Vector|
        {
            &&& #[trigger] is_only_solid(cell, solid, v)
            &&& cell_normal(cell) is Some
            &&& !facing(cell_normal(cell)->Some_0, v).below(number(0x3fd3_3333_3333_3333))
            &&& forall|p: Point|
                around_cell(cell, p) && (#[trigger] corner_normal(p)) is Some ==> !alignment(
                    cell_normal(cell)->Some_0,
                    corner_normal(p)->Some_0,
                ).below(number(0x3fe0_0000_0000_0000))
        } {
        let v = choose|v: Vector|
            {
                &&& #[trigger] is_only_solid(cell, solid, v)
                &&& cell_normal(cell) is Some
                &&& !facing(cell_normal(cell)->Some_0, v).below(number(0x3fd3_3333_3333_3333))
                &&& forall|p: Point|
                    around_cell(cell, p) && (#[trigger] corner_normal(p)) is Some ==> !alignment(
                        cell_normal(cell)->Some_0,
                        corner_normal(p)->Some_0,
                    ).below(number(0x3fe0_0000_0000_0000))
            };
        the_only_solid_neighbor_is_found(cell, solid, v);
        let n = cell_normal(cell)->Some_0;
        assert forall|k: int|
            0 <= k < 8 && corner_normal(#[trigger] corner(cell, k)) is Some implies !alignment(
            n,
            corner_normal(corner(cell, k))->Some_0,
        ).below(number(0x3fe0_0000_0000_0000)) by {
            corners_are_around_their_cell(cell, corner(cell, k));
        }
    }
}

proof fn lemma_flattened<P>(
    v: Vertices,
    cell: Point,
    pl: P,
    onto: spec_fn(P, Point) -> Displacement,
    k: nat,
    p: Point,
)
    requires
        k <= 8,
    ensures
        ({
            let f = flattened_corners(v, cell, pl, onto, k);
            let placed = exists|j: int| 0 <= j < k && p == #[trigger] corner(cell, j);
            &&& v.contains_key(p) ==> f.contains_key(p) && f[p] == v[p]
            &&& !v.contains_key(p) ==> (f.contains_key(p) <==> placed)
            &&& !v.contains_key(p) && placed ==> f[p] == onto(pl, p).rounded()
        }),
    decreases k,
{
    if k > 0 {
        lemma_flattened(v, cell, pl, onto, (k - 1) as nat, p);
        if exists|j: int| 0 <= j < k - 1 && p == #[trigger] corner(cell, j) {
            let j = choose|j: int| 0 <= j < k - 1 && p == #[trigger] corner(cell, j);
            assert(0 <= j < k && p == corner(cell, j));
        }
        if p == corner(cell, k - 1) {
            assert(0 <= k - 1 < k && p == corner(cell, k - 1));
        }
    }
}

/// Flattening a cell leaves every vertex that is placed where it is, puts each of the eight points
/// around the cell that is not placed onto the plane, and touches nothing else; without a plane it
/// does nothing.
pub proof fn flattening_places_all_eight_corners<P>(
    v: Vertices,
    cell: Point,
    plane: spec_fn(Point) -> Option<P>,
    onto: spec_fn(P, Point) -> Displacement,
    p: Point,
)
    requires
        has_corners(cell),
    ensures
        ({
            let f = flattened_cell(v, cell, plane, onto);
            &&& v.contains_key(p) ==> f.contains_key(p) && f[p] == v[p]
            &&& !v.contains_key(p) ==> (f.contains_key(p) <==> plane(cell) is Some && around_cell(
                cell,
                p,
            ))
            &&& !v.contains_key(p) && plane(cell) is Some && around_cell(cell, p) ==> f[p] == onto(
                plane(cell)->Some_0,
                p,
            ).rounded()
        }),
{
    corners_are_around_their_cell(cell, p);
    if let Some(pl) = plane(cell) {
        lemma_flattened(v, cell, pl, onto, 8, p);
        assert(is_corner(cell, p) <==> exists|j: int|
            0 <= j < 8 && p == #[trigger] corner(cell, j));
    }
}

/// The leaf is a fill cell that continues a face with a plane, and `p` lies around it.
pub open spec fn flattens<N, P, T>(
    l: SvoLeaf<Voxel>,
    solid: Set<Point>,
    o: Answers<N, P, T>,
    p: Point,
) -> bool {
    let cell = l.range.origin;
    &&& l.value == Voxel::Boundry(false)
    &&& around_cell(cell, p)
    &&& face_fill(cell, solid, o.cell_normal, o.corner_normal, o.facing, o.alignment)
    &&& (o.plane)(cell) is Some
}

/// Every face fill is flattened: a point around one is placed, if it was not before, on the plane
/// of the first face fill that it lies around. No other point is.
pub proof fn every_face_fill_is_flattened<N, P, T>(
    v: Vertices,
    leaves: Seq<SvoLeaf<Voxel>>,
    o: Answers<N, P, T>,
    n: nat,
    p: Point,
)
    requires
        n <= leaves.len(),
        forall|i: int|
            0 <= i < leaves.len() && (#[trigger] leaves[i]).value == Voxel::Boundry(false)
                ==> has_corners(leaves[i].range.origin),
    ensures
        ({
            let f = flattened_fills(v, leaves, o, n);
            let solid = solid_cells(leaves);
            &&& v.contains_key(p) ==> f.contains_key(p) && f[p] == v[p]
            &&& !v.contains_key(p) ==> (f.contains_key(p) <==> exists|i: int|
                0 <= i < n && flattens(#[trigger] leaves[i], solid, o, p))
            &&& forall|i: int|
                !v.contains_key(p) && 0 <= i < n && flattens(#[trigger] leaves[i], solid, o, p) && (
                forall|j: int| 0 <= j < i ==> !flattens(#[trigger] leaves[j], solid, o, p)) ==> f[p]
                    == (o.onto_plane)((o.plane)(leaves[i].range.origin)->Some_0, p).rounded()
        }),
    decreases n,
{
    if n > 0 {
        every_face_fill_is_flattened(v, leaves, o, (n - 1) as nat, p);
        let w = flattened_fills(v, leaves, o, (n - 1) as nat);
        let f = flattened_fills(v, leaves, o, n);
        let solid = solid_cells(leaves);
        let l = leaves[n - 1];
        if l.value == Voxel::Boundry(false) {
            flattening_places_all_eight_corners(w, l.range.origin, o.plane, o.onto_plane, p);
        }
        if exists|i: int| 0 <= i < n - 1 && flattens(#[trigger] leaves[i], solid, o, p) {
            let i = choose|i: int| 0 <= i < n - 1 && flattens(#[trigger] leaves[i], solid, o, p);
            assert(0 <= i < n && flattens(leaves[i], solid, o, p));
        }
        if flattens(l, solid, o, p) {
            assert(flattens(leaves[n - 1], solid, o, p));
        }
        assert forall|i: int|
            !v.contains_key(p) && 0 <= i < n && flattens(#[trigger] leaves[i], solid, o, p) && (
            forall|j: int| 0 <= j < i ==> !flattens(#[trigger] leaves[j], solid, o, p)) implies f[p]
            == (o.onto_plane)((o.plane)(leaves[i].range.origin)->Some_0, p).rounded() by {
            if i < n - 1 {
                assert(w.contains_key(p));
            } else {
                assert(!w.contains_key(p));
            }
        }
    }
}

} // verus!
