//! The surface of a mesh, as the voxelizer asks about it.
use crate::fill::{can_flatten, can_see_faces};
use crate::geometry::{Point, RangeZYX, Vector};
use crate::neighbors::{can_ask_average, can_ask_relaxed, Neighborhood};
use crate::offset::{Displacement, Encoded};
use crate::probe::{agrees1, agrees2, agrees3, agrees_on_lists};
use crate::scalar::Scalar;
use crate::snap::{can_snap, comparable, snap_target, walks_as, Facet, LatticePoint, SnapTarget};
use vstd::prelude::*;

verus! {

/// What the voxelizer asks about a surface. Displacements are in lattice steps.
pub struct Surface<H, S, C, K, FT, FF, G, W, E, AF, AL, NC, NV, F, L, PL, ON, AV, R> {
    /// Whether the surface meets a box.
    pub intersects: H,
    /// Whether the center of a box, or one of its vertices, lies in the mesh.
    pub sample_inside: S,
    /// Whether a grid corner lies in the mesh.
    pub corner_inside: C,
    /// The displacement from a grid corner to the nearest point of the surface.
    pub closest: K,
    /// The triangle that a grid corner is snapped to, given the cells that anchor it: the one that
    /// is nearest to the mean of their centers.
    pub facet: FT,
    /// The features of such a triangle.
    pub features: FF,
    /// The distance of the start of a walk to a feature from the point of the feature that is
    /// nearest to the anchor.
    pub gap: G,
    /// The lattice points along such a walk.
    pub walk: W,
    /// The distance of a lattice point from a feature.
    pub error: E,
    /// The displacement from the low end of the lattice of the grid corner to the point of a
    /// feature that is nearest to the anchor.
    pub at_feature: AF,
    /// The displacement from the low end of the lattice of the grid corner to a lattice point.
    pub at_lattice: AL,
    /// The normal of the triangle that is nearest to the center of a cell.
    pub cell_normal: NC,
    /// The normal of the triangle that is nearest to a grid corner.
    pub corner_normal: NV,
    /// The dot product of a normal with a direction.
    pub facing: F,
    /// The dot product of two normals.
    pub alignment: L,
    /// The plane of the triangle that is nearest to the center of a cell.
    pub plane: PL,
    /// The displacement from a grid corner straight onto a plane.
    pub onto_plane: ON,
    /// The displacement from a grid corner to the mean position of its placed neighbors.
    pub average: AV,
    /// The displacement from a grid corner to the point of the surface that is nearest to the
    /// middle between its vertex and the mean of its placed neighbors.
    pub relaxed: R,
}

/// A surface as mathematical functions: one for each question.
#[verifier::reject_recursive_types(N)]
#[verifier::reject_recursive_types(P)]
#[verifier::reject_recursive_types(T)]
pub struct Answers<N, P, T> {
    pub intersects: spec_fn(RangeZYX) -> bool,
    pub sample_inside: spec_fn(RangeZYX, usize) -> bool,
    pub corner_inside: spec_fn(Point) -> bool,
    pub closest: spec_fn(Point) -> Displacement,
    pub facet: spec_fn(Point, Seq<Point>) -> T,
    pub features: spec_fn(T) -> Facet,
    pub gap: spec_fn(T, SnapTarget, usize) -> Scalar,
    pub walk: spec_fn(T, SnapTarget, usize) -> Seq<LatticePoint>,
    pub error: spec_fn(T, SnapTarget, LatticePoint) -> Scalar,
    pub at_feature: spec_fn(T, SnapTarget) -> Displacement,
    pub at_lattice: spec_fn(T, LatticePoint) -> Displacement,
    pub cell_normal: spec_fn(Point) -> Option<N>,
    pub corner_normal: spec_fn(Point) -> Option<N>,
    pub facing: spec_fn(N, Vector) -> Scalar,
    pub alignment: spec_fn(N, N) -> Scalar,
    pub plane: spec_fn(Point) -> Option<P>,
    pub onto_plane: spec_fn(P, Point) -> Displacement,
    pub average: spec_fn(Point, Neighborhood) -> Displacement,
    pub relaxed: spec_fn(Point, Encoded, Neighborhood) -> Displacement,
}

/// Cells of the box, at least one.
pub open spec fn are_cells_of(range: RangeZYX, cells: Seq<Point>) -> bool {
    cells.len() > 0 && forall|i: int| 0 <= i < cells.len() ==> range.has(#[trigger] cells[i])
}

impl<
    N: Copy,
    P: Copy,
    T: Copy,
    H: Fn(RangeZYX) -> bool,
    S: Fn(RangeZYX, usize) -> bool,
    C: Fn(Point) -> bool,
    K: Fn(Point) -> Displacement,
    FT: Fn(Point, &Vec<Point>) -> T,
    FF: Fn(T) -> Facet,
    G: Fn(T, SnapTarget, usize) -> Scalar,
    W: Fn(T, SnapTarget, usize) -> Vec<LatticePoint>,
    E: Fn(T, SnapTarget, LatticePoint) -> Scalar,
    AF: Fn(T, SnapTarget) -> Displacement,
    AL: Fn(T, LatticePoint) -> Displacement,
    NC: Fn(Point) -> Option<N>,
    NV: Fn(Point) -> Option<N>,
    F: Fn(N, Vector) -> Scalar,
    L: Fn(N, N) -> Scalar,
    PL: Fn(Point) -> Option<P>,
    ON: Fn(P, Point) -> Displacement,
    AV: Fn(Point, Neighborhood) -> Displacement,
    R: Fn(Point, Encoded, Neighborhood) -> Displacement,
> Surface<H, S, C, K, FT, FF, G, W, E, AF, AL, NC, NV, F, L, PL, ON, AV, R> {
    /// The triangle that `p` is snapped to may be asked for, given the cells that anchor it, and
    /// what has to be known of it. The distances between features that are compared are numbers.
    pub open spec fn can_snap_corner(self, p: Point, cells: &Vec<Point>) -> bool {
        &&& call_requires(self.facet, (p, cells))
        &&& forall|t: T| #[trigger]
            call_ensures(self.facet, (p, cells), t) ==> call_requires(self.features, (t,))
        &&& forall|t: T, f: Facet|
            #[trigger] call_ensures(self.facet, (p, cells), t) && #[trigger] call_ensures(
                self.features,
                (t,),
                f,
            ) ==> comparable(f) && can_snap(
                t,
                snap_target(f),
                self.gap,
                self.walk,
                self.error,
                self.at_feature,
                self.at_lattice,
            )
    }

    /// What smoothing has to know of the cells of `range` and of their corners may be asked.
    pub open spec fn can_smooth(self, range: RangeZYX) -> bool {
        &&& forall|p: Point| range.touches(p) ==> #[trigger] call_requires(self.closest, (p,))
        &&& forall|c: Point|
            range.has(c) ==> #[trigger] can_see_faces(
                c,
                self.cell_normal,
                self.corner_normal,
                self.facing,
                self.alignment,
            )
        &&& forall|c: Point|
            range.has(c) ==> #[trigger] can_flatten(c, self.plane, self.onto_plane)
        &&& forall|p: Point|
            range.touches(p) && p.inner() ==> #[trigger] can_ask_average(self.average, p)
    }

    /// What has to be known to find the vertices of the cells of `range` may be asked: where the
    /// corners lie, without smoothing what they are snapped to, and with it what it takes.
    pub open spec fn can_extract(self, range: RangeZYX, smooth: u32) -> bool {
        &&& forall|p: Point| range.touches(p) ==> #[trigger] call_requires(self.corner_inside, (p,))
        &&& smooth == 0 ==> forall|p: Point, cells: &Vec<Point>|
            range.touches(p) && are_cells_of(range, cells@) ==> #[trigger] self.can_snap_corner(
                p,
                cells,
            )
        &&& smooth >= 1 ==> self.can_smooth(range)
        &&& smooth >= 2 ==> forall|p: Point|
            range.touches(p) && p.inner() ==> #[trigger] can_ask_relaxed(self.relaxed, p)
    }

    /// Every question is answered as the functions of `o` do.
    pub open spec fn answers_as(self, o: Answers<N, P, T>) -> bool {
        &&& agrees1(self.intersects, o.intersects)
        &&& agrees2(self.sample_inside, o.sample_inside)
        &&& agrees1(self.corner_inside, o.corner_inside)
        &&& agrees1(self.closest, o.closest)
        &&& agrees_on_lists(self.facet, o.facet)
        &&& agrees1(self.features, o.features)
        &&& agrees3(self.gap, o.gap)
        &&& walks_as(self.walk, o.walk)
        &&& agrees3(self.error, o.error)
        &&& agrees2(self.at_feature, o.at_feature)
        &&& agrees2(self.at_lattice, o.at_lattice)
        &&& agrees1(self.cell_normal, o.cell_normal)
        &&& agrees1(self.corner_normal, o.corner_normal)
        &&& agrees2(self.facing, o.facing)
        &&& agrees2(self.alignment, o.alignment)
        &&& agrees1(self.plane, o.plane)
        &&& agrees2(self.onto_plane, o.onto_plane)
        &&& agrees2(self.average, o.average)
        &&& agrees3(self.relaxed, o.relaxed)
    }
}

} // verus!
