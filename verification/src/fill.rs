//! Flattening boundary cells that continue a face of the model.
use crate::geometry::{fill_neighbor, neighbor_step, Point, Vector};
use crate::offset::{
    cell_corner, corner, extends, has_corners, is_corner, Displacement, Encoded, Vertices,
};
use crate::point_map::{PointMap, PointSet};
use crate::probe::{agrees1, agrees2};
use crate::scalar::Scalar;
use crate::svo::{Svo, SvoLeaf};
use crate::voxel::Voxel;
use vstd::prelude::*;

verus! {

/// 0.3: the normal of a face fill points towards the solid cell at least so much.
pub const FACING: u64 = 0x3fd3_3333_3333_3333;

/// 0.5: the normals around a face fill agree at least so much.
pub const ALIGNED: u64 = 0x3fe0_0000_0000_0000;

/// The leaf stands for a solid cell.
pub open spec fn is_solid(v: Voxel) -> bool {
    v == Voxel::Internal || v == Voxel::Boundry(true)
}

/// The leaf is a boundary cell whose center lies outside of the mesh.
pub open spec fn is_fill(v: Voxel) -> bool {
    v == Voxel::Boundry(false)
}

/// The lowest corners of the solid leaves.
pub open spec fn solid_cells(leaves: Seq<SvoLeaf<Voxel>>) -> Set<Point> {
    Set::new(
        |p: Point|
            exists|i: int|
                0 <= i < leaves.len() && is_solid((#[trigger] leaves[i]).value)
                    && leaves[i].range.origin == p,
    )
}

/// Collects the lowest corners of the solid leaves.
pub fn collect_solid_cells(voxels: &Svo<Voxel>) -> (r: PointSet)
    ensures
        r.wf(),
        r@.dom() == solid_cells(voxels.leaf_seq()),
{
    let leaves: Vec<SvoLeaf<Voxel>> = voxels.leaves();
    let mut solid: PointSet = PointMap::new();
    let mut i: usize = 0;
    while i < leaves.len()
        invariant
            i <= leaves@.len(),
            solid.wf(),
            forall|p: Point| #[trigger]
                solid@.contains_key(p) <==> exists|j: int|
                    0 <= j < i && is_solid((#[trigger] leaves@[j]).value)
                        && leaves@[j].range.origin == p,
        decreases leaves@.len() - i,
    {
        let leaf: &SvoLeaf<Voxel> = &leaves[i];
        let ghost before = solid@;
        match leaf.value {
            Voxel::Internal | Voxel::Boundry(true) => {
                solid.insert(leaf.range.origin, ());
            },
            _ => {},
        }
        proof {
            let q = leaves@[i as int].range.origin;
            assert forall|p: Point| #[trigger] solid@.contains_key(p) <==> exists|j: int|
                0 <= j < i + 1 && is_solid((#[trigger] leaves@[j]).value)
                    && leaves@[j].range.origin == p by {
                if before.contains_key(p) {
                    let j = choose|j: int|
                        0 <= j < i && is_solid((#[trigger] leaves@[j]).value)
                            && leaves@[j].range.origin == p;
                    assert(0 <= j < i + 1 && is_solid(leaves@[j].value));
                }
                if p == q && is_solid(leaves@[i as int].value) {
                    assert(leaves@[i as int].range.origin == p);
                }
            }
        }
        i = i + 1;
    }
    assert(solid@.dom() =~= solid_cells(voxels.leaf_seq())) by {
        assert forall|p: Point| solid@.dom().contains(p) <==> #[trigger] solid_cells(
            voxels.leaf_seq(),
        ).contains(p) by {
            assert(solid@.dom().contains(p) <==> solid@.contains_key(p));
        }
    }
    solid
}

/// How many of the first `k` face neighbors of `cell` are solid.
pub open spec fn solid_neighbors(cell: Point, solid: Set<Point>, k: nat) -> nat
    decreases k,
{
    if k == 0 {
        0
    } else {
        solid_neighbors(cell, solid, (k - 1) as nat) + if solid.contains(
            cell.shifted(fill_neighbor(k - 1)),
        ) {
            1nat
        } else {
            0nat
        }
    }
}

/// The last solid one of the first `k` face neighbors of `cell`.
pub open spec fn last_solid_neighbor(cell: Point, solid: Set<Point>, k: nat) -> Option<Vector>
    decreases k,
{
    if k == 0 {
        None
    } else if solid.contains(cell.shifted(fill_neighbor(k - 1))) {
        Some(fill_neighbor(k - 1))
    } else {
        last_solid_neighbor(cell, solid, (k - 1) as nat)
    }
}

/// The direction of the solid cell, where exactly one face neighbor of `cell` is solid.
pub open spec fn only_solid_neighbor(cell: Point, solid: Set<Point>) -> Option<Vector> {
    if solid_neighbors(cell, solid, 6) == 1 {
        last_solid_neighbor(cell, solid, 6)
    } else {
        None
    }
}

/// A solid neighbor lies in one of the first `k` directions.
pub(crate) proof fn lemma_last_solid_neighbor(cell: Point, solid: Set<Point>, k: nat)
    ensures
        last_solid_neighbor(cell, solid, k) matches Some(v) ==> exists|j: int|
            0 <= j < k && v == #[trigger] fill_neighbor(j),
    decreases k,
{
    if k > 0 {
        lemma_last_solid_neighbor(cell, solid, (k - 1) as nat);
        assert(0 <= k - 1 < k && fill_neighbor(k - 1) == fill_neighbor(k - 1));
    }
}

/// A face fill has exactly one solid face neighbor; the normal in its center points there, and
/// the normals at its corners, where there are any, agree with that one.
pub open spec fn face_fill<N>(
    cell: Point,
    solid: Set<Point>,
    cell_normal: spec_fn(Point) -> Option<N>,
    corner_normal: spec_fn(Point) -> Option<N>,
    facing: spec_fn(N, Vector) -> Scalar,
    alignment: spec_fn(N, N) -> Scalar,
) -> bool {
    match (only_solid_neighbor(cell, solid), cell_normal(cell)) {
        (Some(toward), Some(n)) => {
            &&& !facing(n, toward).below(Scalar { bits: FACING })
            &&& forall|k: int|
                0 <= k < 8 ==> (corner_normal(#[trigger] corner(cell, k)) matches Some(m)
                    ==> !alignment(n, m).below(Scalar { bits: ALIGNED }))
        },
        _ => false,
    }
}

/// The direction of the solid cell, where exactly one face neighbor of `cell` is solid.
pub fn find_only_solid_neighbor(cell: Point, solid: &PointSet) -> (r: Option<Vector>)
    requires
        solid.wf(),
        cell.inner(),
    ensures
        r == only_solid_neighbor(cell, solid@.dom()),
{
    let mut toward: Option<Vector> = None;
    let mut count: u32 = 0;
    for k in 0usize..6
        invariant
            solid.wf(),
            cell.inner(),
            count <= k,
            count == solid_neighbors(cell, solid@.dom(), k as nat),
            toward == last_solid_neighbor(cell, solid@.dom(), k as nat),
            count > 0 <==> toward is Some,
    {
        let step: Vector = neighbor_step(k);
        if solid.contains(cell.shift(step)) {
            count = count + 1;
            toward = Some(step);
        }
    }
    if count == 1 {
        toward
    } else {
        None
    }
}

/// What has to be known of the normals around `cell` may be asked: those of its center and of its
/// corners, how far the one in the center points to a face neighbor, and how far two of them
/// agree.
pub open spec fn can_see_faces<
    N,
    C: Fn(Point) -> Option<N>,
    V: Fn(Point) -> Option<N>,
    F: Fn(N, Vector) -> Scalar,
    A: Fn(N, N) -> Scalar,
>(cell: Point, cell_normal: C, corner_normal: V, facing: F, alignment: A) -> bool {
    &&& call_requires(cell_normal, (cell,))
    &&& forall|k: int| 0 <= k < 8 ==> call_requires(corner_normal, (#[trigger] corner(cell, k),))
    &&& forall|n: Option<N>, k: int|
        #[trigger] call_ensures(cell_normal, (cell,), n) && n is Some && 0 <= k < 6
            ==> call_requires(facing, (n->Some_0, #[trigger] fill_neighbor(k)))
    &&& forall|n: Option<N>, m: Option<N>, k: int|
        #[trigger] call_ensures(cell_normal, (cell,), n) && n is Some && 0 <= k < 8
            && #[trigger] call_ensures(corner_normal, (corner(cell, k),), m) && m is Some
            ==> call_requires(alignment, (n->Some_0, m->Some_0))
}

/// Whether a cell continues a face of the model. Face fills sit on one plane of the model and
/// can be flattened onto it. Edge and corner fills see two surfaces; those leftover corners are
/// snapped to neighbors.
///
/// `cell_normal` and `corner_normal` are the normals of the triangles that are nearest to the
/// center of a cell and to a grid corner, `facing` is the dot product of a normal with a
/// direction, and `alignment` that of two normals.
pub fn is_face_fill<
    N: Copy,
    C: Fn(Point) -> Option<N>,
    V: Fn(Point) -> Option<N>,
    F: Fn(N, Vector) -> Scalar,
    A: Fn(N, N) -> Scalar,
>(
    cell: Point,
    solid: &PointSet,
    cell_normal: &C,
    corner_normal: &V,
    facing: &F,
    alignment: &A,
) -> (r: bool)
    requires
        solid.wf(),
        cell.inner(),
        can_see_faces(cell, *cell_normal, *corner_normal, *facing, *alignment),
    ensures
        r ==> only_solid_neighbor(cell, solid@.dom()) is Some,
        forall|
            c: spec_fn(Point) -> Option<N>,
            v: spec_fn(Point) -> Option<N>,
            f: spec_fn(N, Vector) -> Scalar,
            a: spec_fn(N, N) -> Scalar,
        |
            #[trigger] agrees1(*cell_normal, c) && #[trigger] agrees1(*corner_normal, v)
                && #[trigger] agrees2(*facing, f) && #[trigger] agrees2(*alignment, a) ==> r
                == face_fill(cell, solid@.dom(), c, v, f, a),
{
    let toward: Vector = match find_only_solid_neighbor(cell, solid) {
        Some(toward) => toward,
        None => {
            return false;
        },
    };
    proof {
        lemma_last_solid_neighbor(cell, solid@.dom(), 6);
    }
    let normal: Option<N> = cell_normal(cell);
    let n: N = match normal {
        Some(n) => n,
        None => {
            return false;
        },
    };
    if facing(n, toward).lt(Scalar::from_bits(FACING)) {
        return false;
    }
    for k in 0usize..8
        invariant
            cell.inner(),
            can_see_faces(cell, *cell_normal, *corner_normal, *facing, *alignment),
            call_ensures(*cell_normal, (cell,), normal),
            normal == Some(n),
            only_solid_neighbor(cell, solid@.dom()) == Some(toward),
            forall|c: spec_fn(Point) -> Option<N>| #[trigger]
                agrees1(*cell_normal, c) ==> c(cell) == Some(n),
            forall|v: spec_fn(Point) -> Option<N>, a: spec_fn(N, N) -> Scalar|
                #[trigger] agrees1(*corner_normal, v) && #[trigger] agrees2(*alignment, a) ==> (
                forall|j: int|
                    0 <= j < k ==> (v(#[trigger] corner(cell, j)) matches Some(m) ==> !a(
                        n,
                        m,
                    ).below(Scalar { bits: ALIGNED }))),
    {
        let other: Option<N> = corner_normal(cell_corner(cell, k));
        match other {
            Some(m) => {
                if alignment(n, m).lt(Scalar::from_bits(ALIGNED)) {
                    proof {
                        assert forall|
                            c: spec_fn(Point) -> Option<N>,
                            v: spec_fn(Point) -> Option<N>,
                            f: spec_fn(N, Vector) -> Scalar,
                            a: spec_fn(N, N) -> Scalar,
                        |
                            #[trigger] agrees1(*cell_normal, c) && #[trigger] agrees1(
                                *corner_normal,
                                v,
                            ) && #[trigger] agrees2(*facing, f) && #[trigger] agrees2(
                                *alignment,
                                a,
                            ) implies !face_fill(cell, solid@.dom(), c, v, f, a) by {
                            assert(v(corner(cell, k as int)) == Some(m));
                        }
                    }
                    return false;
                }
            },
            None => {},
        }
    }
    true
}

/// The vertices with the first `k` corners of `cell` placed on the plane `pl`, but for those that
/// are placed already.
pub open spec fn flattened_corners<P>(
    v: Vertices,
    cell: Point,
    pl: P,
    onto: spec_fn(P, Point) -> Displacement,
    k: nat,
) -> Vertices
    decreases k,
{
    if k == 0 {
        v
    } else {
        let w = flattened_corners(v, cell, pl, onto, (k - 1) as nat);
        let p = corner(cell, k - 1);
        if w.contains_key(p) {
            w
        } else {
            w.insert(p, onto(pl, p).rounded())
        }
    }
}

/// The vertices with the corners of `cell` placed on the plane of the nearest triangle, if it has
/// one, but for those that are placed already.
pub open spec fn flattened_cell<P>(
    v: Vertices,
    cell: Point,
    plane: spec_fn(Point) -> Option<P>,
    onto: spec_fn(P, Point) -> Displacement,
) -> Vertices {
    match plane(cell) {
        Some(pl) => flattened_corners(v, cell, pl, onto, 8),
        None => v,
    }
}

/// `b` extends `a` by corners of `cell` only, and all new offsets lie on the lattice.
pub open spec fn placed_at_corners(a: Vertices, b: Vertices, cell: Point) -> bool {
    &&& extends(a, b)
    &&& forall|p: Point| #[trigger]
        b.contains_key(p) && !a.contains_key(p) ==> is_corner(cell, p) && b[p].on_lattice()
}

/// The plane at `cell` may be asked about, and where the corners of the cell lie on it.
pub open spec fn can_flatten<P, L: Fn(Point) -> Option<P>, O: Fn(P, Point) -> Displacement>(
    cell: Point,
    plane: L,
    onto: O,
) -> bool {
    &&& call_requires(plane, (cell,))
    &&& forall|pl: Option<P>, k: int|
        #[trigger] call_ensures(plane, (cell,), pl) && pl is Some && 0 <= k < 8 ==> call_requires(
            onto,
            (pl->Some_0, #[trigger] corner(cell, k)),
        )
}

/// Places the corners of a cell on the plane of the triangle that is nearest to its center.
/// `plane` is that plane, and `onto` the displacement from a grid corner straight onto a plane. A
/// vertex that is placed already stays where it is.
pub fn flatten_fill_cell<
    P: Copy,
    L: Fn(Point) -> Option<P>,
    O: Fn(P, Point) -> Displacement,
>(cell: Point, vertices: &mut PointMap<Encoded>, plane: &L, onto: &O)
    requires
        old(vertices).wf(),
        has_corners(cell),
        can_flatten(cell, *plane, *onto),
    ensures
        final(vertices).wf(),
        placed_at_corners(old(vertices)@, final(vertices)@, cell),
        forall|l: spec_fn(Point) -> Option<P>, o: spec_fn(P, Point) -> Displacement|
            #[trigger] agrees1(*plane, l) && #[trigger] agrees2(*onto, o) ==> final(vertices)@
                == flattened_cell(old(vertices)@, cell, l, o),
{
    let ghost start = vertices@;
    let found: Option<P> = plane(cell);
    let pl: P = match found {
        Some(pl) => pl,
        None => {
            return ;
        },
    };
    for k in 0usize..8
        invariant
            vertices.wf(),
            has_corners(cell),
            can_flatten(cell, *plane, *onto),
            call_ensures(*plane, (cell,), found),
            found == Some(pl),
            placed_at_corners(start, vertices@, cell),
            forall|l: spec_fn(Point) -> Option<P>| #[trigger]
                agrees1(*plane, l) ==> l(cell) == Some(pl),
            forall|o: spec_fn(P, Point) -> Displacement| #[trigger]
                agrees2(*onto, o) ==> vertices@ == flattened_corners(start, cell, pl, o, k as nat),
    {
        let p: Point = cell_corner(cell, k);
        if !vertices.contains(p) {
            vertices.insert(p, onto(pl, p).to_full_offset());
        }
    }
}

/// A direction is that of the only solid neighbor exactly if the cell there is solid and no other
/// face neighbor is.
pub proof fn only_solid_neighbor_is_the_only_one(cell: Point, solid: Set<Point>, k: int)
    requires
        0 <= k < 6,
    ensures
        only_solid_neighbor(cell, solid) == Some(fill_neighbor(k)) <==> solid.contains(
            cell.shifted(fill_neighbor(k)),
        ) && (forall|j: int|
            0 <= j < 6 && j != k ==> !solid.contains(cell.shifted(#[trigger] fill_neighbor(j)))),
{
    reveal_with_fuel(solid_neighbors, 7);
    reveal_with_fuel(last_solid_neighbor, 7);
    let at = |j: int| solid.contains(cell.shifted(fill_neighbor(j)));
    assert(at(0) == solid.contains(cell.shifted(fill_neighbor(0))));
    assert(at(1) == solid.contains(cell.shifted(fill_neighbor(1))));
    assert(at(2) == solid.contains(cell.shifted(fill_neighbor(2))));
    assert(at(3) == solid.contains(cell.shifted(fill_neighbor(3))));
    assert(at(4) == solid.contains(cell.shifted(fill_neighbor(4))));
    assert(at(5) == solid.contains(cell.shifted(fill_neighbor(5))));
}

/// Flattening keeps the vertices that are placed, and adds corners of the cell only.
pub proof fn flattening_adds_corners<P>(
    v: Vertices,
    cell: Point,
    plane: spec_fn(Point) -> Option<P>,
    onto: spec_fn(P, Point) -> Displacement,
)
    ensures
        extends(v, flattened_cell(v, cell, plane, onto)),
        forall|p: Point| #[trigger]
            flattened_cell(v, cell, plane, onto).contains_key(p) ==> v.contains_key(p) || is_corner(
                cell,
                p,
            ),
{
    if let Some(pl) = plane(cell) {
        lemma_flattened_corners(v, cell, pl, onto, 8);
    }
}

proof fn lemma_flattened_corners<P>(
    v: Vertices,
    cell: Point,
    pl: P,
    onto: spec_fn(P, Point) -> Displacement,
    k: nat,
)
    requires
        k <= 8,
    ensures
        extends(v, flattened_corners(v, cell, pl, onto, k)),
        forall|p: Point| #[trigger]
            flattened_corners(v, cell, pl, onto, k).contains_key(p) ==> v.contains_key(p)
                || is_corner(cell, p),
    decreases k,
{
    if k > 0 {
        lemma_flattened_corners(v, cell, pl, onto, (k - 1) as nat);
        assert(is_corner(cell, corner(cell, k - 1)));
    }
}

} // verus!
