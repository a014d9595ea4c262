//! The vertices of a chunk that do not rest on their grid corners.
use crate::fill::{
    can_flatten, can_see_faces, collect_solid_cells, face_fill, flatten_fill_cell,
    flattened_cell, flattening_adds_corners, is_face_fill, is_fill, solid_cells,
};
use crate::geometry::{Point, RangeZYX, Vector};
use crate::neighbors::{
    all_unset, can_ask_average, can_ask_relaxed, placed_among, relax_surface_vertices,
    relaxation_keeps_corners, relaxed_times, snap_in_order, snapped,
    snapping_places_the_unset_points, Neighborhood,
};
use crate::offset::{
    all_on_lattice, cell_corner, corner, extends, has_corners, is_corner, is_roomy,
    Displacement, Encoded, Vertices,
};
use crate::point_map::{appended, lists, PointMap, PointSet};
use crate::probe::{agrees1, agrees2, agrees3, agrees_on_lists};
use crate::scalar::Scalar;
use crate::snap::{
    calculate_vertex_offset, snap_target, snapped_offset, walks_as, Facet, LatticePoint,
    SnapTarget,
};
use crate::surface::{are_cells_of, Answers, Surface};
use crate::svo::{lemma_leaves_are_nodes, Svo, SvoLeaf};
use crate::voxel::Voxel;
use vstd::prelude::*;

verus! {

/// Every boundary leaf is a single cell.
pub open spec fn boundary_is_unit(leaves: Seq<SvoLeaf<Voxel>>) -> bool {
    forall|i: int|
        0 <= i < leaves.len() && (#[trigger] leaves[i]).value is Boundry ==> leaves[i].range.count()
            == 1
}

/// The octree can be searched for vertices: its boundary leaves are single cells.
pub open spec fn searchable(voxels: Svo<Voxel>) -> bool {
    voxels.wf() && boundary_is_unit(voxels.leaf_seq())
}

/// The corners of every fill cell have neighbors.
pub open spec fn fill_is_roomy(leaves: Seq<SvoLeaf<Voxel>>) -> bool {
    forall|i: int|
        0 <= i < leaves.len() && is_fill((#[trigger] leaves[i]).value) ==> is_roomy(
            leaves[i].range.origin,
        )
}

/// The corners of every boundary cell have neighbors.
pub open spec fn boundary_is_roomy(leaves: Seq<SvoLeaf<Voxel>>) -> bool {
    forall|i: int|
        0 <= i < leaves.len() && (#[trigger] leaves[i]).value is Boundry ==> is_roomy(
            leaves[i].range.origin,
        )
}

/// The corners whose neighbors are looked at have neighbors: those of fill cells with smoothing,
/// and with relaxation those of all boundary cells.
pub open spec fn is_roomy_for(leaves: Seq<SvoLeaf<Voxel>>, smooth: u32) -> bool {
    &&& smooth >= 1 ==> fill_is_roomy(leaves)
    &&& smooth >= 2 ==> boundary_is_roomy(leaves)
}

/// The anchors with `cell` added at those of its first `k` corners that lie inside of the mesh
/// while the cell is not significant, or outside while it is.
pub open spec fn marked_corners(
    m: Map<Point, Seq<Point>>,
    cell: Point,
    significant: bool,
    inside: spec_fn(Point) -> bool,
    k: nat,
) -> Map<Point, Seq<Point>>
    decreases k,
{
    if k == 0 {
        m
    } else {
        let w = marked_corners(m, cell, significant, inside, (k - 1) as nat);
        let p = corner(cell, k - 1);
        if inside(p) != significant {
            appended(w, p, cell)
        } else {
            w
        }
    }
}

/// The significant corners of the first `n` leaves, each with its anchors: the boundary cells
/// that it sets apart, in the order of the leaves.
pub open spec fn significant_anchors(
    leaves: Seq<SvoLeaf<Voxel>>,
    inside: spec_fn(Point) -> bool,
    n: nat,
) -> Map<Point, Seq<Point>>
    decreases n,
{
    if n == 0 || n > leaves.len() {
        Map::empty()
    } else {
        let m = significant_anchors(leaves, inside, (n - 1) as nat);
        match leaves[n - 1].value {
            Voxel::Boundry(significant) => marked_corners(
                m,
                leaves[n - 1].range.origin,
                significant,
                inside,
                8,
            ),
            _ => m,
        }
    }
}

/// `p` is a corner of a boundary cell among the first `n` leaves.
pub open spec fn is_boundary_corner(leaves: Seq<SvoLeaf<Voxel>>, p: Point, n: int) -> bool {
    exists|i: int|
        0 <= i < n && (#[trigger] leaves[i]).value is Boundry && is_corner(
            leaves[i].range.origin,
            p,
        )
}

/// Every key is a corner of a boundary cell.
pub open spec fn lies_on_boundary<V>(m: Map<Point, V>, leaves: Seq<SvoLeaf<Voxel>>) -> bool {
    forall|p: Point| #[trigger]
        m.contains_key(p) ==> is_boundary_corner(leaves, p, leaves.len() as int)
}

/// Every list holds cells of the box, at least one.
pub open spec fn are_anchors(m: Map<Point, Seq<Point>>, range: RangeZYX) -> bool {
    forall|p: Point| #[trigger] m.contains_key(p) ==> are_cells_of(range, m[p])
}

/// Collects the corners of boundary cells that the surface separates from the center of the
/// cell, each with the cells that it was found at.
pub fn significant_points<C: Fn(Point) -> bool>(
    voxels: &Svo<Voxel>,
    corner_inside: &C,
) -> (r: PointMap<Vec<Point>>)
    requires
        searchable(*voxels),
        forall|p: Point| voxels.range.touches(p) ==> #[trigger] call_requires(*corner_inside, (p,)),
    ensures
        r.wf(),
        lies_on_boundary(r@, voxels.leaf_seq()),
        are_anchors(lists(r@), voxels.range),
        forall|inside: spec_fn(Point) -> bool| #[trigger]
            agrees1(*corner_inside, inside) ==> lists(r@) == significant_anchors(
                voxels.leaf_seq(),
                inside,
                voxels.leaf_seq().len(),
            ),
{
    let leaves: Vec<SvoLeaf<Voxel>> = voxels.leaves();
    let mut r: PointMap<Vec<Point>> = PointMap::new();
    assert(lists(r@) =~= Map::<Point, Seq<Point>>::empty());
    let mut i: usize = 0;
    while i < leaves.len()
        invariant
            i <= leaves@.len(),
            leaves@ == voxels.leaf_seq(),
            searchable(*voxels),
            forall|p: Point|
                voxels.range.touches(p) ==> #[trigger] call_requires(*corner_inside, (p,)),
            r.wf(),
            lies_on_boundary(r@, leaves@),
            are_anchors(lists(r@), voxels.range),
            forall|inside: spec_fn(Point) -> bool| #[trigger]
                agrees1(*corner_inside, inside) ==> lists(r@) == significant_anchors(
                    leaves@,
                    inside,
                    i as nat,
                ),
        decreases leaves@.len() - i,
    {
        let leaf: &SvoLeaf<Voxel> = &leaves[i];
        if let Voxel::Boundry(significant) = leaf.value {
            let cell: Point = leaf.range.origin;
            proof {
                lemma_leaf_cell(*voxels, i as int);
            }
            for k in 0usize..8
                invariant
                    i < leaves@.len(),
                    leaves@[i as int].value == Voxel::Boundry(significant),
                    leaves@[i as int].range.origin == cell,
                    has_corners(cell),
                    voxels.range.has(cell),
                    forall|j: int|
                        0 <= j < 8 ==> voxels.range.touches(#[trigger] corner(cell, j)),
                    forall|p: Point|
                        voxels.range.touches(p) ==> #[trigger] call_requires(*corner_inside, (p,)),
                    r.wf(),
                    lies_on_boundary(r@, leaves@),
                    are_anchors(lists(r@), voxels.range),
                    forall|inside: spec_fn(Point) -> bool| #[trigger]
                        agrees1(*corner_inside, inside) ==> lists(r@) == marked_corners(
                            significant_anchors(leaves@, inside, i as nat),
                            cell,
                            significant,
                            inside,
                            k as nat,
                        ),
            {
                let p: Point = cell_corner(cell, k);
                let ghost before = r@;
                if corner_inside(p) != significant {
                    r.append(p, cell);
                    proof {
                        assert(is_corner(cell, corner(cell, k as int)));
                        assert(is_boundary_corner(leaves@, p, leaves@.len() as int));
                        assert forall|q: Point| #[trigger]
                            r@.contains_key(q) implies is_boundary_corner(
                            leaves@,
                            q,
                            leaves@.len() as int,
                        ) by {
                            assert(lists(r@).contains_key(q));
                            if q != p {
                                assert(lists(before).contains_key(q));
                                assert(before.contains_key(q));
                            }
                        }
                        assert forall|q: Point| #[trigger]
                            lists(r@).contains_key(q) implies are_cells_of(
                            voxels.range,
                            lists(r@)[q],
                        ) by {
                            if lists(before).contains_key(q) {
                                assert(are_cells_of(voxels.range, lists(before)[q]));
                            }
                        }
                    }
                }
            }
        }
        i = i + 1;
    }
    r
}

/// The lowest cell of a leaf lies in the box of the tree, and its corners in the closed box.
proof fn lemma_leaf_cell(voxels: Svo<Voxel>, i: int)
    requires
        voxels.wf(),
        0 <= i < voxels.leaf_seq().len(),
    ensures
        ({
            let cell = voxels.leaf_seq()[i].range.origin;
            &&& has_corners(cell)
            &&& voxels.range.has(cell)
            &&& forall|k: int| 0 <= k < 8 ==> voxels.range.touches(#[trigger] corner(cell, k))
            &&& is_roomy(cell) ==> forall|k: int|
                0 <= k < 8 ==> (#[trigger] corner(cell, k)).inner()
        }),
{
    let b = voxels.leaf_seq()[i].range;
    lemma_leaves_are_nodes(voxels, i);
    assert forall|k: int| 0 <= k < 8 implies voxels.range.touches(#[trigger] corner(b.origin, k))
        && (is_roomy(b.origin) ==> corner(b.origin, k).inner()) by {
        crate::geometry::lemma_octant_offset(1, k);
    }
}

/// The corners of boundary cells lie in the closed box of the tree, and have neighbors where the
/// boundary cells are roomy.
proof fn lemma_boundary_corner(voxels: Svo<Voxel>, p: Point)
    requires
        voxels.wf(),
        is_boundary_corner(voxels.leaf_seq(), p, voxels.leaf_seq().len() as int),
    ensures
        voxels.range.touches(p),
        boundary_is_roomy(voxels.leaf_seq()) ==> p.inner(),
{
    let leaves = voxels.leaf_seq();
    let i = choose|i: int|
        0 <= i < leaves.len() && (#[trigger] leaves[i]).value is Boundry && is_corner(
            leaves[i].range.origin,
            p,
        );
    lemma_leaf_cell(voxels, i);
    let k = choose|k: int| 0 <= k < 8 && p == #[trigger] corner(leaves[i].range.origin, k);
    assert(voxels.range.touches(corner(leaves[i].range.origin, k)));
}

/// The corners of fill cells are corners of boundary cells in the closed box of the tree, and
/// have neighbors where the fill cells are roomy.
proof fn lemma_fill_corner(voxels: Svo<Voxel>, p: Point)
    requires
        voxels.wf(),
        is_fill_corner(voxels.leaf_seq(), p, voxels.leaf_seq().len() as int),
    ensures
        is_boundary_corner(voxels.leaf_seq(), p, voxels.leaf_seq().len() as int),
        voxels.range.touches(p),
        fill_is_roomy(voxels.leaf_seq()) ==> p.inner(),
{
    let leaves = voxels.leaf_seq();
    let i = choose|i: int|
        0 <= i < leaves.len() && is_fill((#[trigger] leaves[i]).value) && is_corner(
            leaves[i].range.origin,
            p,
        );
    lemma_leaf_cell(voxels, i);
    let k = choose|k: int| 0 <= k < 8 && p == #[trigger] corner(leaves[i].range.origin, k);
    assert(voxels.range.touches(corner(leaves[i].range.origin, k)));
    assert(leaves[i].value is Boundry);
}

/// The offset of a significant corner that is snapped to the triangle that is nearest to its
/// anchors.
pub open spec fn snapped_corner<N, P, T>(
    p: Point,
    cells: Seq<Point>,
    o: Answers<N, P, T>,
) -> Encoded {
    let g = (o.facet)(p, cells);
    snapped_offset(
        g,
        snap_target((o.features)(g)),
        o.gap,
        o.walk,
        o.error,
        o.at_feature,
        o.at_lattice,
    )
}

/// The vertices at the significant corners: on the surface where the result is smoothed, else
/// snapped to the features of the triangle that is nearest to the anchors.
pub open spec fn significant_vertices<N, P, T>(
    anchors: Map<Point, Seq<Point>>,
    smooth: u32,
    o: Answers<N, P, T>,
) -> Vertices {
    Map::new(
        |p: Point| anchors.contains_key(p),
        |p: Point|
            if smooth >= 1 {
                (o.closest)(p).rounded()
            } else {
                snapped_corner(p, anchors[p], o)
            },
    )
}

/// The points, and after them those of the first `k` corners of `cell` that are neither placed
/// nor among them.
pub open spec fn with_unset_corners(
    points: Seq<Point>,
    v: Vertices,
    cell: Point,
    k: nat,
) -> Seq<Point>
    decreases k,
{
    if k == 0 {
        points
    } else {
        let ps = with_unset_corners(points, v, cell, (k - 1) as nat);
        let p = corner(cell, k - 1);
        if v.contains_key(p) || ps.contains(p) {
            ps
        } else {
            ps.push(p)
        }
    }
}

/// The corners of the fill cells among the first `n` leaves that are not placed, each once.
pub open spec fn unset_corners(leaves: Seq<SvoLeaf<Voxel>>, v: Vertices, n: nat) -> Seq<Point>
    decreases n,
{
    if n == 0 || n > leaves.len() {
        seq![]
    } else {
        let ps = unset_corners(leaves, v, (n - 1) as nat);
        if is_fill(leaves[n - 1].value) {
            with_unset_corners(ps, v, leaves[n - 1].range.origin, 8)
        } else {
            ps
        }
    }
}

/// `p` is a corner of a fill cell among the first `n` leaves.
pub open spec fn is_fill_corner(leaves: Seq<SvoLeaf<Voxel>>, p: Point, n: int) -> bool {
    exists|i: int|
        0 <= i < n && is_fill((#[trigger] leaves[i]).value) && is_corner(leaves[i].range.origin, p)
}

/// Collects the corners of the fill cells that are not placed.
pub fn collect_unset(voxels: &Svo<Voxel>, vertices: &PointMap<Encoded>) -> (r: Vec<Point>)
    requires
        voxels.wf(),
        fill_is_roomy(voxels.leaf_seq()),
        vertices.wf(),
    ensures
        r@ == unset_corners(voxels.leaf_seq(), vertices@, voxels.leaf_seq().len()),
        all_unset(vertices@, r@),
        forall|p: Point| #[trigger]
            r@.contains(p) <==> is_fill_corner(
                voxels.leaf_seq(),
                p,
                voxels.leaf_seq().len() as int,
            ) && !vertices@.contains_key(p),
{
    let leaves: Vec<SvoLeaf<Voxel>> = voxels.leaves();
    let mut unset: PointSet = PointMap::new();
    let mut i: usize = 0;
    while i < leaves.len()
        invariant
            i <= leaves@.len(),
            leaves@ == voxels.leaf_seq(),
            voxels.wf(),
            vertices.wf(),
            unset.wf(),
            unset.keys() == unset_corners(leaves@, vertices@, i as nat),
        decreases leaves@.len() - i,
    {
        let leaf: &SvoLeaf<Voxel> = &leaves[i];
        if let Voxel::Boundry(false) = leaf.value {
            let cell: Point = leaf.range.origin;
            proof {
                lemma_leaf_cell(*voxels, i as int);
            }
            for k in 0usize..8
                invariant
                    i < leaves@.len(),
                    leaves@[i as int].range.origin == cell,
                    has_corners(cell),
                    vertices.wf(),
                    unset.wf(),
                    unset.keys() == with_unset_corners(
                        unset_corners(leaves@, vertices@, i as nat),
                        vertices@,
                        cell,
                        k as nat,
                    ),
            {
                let p: Point = cell_corner(cell, k);
                if !vertices.contains(p) {
                    proof {
                        unset.lemma_keys();
                    }
                    unset.insert(p, ());
                }
            }
        }
        i = i + 1;
    }
    let r: Vec<Point> = unset.key_list();
    proof {
        unset_corners_are_unplaced_fill_corners(leaves@, vertices@, leaves@.len());
    }
    r
}

/// Places every corner of a fill cell that is not placed yet: next to its placed neighbors as far
/// as that goes, the rest on the surface. A vertex that is placed already stays where it is.
pub fn snap_unset_to_neighbors<
    A: Fn(Point, Neighborhood) -> Displacement,
    C: Fn(Point) -> Displacement,
>(voxels: &Svo<Voxel>, vertices: &mut PointMap<Encoded>, average: &A, closest: &C)
    requires
        voxels.wf(),
        fill_is_roomy(voxels.leaf_seq()),
        old(vertices).wf(),
        forall|p: Point|
            is_fill_corner(voxels.leaf_seq(), p, voxels.leaf_seq().len() as int) ==> #[trigger]
                can_ask_average(*average, p) && call_requires(*closest, (p,)),
    ensures
        final(vertices).wf(),
        extends(old(vertices)@, final(vertices)@),
        all_on_lattice(old(vertices)@) ==> all_on_lattice(final(vertices)@),
        forall|p: Point| #[trigger]
            final(vertices)@.contains_key(p) <==> old(vertices)@.contains_key(p) || is_fill_corner(
                voxels.leaf_seq(),
                p,
                voxels.leaf_seq().len() as int,
            ),
        forall|
            a: spec_fn(Point, Neighborhood) -> Displacement,
            c: spec_fn(Point) -> Displacement,
        |
            #[trigger] agrees2(*average, a) && #[trigger] agrees1(*closest, c) ==> final(vertices)@
                == snapped(
                old(vertices)@,
                unset_corners(voxels.leaf_seq(), old(vertices)@, voxels.leaf_seq().len()),
                a,
                c,
            ),
{
    let ghost start = vertices@;
    let unset: Vec<Point> = collect_unset(voxels, vertices);
    let ghost points = unset@;
    assert forall|p: Point| #[trigger] points.contains(p) implies can_ask_average(*average, p)
        && call_requires(*closest, (p,)) by {}
    snap_in_order(vertices, unset, average, closest);
    proof {
        assert(placed_among(start, vertices@, points));
        let leaves = voxels.leaf_seq();
        assert forall|p: Point| #[trigger] vertices@.contains_key(p) <==> start.contains_key(p)
            || is_fill_corner(leaves, p, leaves.len() as int) by {
            if is_fill_corner(leaves, p, leaves.len() as int) && !start.contains_key(p) {
                assert(points.contains(p));
            }
            if vertices@.contains_key(p) && !start.contains_key(p) {
                assert(points.contains(p));
            }
        }
    }
}

/// The vertices with the corners of the face fills among the first `n` leaves flattened, in the
/// order of the leaves.
pub open spec fn flattened_fills<N, P, T>(
    v: Vertices,
    leaves: Seq<SvoLeaf<Voxel>>,
    o: Answers<N, P, T>,
    n: nat,
) -> Vertices
    decreases n,
{
    if n == 0 || n > leaves.len() {
        v
    } else {
        let w = flattened_fills(v, leaves, o, (n - 1) as nat);
        let cell = leaves[n - 1].range.origin;
        if is_fill(leaves[n - 1].value) && face_fill(
            cell,
            solid_cells(leaves),
            o.cell_normal,
            o.corner_normal,
            o.facing,
            o.alignment,
        ) {
            flattened_cell(w, cell, o.plane, o.onto_plane)
        } else {
            w
        }
    }
}

/// The vertices of an octree with the given leaves. Without smoothing they are those at the
/// significant corners. With it, face fills are flattened, the other corners of fill cells are
/// snapped to their neighbors, and all vertices are relaxed as often as `smooth` exceeds one.
pub open spec fn extracted<N, P, T>(
    leaves: Seq<SvoLeaf<Voxel>>,
    smooth: u32,
    o: Answers<N, P, T>,
) -> Vertices {
    let n = leaves.len();
    let v = significant_vertices(
        significant_anchors(leaves, o.corner_inside, n),
        smooth,
        o,
    );
    if smooth == 0 {
        v
    } else {
        let w = flattened_fills(v, leaves, o, n);
        relaxed_times(
            snapped(w, unset_corners(leaves, w, n), o.average, o.closest),
            o.relaxed,
            (smooth - 1) as nat,
        )
    }
}

impl<
    N: Copy,
    P: Copy,
    T: Copy,
    H: Fn(RangeZYX) -> bool,
    S: Fn(RangeZYX, usize) -> bool,
    C: Fn(Point) -> bool,
    K: Fn(Point) -> Displacement,
    FT: Fn(Point, &Vec<Point>) -> T,
    FF: Fn(T) -> Facet,
    G: Fn(T, SnapTarget, usize) -> Scalar,
    W: Fn(T, SnapTarget, usize) -> Vec<LatticePoint>,
    E: Fn(T, SnapTarget, LatticePoint) -> Scalar,
    AF: Fn(T, SnapTarget) -> Displacement,
    AL: Fn(T, LatticePoint) -> Displacement,
    NC: Fn(Point) -> Option<N>,
    NV: Fn(Point) -> Option<N>,
    F: Fn(N, Vector) -> Scalar,
    L: Fn(N, N) -> Scalar,
    PL: Fn(Point) -> Option<P>,
    ON: Fn(P, Point) -> Displacement,
    AV: Fn(Point, Neighborhood) -> Displacement,
    R: Fn(Point, Encoded, Neighborhood) -> Displacement,
> Surface<H, S, C, K, FT, FF, G, W, E, AF, AL, NC, NV, F, L, PL, ON, AV, R> {
    /// The offset of a significant corner that is snapped to the triangle that is nearest to its
    /// anchors.
    pub fn snap_corner(&self, p: Point, cells: &Vec<Point>) -> (r: Encoded)
        requires
            self.can_snap_corner(p, cells),
        ensures
            r.on_lattice(),
            forall|o: Answers<N, P, T>| #[trigger]
                self.answers_as(o) ==> r == snapped_corner(p, cells@, o),
    {
        let triangle: T = (self.facet)(p, cells);
        let facet: Facet = (self.features)(triangle);
        let r: Encoded = calculate_vertex_offset(
            triangle,
            &facet,
            &self.gap,
            &self.walk,
            &self.error,
            &self.at_feature,
            &self.at_lattice,
        );
        assert forall|o: Answers<N, P, T>| #[trigger] self.answers_as(o) implies r
            == snapped_corner(p, cells@, o) by {
            assert(agrees_on_lists(self.facet, o.facet));
            assert(agrees1(self.features, o.features));
            assert(agrees3(self.gap, o.gap));
            assert(walks_as(self.walk, o.walk));
            assert(agrees3(self.error, o.error));
            assert(agrees2(self.at_feature, o.at_feature));
            assert(agrees2(self.at_lattice, o.at_lattice));
        }
        r
    }

    /// Places the vertices at the significant corners.
    pub fn place_significant(
        &self,
        anchors: &PointMap<Vec<Point>>,
        smooth: u32,
    ) -> (r: PointMap<Encoded>)
        requires
            anchors.wf(),
            smooth == 0 ==> forall|p: Point| #[trigger]
                anchors@.contains_key(p) ==> self.can_snap_corner(p, &anchors@[p]),
            smooth >= 1 ==> forall|p: Point| #[trigger]
                anchors@.contains_key(p) ==> call_requires(self.closest, (p,)),
        ensures
            r.wf(),
            r@.dom() == anchors@.dom(),
            all_on_lattice(r@),
            forall|o: Answers<N, P, T>| #[trigger]
                self.answers_as(o) ==> r@ == significant_vertices(lists(anchors@), smooth, o),
    {
        let mut r: PointMap<Encoded> = PointMap::new();
        let n: usize = anchors.len();
        let ghost keys = anchors.keys();
        proof {
            anchors.lemma_keys();
        }
        let mut i: usize = 0;
        while i < n
            invariant
                i <= n,
                n == keys.len(),
                keys == anchors.keys(),
                anchors.wf(),
                smooth == 0 ==> forall|p: Point| #[trigger]
                    anchors@.contains_key(p) ==> self.can_snap_corner(p, &anchors@[p]),
                smooth >= 1 ==> forall|p: Point| #[trigger]
                    anchors@.contains_key(p) ==> call_requires(self.closest, (p,)),
                r.wf(),
                all_on_lattice(r@),
                forall|j: int| 0 <= j < i ==> r@.contains_key(#[trigger] keys[j]),
                forall|p: Point| #[trigger] r@.contains_key(p) ==> anchors@.contains_key(p),
                forall|o: Answers<N, P, T>, p: Point|
                    #[trigger] self.answers_as(o) && #[trigger] r@.contains_key(p) ==> r@[p]
                        == significant_vertices(lists(anchors@), smooth, o)[p],
            decreases n - i,
        {
            let (p, cells): (Point, &Vec<Point>) = anchors.entry(i);
            assert(lists(anchors@).contains_key(p));
            let e: Encoded = if smooth >= 1 {
                (self.closest)(p).to_full_offset()
            } else {
                self.snap_corner(p, cells)
            };
            r.insert(p, e);
            proof {
                assert forall|o: Answers<N, P, T>| #[trigger] self.answers_as(o) implies e
                    == significant_vertices(lists(anchors@), smooth, o)[p] by {
                    assert(agrees1(self.closest, o.closest));
                }
            }
            i = i + 1;
        }
        assert(r@.dom() =~= anchors@.dom()) by {
            assert forall|p: Point| #[trigger]
                anchors@.contains_key(p) implies r@.contains_key(p) by {
                assert(keys.contains(p));
                let j = choose|j: int| 0 <= j < keys.len() && keys[j] == p;
                assert(r@.contains_key(keys[j]));
            }
        }
        assert forall|o: Answers<N, P, T>| #[trigger] self.answers_as(o) implies r@
            == significant_vertices(lists(anchors@), smooth, o) by {
            assert forall|p: Point| #[trigger] r@.contains_key(p) <==> lists(
                anchors@,
            ).contains_key(p) by {
                assert(r@.dom().contains(p) <==> anchors@.dom().contains(p));
            }
            assert(r@ =~= significant_vertices(lists(anchors@), smooth, o));
        }
        r
    }

    /// Flattens the face fills of the octree, in the order of its leaves.
    fn flatten_fills(&self, voxels: &Svo<Voxel>, vertices: &mut PointMap<Encoded>)
        requires
            self.can_smooth(voxels.range),
            voxels.wf(),
            fill_is_roomy(voxels.leaf_seq()),
            old(vertices).wf(),
            all_on_lattice(old(vertices)@),
            lies_on_boundary(old(vertices)@, voxels.leaf_seq()),
        ensures
            final(vertices).wf(),
            extends(old(vertices)@, final(vertices)@),
            all_on_lattice(final(vertices)@),
            lies_on_boundary(final(vertices)@, voxels.leaf_seq()),
            forall|o: Answers<N, P, T>| #[trigger]
                self.answers_as(o) ==> final(vertices)@ == flattened_fills(
                    old(vertices)@,
                    voxels.leaf_seq(),
                    o,
                    voxels.leaf_seq().len(),
                ),
    {
        let ghost start = vertices@;
        let solid: PointSet = collect_solid_cells(voxels);
        let leaves: Vec<SvoLeaf<Voxel>> = voxels.leaves();
        let mut i: usize = 0;
        while i < leaves.len()
            invariant
                i <= leaves@.len(),
                leaves@ == voxels.leaf_seq(),
                self.can_smooth(voxels.range),
                voxels.wf(),
                fill_is_roomy(leaves@),
                solid.wf(),
                solid@.dom() == solid_cells(leaves@),
                vertices.wf(),
                extends(start, vertices@),
                all_on_lattice(vertices@),
                lies_on_boundary(vertices@, leaves@),
                forall|o: Answers<N, P, T>| #[trigger]
                    self.answers_as(o) ==> vertices@ == flattened_fills(
                        start,
                        leaves@,
                        o,
                        i as nat,
                    ),
            decreases leaves@.len() - i,
        {
            let leaf: &SvoLeaf<Voxel> = &leaves[i];
            let ghost before = vertices@;
            let ghost mut flat = false;
            if let Voxel::Boundry(false) = leaf.value {
                let cell: Point = leaf.range.origin;
                proof {
                    lemma_leaf_cell(*voxels, i as int);
                    assert(can_see_faces(
                        cell,
                        self.cell_normal,
                        self.corner_normal,
                        self.facing,
                        self.alignment,
                    ));
                    assert(can_flatten(cell, self.plane, self.onto_plane));
                }
                if is_face_fill(
                    cell,
                    &solid,
                    &self.cell_normal,
                    &self.corner_normal,
                    &self.facing,
                    &self.alignment,
                ) {
                    proof {
                        flat = true;
                    }
                    flatten_fill_cell(cell, vertices, &self.plane, &self.onto_plane);
                    proof {
                        assert forall|p: Point| #[trigger]
                            vertices@.contains_key(p) implies is_boundary_corner(
                            leaves@,
                            p,
                            leaves@.len() as int,
                        ) && vertices@[p].on_lattice() by {
                            if before.contains_key(p) {
                                assert(vertices@[p] == before[p]);
                            } else {
                                assert(leaves@[i as int].value is Boundry && is_corner(
                                    leaves@[i as int].range.origin,
                                    p,
                                ));
                            }
                        }
                    }
                }
            }
            proof {
                let cell = leaves@[i as int].range.origin;
                assert forall|o: Answers<N, P, T>| #[trigger]
                    self.answers_as(o) implies vertices@ == flattened_fills(
                    start,
                    leaves@,
                    o,
                    (i + 1) as nat,
                ) by {
                    assert(agrees1(self.cell_normal, o.cell_normal));
                    assert(agrees1(self.corner_normal, o.corner_normal));
                    assert(agrees2(self.facing, o.facing));
                    assert(agrees2(self.alignment, o.alignment));
                    assert(agrees1(self.plane, o.plane));
                    assert(agrees2(self.onto_plane, o.onto_plane));
                    assert(before == flattened_fills(start, leaves@, o, i as nat));
                    assert(flat == (is_fill(leaves@[i as int].value) && face_fill(
                        cell,
                        solid_cells(leaves@),
                        o.cell_normal,
                        o.corner_normal,
                        o.facing,
                        o.alignment,
                    )));
                }
            }
            i = i + 1;
        }
    }

    /// Finds the vertices that do not rest on their grid corners: those at the corners that the
    /// surface sets apart from a boundary cell and, with smoothing, at all corners of boundary
    /// cells whose center lies outside of the mesh.
    pub fn extract_vertices(&self, voxels: &Svo<Voxel>, smooth: u32) -> (r: PointMap<Encoded>)
        requires
            self.can_extract(voxels.range, smooth),
            searchable(*voxels),
            is_roomy_for(voxels.leaf_seq(), smooth),
        ensures
            r.wf(),
            all_on_lattice(r@),
            lies_on_boundary(r@, voxels.leaf_seq()),
            smooth >= 1 ==> forall|p: Point| #[trigger]
                is_fill_corner(
                    voxels.leaf_seq(),
                    p,
                    voxels.leaf_seq().len() as int,
                ) ==> r@.contains_key(p),
            forall|o: Answers<N, P, T>| #[trigger]
                self.answers_as(o) ==> r@ == extracted(voxels.leaf_seq(), smooth, o),
    {
        let anchors: PointMap<Vec<Point>> = significant_points(voxels, &self.corner_inside);
        proof {
            assert forall|p: Point| #[trigger] anchors@.contains_key(p) implies (smooth == 0
                ==> self.can_snap_corner(p, &anchors@[p])) && (smooth >= 1 ==> call_requires(
                self.closest,
                (p,),
            )) by {
                lemma_boundary_corner(*voxels, p);
                assert(lists(anchors@).contains_key(p));
                assert(lists(anchors@)[p] == anchors@[p]@);
            }
        }
        let mut vertices: PointMap<Encoded> = self.place_significant(&anchors, smooth);
        let ghost placed = vertices@;
        proof {
            assert forall|p: Point| #[trigger]
                vertices@.contains_key(p) implies is_boundary_corner(
                voxels.leaf_seq(),
                p,
                voxels.leaf_seq().len() as int,
            ) by {
                assert(vertices@.dom().contains(p));
                assert(anchors@.contains_key(p));
            }
            assert forall|o: Answers<N, P, T>| #[trigger] self.answers_as(o) implies placed
                == significant_vertices(
                significant_anchors(voxels.leaf_seq(), o.corner_inside, voxels.leaf_seq().len()),
                smooth,
                o,
            ) by {
                assert(agrees1(self.corner_inside, o.corner_inside));
            }
        }
        if smooth >= 1 {
            self.flatten_fills(voxels, &mut vertices);
            let ghost flat = vertices@;
            assert forall|p: Point|
                is_fill_corner(
                    voxels.leaf_seq(),
                    p,
                    voxels.leaf_seq().len() as int,
                ) implies #[trigger] can_ask_average(self.average, p) && call_requires(
                self.closest,
                (p,),
            ) by {
                lemma_fill_corner(*voxels, p);
            }
            snap_unset_to_neighbors(voxels, &mut vertices, &self.average, &self.closest);
            let ghost full = vertices@;
            proof {
                assert forall|p: Point| #[trigger] full.contains_key(p) implies is_boundary_corner(
                    voxels.leaf_seq(),
                    p,
                    voxels.leaf_seq().len() as int,
                ) && (smooth >= 2 ==> p.inner() && can_ask_relaxed(self.relaxed, p)) by {
                    if !flat.contains_key(p) {
                        lemma_fill_corner(*voxels, p);
                    }
                    lemma_boundary_corner(*voxels, p);
                }
            }
            relax_surface_vertices(&mut vertices, &self.relaxed, smooth - 1);
            proof {
                assert forall|p: Point| #[trigger]
                    is_fill_corner(
                        voxels.leaf_seq(),
                        p,
                        voxels.leaf_seq().len() as int,
                    ) implies vertices@.contains_key(p) by {
                    assert(full.dom().contains(p));
                }
                assert forall|p: Point| #[trigger]
                    vertices@.contains_key(p) implies is_boundary_corner(
                    voxels.leaf_seq(),
                    p,
                    voxels.leaf_seq().len() as int,
                ) by {
                    assert(full.dom().contains(p));
                    assert(full.contains_key(p));
                }
                assert forall|o: Answers<N, P, T>| #[trigger] self.answers_as(o) implies vertices@
                    == extracted(voxels.leaf_seq(), smooth, o) by {
                    assert(agrees1(self.closest, o.closest));
                    assert(agrees2(self.average, o.average));
                    assert(agrees3(self.relaxed, o.relaxed));
                    assert(flat == flattened_fills(
                        placed,
                        voxels.leaf_seq(),
                        o,
                        voxels.leaf_seq().len(),
                    ));
                }
            }
        }
        vertices
    }
}

/// A corner is significant exactly if the surface sets it apart from the center of a boundary
/// cell: it lies inside of the mesh and the center does not, or the other way round.
pub proof fn significant_corners_are_set_apart(
    leaves: Seq<SvoLeaf<Voxel>>,
    inside: spec_fn(Point) -> bool,
    n: nat,
    p: Point,
)
    requires
        n <= leaves.len(),
    ensures
        significant_anchors(leaves, inside, n).contains_key(p) <==> is_set_apart(
            leaves,
            inside,
            n as int,
            p,
        ),
    decreases n,
{
    if n > 0 {
        significant_corners_are_set_apart(leaves, inside, (n - 1) as nat, p);
        let l = leaves[n - 1];
        let m = significant_anchors(leaves, inside, (n - 1) as nat);
        if let Voxel::Boundry(significant) = l.value {
            lemma_marked_corners(m, l.range.origin, significant, inside, 8, p);
            if is_corner(l.range.origin, p) && inside(p) != significant {
                assert(is_set_apart(leaves, inside, n as int, p)) by {
                    assert(sets_apart(leaves[n - 1], inside, p));
                }
            }
        }
        if is_set_apart(leaves, inside, n - 1, p) {
            let i = choose|i: int| 0 <= i < n - 1 && sets_apart(#[trigger] leaves[i], inside, p);
            assert(0 <= i < n && sets_apart(leaves[i], inside, p));
        }
    }
}

/// The leaf is a boundary cell, `p` is a corner of it, and the surface sets `p` apart from its
/// center.
pub open spec fn sets_apart(
    l: SvoLeaf<Voxel>,
    inside: spec_fn(Point) -> bool,
    p: Point,
) -> bool {
    &&& is_corner(l.range.origin, p)
    &&& l.value == Voxel::Boundry(!inside(p))
}

/// One of the first `n` leaves sets `p` apart.
pub open spec fn is_set_apart(
    leaves: Seq<SvoLeaf<Voxel>>,
    inside: spec_fn(Point) -> bool,
    n: int,
    p: Point,
) -> bool {
    exists|i: int| 0 <= i < n && sets_apart(#[trigger] leaves[i], inside, p)
}

proof fn lemma_marked_corners(
    m: Map<Point, Seq<Point>>,
    cell: Point,
    significant: bool,
    inside: spec_fn(Point) -> bool,
    k: nat,
    p: Point,
)
    requires
        k <= 8,
    ensures
        marked_corners(m, cell, significant, inside, k).contains_key(p) <==> m.contains_key(p) || (
        inside(p) != significant && exists|j: int| 0 <= j < k && p == #[trigger] corner(cell, j)),
    decreases k,
{
    if k > 0 {
        lemma_marked_corners(m, cell, significant, inside, (k - 1) as nat, p);
        if exists|j: int| 0 <= j < k - 1 && p == #[trigger] corner(cell, j) {
            let j = choose|j: int| 0 <= j < k - 1 && p == #[trigger] corner(cell, j);
            assert(0 <= j < k && p == corner(cell, j));
        }
        if p == corner(cell, k - 1) {
            assert(0 <= k - 1 < k);
        }
    }
}

proof fn lemma_flattened_fills<N, P, T>(
    v: Vertices,
    leaves: Seq<SvoLeaf<Voxel>>,
    o: Answers<N, P, T>,
    n: nat,
)
    requires
        n <= leaves.len(),
    ensures
        extends(v, flattened_fills(v, leaves, o, n)),
        forall|p: Point| #[trigger]
            flattened_fills(v, leaves, o, n).contains_key(p) ==> v.contains_key(p)
                || is_fill_corner(leaves, p, n as int),
    decreases n,
{
    if n > 0 {
        lemma_flattened_fills(v, leaves, o, (n - 1) as nat);
        let w = flattened_fills(v, leaves, o, (n - 1) as nat);
        let cell = leaves[n - 1].range.origin;
        flattening_adds_corners(w, cell, o.plane, o.onto_plane);
        let u = flattened_fills(v, leaves, o, n);
        assert forall|p: Point| #[trigger] u.contains_key(p) implies v.contains_key(p)
            || is_fill_corner(leaves, p, n as int) by {
            if w.contains_key(p) {
                if !v.contains_key(p) {
                    let i = choose|i: int|
                        0 <= i < n - 1 && is_fill((#[trigger] leaves[i]).value) && is_corner(
                            leaves[i].range.origin,
                            p,
                        );
                    assert(0 <= i < n && is_fill(leaves[i].value));
                }
            } else {
                assert(is_fill(leaves[n - 1].value) && is_corner(leaves[n - 1].range.origin, p));
            }
        }
    }
}

proof fn lemma_with_unset_corners(points: Seq<Point>, v: Vertices, cell: Point, k: nat)
    requires
        k <= 8,
        all_unset(v, points),
        forall|j: int| 0 <= j < 8 ==> (#[trigger] corner(cell, j)).inner(),
    ensures
        all_unset(v, with_unset_corners(points, v, cell, k)),
        forall|p: Point| #[trigger]
            with_unset_corners(points, v, cell, k).contains(p) <==> points.contains(p) || (
            !v.contains_key(p) && exists|j: int| 0 <= j < k && p == #[trigger] corner(cell, j)),
    decreases k,
{
    if k > 0 {
        lemma_with_unset_corners(points, v, cell, (k - 1) as nat);
        let ps = with_unset_corners(points, v, cell, (k - 1) as nat);
        let qs = with_unset_corners(points, v, cell, k);
        let c = corner(cell, k - 1);
        assert forall|p: Point| #[trigger] qs.contains(p) <==> points.contains(p) || (
        !v.contains_key(p) && exists|j: int| 0 <= j < k && p == #[trigger] corner(cell, j)) by {
            if ps.contains(p) {
                let i = choose|i: int| 0 <= i < ps.len() && ps[i] == p;
                assert(qs[i] == p);
                if !points.contains(p) {
                    let j = choose|j: int| 0 <= j < k - 1 && p == #[trigger] corner(cell, j);
                    assert(0 <= j < k && p == corner(cell, j));
                }
            }
            if p == c {
                assert(0 <= k - 1 < k && p == corner(cell, k - 1));
                if !v.contains_key(p) && !ps.contains(p) {
                    assert(qs[qs.len() - 1] == p);
                }
            }
        }
    }
}

/// The unset corners are the corners of fill cells that are not placed, each once.
pub proof fn unset_corners_are_unplaced_fill_corners(
    leaves: Seq<SvoLeaf<Voxel>>,
    v: Vertices,
    n: nat,
)
    requires
        fill_is_roomy(leaves),
        n <= leaves.len(),
    ensures
        all_unset(v, unset_corners(leaves, v, n)),
        forall|p: Point| #[trigger]
            unset_corners(leaves, v, n).contains(p) <==> is_fill_corner(leaves, p, n as int)
                && !v.contains_key(p),
    decreases n,
{
    if n > 0 {
        unset_corners_are_unplaced_fill_corners(leaves, v, (n - 1) as nat);
        let ps = unset_corners(leaves, v, (n - 1) as nat);
        let qs = unset_corners(leaves, v, n);
        let cell = leaves[n - 1].range.origin;
        if is_fill(leaves[n - 1].value) {
            assert forall|j: int| 0 <= j < 8 implies (#[trigger] corner(cell, j)).inner() by {
                crate::geometry::lemma_octant_offset(1, j);
            }
            lemma_with_unset_corners(ps, v, cell, 8);
        }
        assert forall|p: Point| #[trigger] qs.contains(p) <==> is_fill_corner(leaves, p, n as int)
            && !v.contains_key(p) by {
            if is_fill_corner(leaves, p, n - 1) {
                let i = choose|i: int|
                    0 <= i < n - 1 && is_fill((#[trigger] leaves[i]).value) && is_corner(
                        leaves[i].range.origin,
                        p,
                    );
                assert(0 <= i < n && is_fill(leaves[i].value));
            }
            if is_fill_corner(leaves, p, n as int) {
                let i = choose|i: int|
                    0 <= i < n && is_fill((#[trigger] leaves[i]).value) && is_corner(
                        leaves[i].range.origin,
                        p,
                    );
                if i < n - 1 {
                    assert(is_fill_corner(leaves, p, n - 1));
                }
            }
            if is_fill(leaves[n - 1].value) && is_corner(cell, p) {
                assert(is_fill_corner(leaves, p, n as int));
            }
        }
    }
}

/// The corners that get vertices are those that the surface sets apart from the center of a
/// boundary cell and, with smoothing, all corners of boundary cells whose center lies outside of
/// the mesh.
pub proof fn vertices_are_at_set_apart_and_fill_corners<N, P, T>(
    leaves: Seq<SvoLeaf<Voxel>>,
    smooth: u32,
    o: Answers<N, P, T>,
    p: Point,
)
    requires
        smooth >= 1 ==> fill_is_roomy(leaves),
    ensures
        extracted(leaves, smooth, o).contains_key(p) <==> is_set_apart(
            leaves,
            o.corner_inside,
            leaves.len() as int,
            p,
        ) || (smooth >= 1 && is_fill_corner(leaves, p, leaves.len() as int)),
{
    let n = leaves.len();
    significant_corners_are_set_apart(leaves, o.corner_inside, n, p);
    let v = significant_vertices(significant_anchors(leaves, o.corner_inside, n), smooth, o);
    assert(v.contains_key(p) <==> is_set_apart(leaves, o.corner_inside, n as int, p));
    if smooth >= 1 {
        let w = flattened_fills(v, leaves, o, n);
        lemma_flattened_fills(v, leaves, o, n);
        unset_corners_are_unplaced_fill_corners(leaves, w, n);
        let unset = unset_corners(leaves, w, n);
        snapping_places_the_unset_points(w, unset, o.average, o.closest);
        let s = snapped(w, unset, o.average, o.closest);
        relaxation_keeps_corners(s, o.relaxed, (smooth - 1) as nat);
        let e = extracted(leaves, smooth, o);
        assert(e.dom() == s.dom());
        assert(e.contains_key(p) <==> s.contains_key(p));
        assert(v.contains_key(p) ==> w.contains_key(p));
        assert(unset.contains(p) <==> is_fill_corner(leaves, p, n as int) && !w.contains_key(p));
    }
}

/// Smoothing without relaxation keeps the vertices at the significant corners: each lies at the
/// point of the surface that is nearest to its corner.
pub proof fn smoothing_keeps_significant_vertices<N, P, T>(
    leaves: Seq<SvoLeaf<Voxel>>,
    o: Answers<N, P, T>,
    p: Point,
)
    requires
        fill_is_roomy(leaves),
        is_set_apart(leaves, o.corner_inside, leaves.len() as int, p),
    ensures
        extracted(leaves, 1, o).contains_key(p),
        extracted(leaves, 1, o)[p] == (o.closest)(p).rounded(),
{
    let n = leaves.len();
    let anchors = significant_anchors(leaves, o.corner_inside, n);
    significant_corners_are_set_apart(leaves, o.corner_inside, n, p);
    assert(anchors.contains_key(p));
    let v = significant_vertices(anchors, 1, o);
    assert(v.contains_key(p) && v[p] == (o.closest)(p).rounded());
    let w = flattened_fills(v, leaves, o, n);
    lemma_flattened_fills(v, leaves, o, n);
    assert(extends(v, w));
    assert(w.contains_key(p) && w[p] == v[p]);
    unset_corners_are_unplaced_fill_corners(leaves, w, n);
    let unset = unset_corners(leaves, w, n);
    snapping_places_the_unset_points(w, unset, o.average, o.closest);
    let s = snapped(w, unset, o.average, o.closest);
    assert(extends(w, s));
    assert(s.contains_key(p) && s[p] == w[p]);
    assert(relaxed_times(s, o.relaxed, 0) == s);
    assert(extracted(leaves, 1, o) == s);
}

/// Where no leaf lies on the boundary, every vertex rests on its grid corner.
pub proof fn vertices_need_a_boundary<N, P, T>(
    leaves: Seq<SvoLeaf<Voxel>>,
    smooth: u32,
    o: Answers<N, P, T>,
)
    requires
        forall|i: int| 0 <= i < leaves.len() ==> !((#[trigger] leaves[i]).value is Boundry),
    ensures
        extracted(leaves, smooth, o) == Map::<Point, Encoded>::empty(),
{
    let n = leaves.len();
    lemma_no_boundary(leaves, o, n);
    let none = Map::<Point, Encoded>::empty();
    assert(significant_vertices(significant_anchors(leaves, o.corner_inside, n), smooth, o)
        =~= none);
    if smooth >= 1 {
        let s = snapped(none, seq![], o.average, o.closest);
        snapping_places_the_unset_points(none, seq![], o.average, o.closest);
        relaxation_keeps_corners(s, o.relaxed, (smooth - 1) as nat);
        assert(s =~= none);
        assert(extracted(leaves, smooth, o).dom() == s.dom());
        assert(extracted(leaves, smooth, o) =~= none);
    }
}

proof fn lemma_no_boundary<N, P, T>(leaves: Seq<SvoLeaf<Voxel>>, o: Answers<N, P, T>, n: nat)
    requires
        n <= leaves.len(),
        forall|i: int| 0 <= i < leaves.len() ==> !((#[trigger] leaves[i]).value is Boundry),
    ensures
        significant_anchors(leaves, o.corner_inside, n) == Map::<Point, Seq<Point>>::empty(),
        flattened_fills(Map::empty(), leaves, o, n) == Map::<Point, Encoded>::empty(),
        unset_corners(leaves, Map::empty(), n) == Seq::<Point>::empty(),
    decreases n,
{
    if n > 0 {
        lemma_no_boundary(leaves, o, (n - 1) as nat);
        assert(!(leaves[n - 1].value is Boundry));
    }
}

} // verus!
