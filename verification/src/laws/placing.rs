//! Which corners get vertices at each level of smoothing, and where.
use crate::fill::{is_fill, solid_cells};
use crate::geometry::Point;
use crate::laws::cells::{around_cell, corners_are_around_their_cell};
use crate::laws::filling::{every_face_fill_is_flattened, flattens};
use crate::laws::smoothing::{has_neighbor, relaxation_moves_vertices_with_neighbors};
use crate::neighbors::{all_unset, neighborhood, relaxed_once, relaxed_times, snapped};
use crate::offset::{corner, extends, has_corners, is_corner, Vertices};
use crate::point_map::appended;
use crate::snap::{snap_target, snapped_offset};
use crate::surface::Answers;
use crate::svo::SvoLeaf;
use crate::vertices::{
    extracted, fill_is_roomy, flattened_fills, is_fill_corner, marked_corners,
    significant_anchors, significant_vertices, snapped_corner, unset_corners,
    unset_corners_are_unplaced_fill_corners,
};
use crate::voxel::Voxel;
use vstd::prelude::*;

verus! {

/// The leaf is a boundary cell around which `p` lies, and the surface sets `p` apart from its
/// center: the center lies inside and `p` does not, or the other way round.
pub open spec fn is_apart(
    l: SvoLeaf<Voxel>,
    inside: spec_fn(Point) -> bool,
    p: Point,
) -> bool {
    &&& around_cell(l.range.origin, p)
    &&& l.value == Voxel::Boundry(true) && !inside(p) || l.value == Voxel::Boundry(false) && inside(
        p,
    )
}

/// The cells that the surface sets `p` apart from, in the order of the leaves.
pub open spec fn cells_apart(
    leaves: Seq<SvoLeaf<Voxel>>,
    inside: spec_fn(Point) -> bool,
    p: Point,
) -> Seq<Point> {
    leaves.filter(|l: SvoLeaf<Voxel>| is_apart(l, inside, p)).map_values(
        |l: SvoLeaf<Voxel>| l.range.origin,
    )
}

/// `p` lies around a boundary cell whose center lies outside of the mesh.
pub open spec fn is_around_fill(leaves: Seq<SvoLeaf<Voxel>>, p: Point) -> bool {
    exists|i: int|
        0 <= i < leaves.len() && (#[trigger] leaves[i]).value == Voxel::Boundry(false)
            && around_cell(leaves[i].range.origin, p)
}

/// Every boundary cell has corners.
pub open spec fn boundary_has_corners(leaves: Seq<SvoLeaf<Voxel>>) -> bool {
    forall|i: int|
        0 <= i < leaves.len() && (#[trigger] leaves[i]).value is Boundry ==> has_corners(
            leaves[i].range.origin,
        )
}

proof fn lemma_marks(
    m: Map<Point, Seq<Point>>,
    cell: Point,
    significant: bool,
    inside: spec_fn(Point) -> bool,
    k: nat,
    p: Point,
)
    requires
        k <= 8,
        has_corners(cell),
    ensures
        ({
            let w = marked_corners(m, cell, significant, inside, k);
            let marked = inside(p) != significant && exists|j: int|
                0 <= j < k && p == #[trigger] corner(cell, j);
            let want = appended(m, p, cell);
            &&& marked ==> w.contains_key(p) && w[p] == want[p]
            &&& !marked ==> (w.contains_key(p) <==> m.contains_key(p))
            &&& !marked && m.contains_key(p) ==> w[p] == m[p]
        }),
    decreases k,
{
    if k > 0 {
        lemma_marks(m, cell, significant, inside, (k - 1) as nat, p);
        corners_are_around_their_cell(cell, p);
        if exists|j: int| 0 <= j < k - 1 && p == #[trigger] corner(cell, j) {
            let j = choose|j: int| 0 <= j < k - 1 && p == #[trigger] corner(cell, j);
            assert(0 <= j < k && p == corner(cell, j));
            assert(corner(cell, j) != corner(cell, k - 1));
        } else if p == corner(cell, k - 1) {
            assert(0 <= k - 1 < k && p == corner(cell, k - 1));
        }
    }
}

/// A corner is significant exactly if the surface sets it apart from a boundary cell; its anchors
/// are all cells that it is set apart from, each once, in the order of the leaves.
pub proof fn anchors_are_the_cells_apart(
    leaves: Seq<SvoLeaf<Voxel>>,
    inside: spec_fn(Point) -> bool,
    n: nat,
    p: Point,
)
    requires
        n <= leaves.len(),
        boundary_has_corners(leaves),
    ensures
        ({
            let m = significant_anchors(leaves, inside, n);
            let cells = cells_apart(leaves.take(n as int), inside, p);
            &&& m.contains_key(p) <==> cells.len() > 0
            &&& m.contains_key(p) ==> m[p] == cells
        }),
    decreases n,
{
    reveal(Seq::filter);
    let taken = leaves.take(n as int);
    if n == 0 {
        assert(taken.filter(|l: SvoLeaf<Voxel>| is_apart(l, inside, p)).len() == 0);
    } else {
        anchors_are_the_cells_apart(leaves, inside, (n - 1) as nat, p);
        let before = leaves.take(n - 1);
        let l = leaves[n - 1];
        let apart = |l: SvoLeaf<Voxel>| is_apart(l, inside, p);
        let place = |l: SvoLeaf<Voxel>| l.range.origin;
        assert(taken.drop_last() =~= before);
        assert(taken.last() == l);
        let old = cells_apart(before, inside, p);
        let new = cells_apart(taken, inside, p);
        assert(old == before.filter(apart).map_values(place));
        if is_apart(l, inside, p) {
            assert(taken.filter(apart) == before.filter(apart).push(l));
            assert(new =~= old.push(l.range.origin));
        } else {
            assert(taken.filter(apart) == before.filter(apart));
            assert(new =~= old);
        }
        let m = significant_anchors(leaves, inside, (n - 1) as nat);
        if let Voxel::Boundry(significant) = l.value {
            lemma_marks(m, l.range.origin, significant, inside, 8, p);
            corners_are_around_their_cell(l.range.origin, p);
            assert(is_corner(l.range.origin, p) <==> exists|j: int|
                0 <= j < 8 && p == #[trigger] corner(l.range.origin, j));
            if is_apart(l, inside, p) && !m.contains_key(p) {
                assert(old.len() == 0);
                assert(old.push(l.range.origin) =~= seq![l.range.origin]);
            }
        }
    }
}

proof fn lemma_all_anchors(leaves: Seq<SvoLeaf<Voxel>>, inside: spec_fn(Point) -> bool, p: Point)
    requires
        boundary_has_corners(leaves),
    ensures
        ({
            let m = significant_anchors(leaves, inside, leaves.len());
            &&& m.contains_key(p) <==> cells_apart(leaves, inside, p).len() > 0
            &&& m.contains_key(p) ==> m[p] == cells_apart(leaves, inside, p)
        }),
{
    anchors_are_the_cells_apart(leaves, inside, leaves.len(), p);
    assert(leaves.take(leaves.len() as int) =~= leaves);
}

proof fn lemma_fill_corner(leaves: Seq<SvoLeaf<Voxel>>, p: Point)
    requires
        boundary_has_corners(leaves),
    ensures
        is_fill_corner(leaves, p, leaves.len() as int) <==> is_around_fill(leaves, p),
{
    let n = leaves.len() as int;
    if is_fill_corner(leaves, p, n) {
        let i = choose|i: int|
            0 <= i < n && is_fill((#[trigger] leaves[i]).value) && is_corner(
                leaves[i].range.origin,
                p,
            );
        corners_are_around_their_cell(leaves[i].range.origin, p);
        assert(around_cell(leaves[i].range.origin, p));
    }
    if is_around_fill(leaves, p) {
        let i = choose|i: int|
            0 <= i < n && (#[trigger] leaves[i]).value == Voxel::Boundry(false) && around_cell(
                leaves[i].range.origin,
                p,
            );
        corners_are_around_their_cell(leaves[i].range.origin, p);
        assert(is_fill(leaves[i].value) && is_corner(leaves[i].range.origin, p));
    }
}

/// A corner is snapped to the triangle that is nearest to its anchors, at the target that the
/// features of this triangle give.
pub proof fn corners_snap_to_the_triangle_of_their_anchors<N, P, T>(
    p: Point,
    cells: Seq<Point>,
    o: Answers<N, P, T>,
)
    ensures
        ({
            let g = (o.facet)(p, cells);
            snapped_corner(p, cells, o) == snapped_offset(
                g,
                snap_target((o.features)(g)),
                o.gap,
                o.walk,
                o.error,
                o.at_feature,
                o.at_lattice,
            )
        }),
{
}

/// Exactly the significant corners get vertices at first: with smoothing at the nearest point of
/// the surface, without it where they are snapped to.
pub proof fn significant_corners_are_placed<N, P, T>(
    anchors: Map<Point, Seq<Point>>,
    smooth: u32,
    o: Answers<N, P, T>,
    p: Point,
)
    ensures
        ({
            let v = significant_vertices(anchors, smooth, o);
            &&& v.contains_key(p) <==> anchors.contains_key(p)
            &&& v.contains_key(p) && smooth != 0 ==> v[p] == (o.closest)(p).rounded()
            &&& v.contains_key(p) && smooth == 0 ==> v[p] == snapped_corner(p, anchors[p], o)
        }),
{
}

/// Without smoothing, the corners that the surface sets apart from a boundary cell get vertices,
/// each snapped to the triangle that is nearest to the cells it is set apart from; no other corner
/// does.
pub proof fn rough_vertices_are_snapped<N, P, T>(
    leaves: Seq<SvoLeaf<Voxel>>,
    o: Answers<N, P, T>,
    p: Point,
)
    requires
        boundary_has_corners(leaves),
    ensures
        ({
            let e = extracted(leaves, 0, o);
            let cells = cells_apart(leaves, o.corner_inside, p);
            let g = (o.facet)(p, cells);
            &&& e.contains_key(p) <==> cells.len() > 0
            &&& e.contains_key(p) ==> e[p] == snapped_offset(
                g,
                snap_target((o.features)(g)),
                o.gap,
                o.walk,
                o.error,
                o.at_feature,
                o.at_lattice,
            )
        }),
{
    lemma_all_anchors(leaves, o.corner_inside, p);
}

/// `p` lies around a fill cell that continues a face.
pub open spec fn is_flattened<N, P, T>(
    leaves: Seq<SvoLeaf<Voxel>>,
    o: Answers<N, P, T>,
    p: Point,
) -> bool {
    exists|i: int|
        0 <= i < leaves.len() && flattens(#[trigger] leaves[i], solid_cells(leaves), o, p)
}

/// The vertices of level one that are not placed by their neighbors.
pub open spec fn placed_first<N, P, T>(
    leaves: Seq<SvoLeaf<Voxel>>,
    o: Answers<N, P, T>,
) -> Vertices {
    Map::new(
        |p: Point|
            cells_apart(leaves, o.corner_inside, p).len() > 0 || is_flattened(leaves, o, p),
        |p: Point| extracted(leaves, 1, o)[p],
    )
}

/// With smoothing, a corner that the surface sets apart gets its vertex at the nearest point of the
/// surface. Another corner of a fill cell that continues a face lies on the plane of the first
/// such cell. The remaining corners of fill cells are snapped to their neighbors, those placed so
/// far counting; no other corner gets a vertex.
pub proof fn smooth_vertices_are_placed_in_turn<N, P, T>(
    leaves: Seq<SvoLeaf<Voxel>>,
    o: Answers<N, P, T>,
    p: Point,
)
    requires
        boundary_has_corners(leaves),
        fill_is_roomy(leaves),
    ensures
        ({
            let e = extracted(leaves, 1, o);
            let apart = cells_apart(leaves, o.corner_inside, p).len() > 0;
            let solid = solid_cells(leaves);
            &&& e.contains_key(p) <==> apart || is_around_fill(leaves, p)
            &&& apart ==> e[p] == (o.closest)(p).rounded()
            &&& forall|i: int|
                !apart && 0 <= i < leaves.len() && flattens(#[trigger] leaves[i], solid, o, p) && (
                forall|j: int| 0 <= j < i ==> !flattens(#[trigger] leaves[j], solid, o, p)) ==> e[p]
                    == (o.onto_plane)((o.plane)(leaves[i].range.origin)->Some_0, p).rounded()
            &&& exists|unset: Seq<Point>|
                {
                    &&& #[trigger] all_unset(placed_first(leaves, o), unset)
                    &&& forall|q: Point| #[trigger]
                        unset.contains(q) <==> is_around_fill(leaves, q) && !placed_first(
                            leaves,
                            o,
                        ).contains_key(q)
                    &&& e == snapped(placed_first(leaves, o), unset, o.average, o.closest)
                }
        }),
{
    let n = leaves.len();
    let anchors = significant_anchors(leaves, o.corner_inside, n);
    let v = significant_vertices(anchors, 1, o);
    let w = flattened_fills(v, leaves, o, n);
    let unset = unset_corners(leaves, w, n);
    let s = snapped(w, unset, o.average, o.closest);
    let e = extracted(leaves, 1, o);
    relaxation_moves_vertices_with_neighbors(s, o.relaxed, 0, p);
    assert(e == s);
    unset_corners_are_unplaced_fill_corners(leaves, w, n);
    crate::neighbors::snapping_places_the_unset_points(w, unset, o.average, o.closest);
    assert(extends(w, s));
    assert forall|q: Point|
        {
            &&& #[trigger] w.contains_key(q) <==> cells_apart(leaves, o.corner_inside, q).len() > 0
                || is_flattened(leaves, o, q)
            &&& v.contains_key(q) <==> cells_apart(leaves, o.corner_inside, q).len() > 0
            &&& v.contains_key(q) ==> w[q] == (o.closest)(q).rounded()
        } by {
        lemma_all_anchors(leaves, o.corner_inside, q);
        every_face_fill_is_flattened(v, leaves, o, n, q);
    }
    let first = placed_first(leaves, o);
    assert(w =~= first);
    assert forall|q: Point| #[trigger] unset.contains(q) <==> is_around_fill(leaves, q)
        && !first.contains_key(q) by {
        lemma_fill_corner(leaves, q);
    }
    assert(all_unset(first, unset));
    lemma_fill_corner(leaves, p);
    every_face_fill_is_flattened(v, leaves, o, n, p);
    if is_flattened(leaves, o, p) {
        let i = choose|i: int|
            0 <= i < leaves.len() && flattens(#[trigger] leaves[i], solid_cells(leaves), o, p);
        assert(around_cell(leaves[i].range.origin, p));
    }
}

/// Each further level of smoothing is one more step of relaxation: a vertex with a neighbor moves
/// to where `relaxed` says for the vertices of the level before, and the others stay.
pub proof fn each_level_relaxes_once_more<N, P, T>(
    leaves: Seq<SvoLeaf<Voxel>>,
    smooth: u32,
    o: Answers<N, P, T>,
    p: Point,
)
    requires
        1 <= smooth < u32::MAX,
    ensures
        ({
            let e = extracted(leaves, smooth, o);
            let f = extracted(leaves, (smooth + 1) as u32, o);
            &&& f.contains_key(p) <==> e.contains_key(p)
            &&& e.contains_key(p) && has_neighbor(e, p) ==> f[p] == (o.relaxed)(
                p,
                e[p],
                neighborhood(e, p),
            ).rounded()
            &&& e.contains_key(p) && !has_neighbor(e, p) ==> f[p] == e[p]
        }),
{
    let n = leaves.len();
    let anchors = significant_anchors(leaves, o.corner_inside, n);
    let v = significant_vertices(anchors, smooth, o);
    let v2 = significant_vertices(anchors, (smooth + 1) as u32, o);
    assert(v =~= v2);
    let w = flattened_fills(v, leaves, o, n);
    let s = snapped(w, unset_corners(leaves, w, n), o.average, o.closest);
    let e = extracted(leaves, smooth, o);
    let f = extracted(leaves, (smooth + 1) as u32, o);
    assert(e == relaxed_times(s, o.relaxed, (smooth - 1) as nat));
    assert(f == relaxed_times(s, o.relaxed, smooth as nat));
    relaxation_moves_vertices_with_neighbors(s, o.relaxed, (smooth - 1) as nat, p);
    relaxation_moves_vertices_with_neighbors(e, o.relaxed, 0, p);
    assert(f == relaxed_once(e, o.relaxed));
}

} // verus!
