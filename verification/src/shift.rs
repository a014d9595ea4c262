//! Moving a chunk along the grid moves its data.
use crate::chunk::{
    all_external, chunk_fits, chunk_leaves, gets_material, grid_range, has_material,
    has_position, is_chunk_data, material_area, position_area, tree_origin, TREE_SIZE,
};
use crate::geometry::{lemma_octant_offset, Point, RangeZYX, Vector};
use crate::grid::VoxelCellData;
use crate::offset::corner;
use crate::point_map::appended;
use crate::surface::{are_cells_of, Answers};
use crate::svo::{
    cube, leaves_by, lemma_octant_is_node, may_be_node, octant_leaves_by, power_of_two, SvoLeaf,
    SvoReturn,
};
use crate::vertices::{
    extracted, marked_corners, significant_anchors, significant_vertices, snapped_corner,
};
use crate::voxel::{classification, inside_count, Voxel, CENTER, SAMPLES};
use vstd::prelude::*;

verus! {

/// The box, moved by `d`.
pub open spec fn moved_range(b: RangeZYX, d: Vector) -> RangeZYX {
    RangeZYX { origin: b.origin.shifted(d), size: b.size }
}

/// The leaf, moved by `d`.
pub open spec fn moved_leaf(l: SvoLeaf<Voxel>, d: Vector) -> SvoLeaf<Voxel> {
    SvoLeaf { range: moved_range(l.range, d), value: l.value }
}

/// The leaves, moved by `d`.
pub open spec fn moved_leaves(s: Seq<SvoLeaf<Voxel>>, d: Vector) -> Seq<SvoLeaf<Voxel>> {
    s.map_values(|l: SvoLeaf<Voxel>| moved_leaf(l, d))
}

/// The points, moved by `d`.
pub open spec fn moved_points(s: Seq<Point>, d: Vector) -> Seq<Point> {
    s.map_values(|p: Point| p.shifted(d))
}

/// All points of the closed box are grid points when they are moved by `d`, as they are before.
pub open spec fn can_move(b: RangeZYX, d: Vector) -> bool {
    b.fits() && b.origin.can_shift(d) && moved_range(b, d).fits()
}

/// What `second` answers about boxes and points of `range` that are moved by `d`, `first` answers
/// about where they come from, as far as it matters without smoothing. About a triangle both
/// answer the same.
pub open spec fn answers_move<N, P, T>(
    first: Answers<N, P, T>,
    second: Answers<N, P, T>,
    range: RangeZYX,
    d: Vector,
) -> bool {
    &&& forall|b: RangeZYX|
        may_be_node(range, b) ==> (second.intersects)(moved_range(b, d)) == #[trigger] (
        first.intersects)(b)
    &&& forall|b: RangeZYX, k: usize|
        may_be_node(range, b) && k < SAMPLES ==> (second.sample_inside)(moved_range(b, d), k)
            == #[trigger] (first.sample_inside)(b, k)
    &&& forall|p: Point|
        range.touches(p) ==> (second.corner_inside)(p.shifted(d)) == #[trigger] (
        first.corner_inside)(p)
    &&& forall|p: Point, cells: Seq<Point>|
        range.touches(p) && are_cells_of(range, cells) ==> (second.facet)(
            p.shifted(d),
            moved_points(cells, d),
        ) == #[trigger] (first.facet)(p, cells)
    &&& second.features == first.features
    &&& second.gap == first.gap
    &&& second.walk == first.walk
    &&& second.error == first.error
    &&& second.at_feature == first.at_feature
    &&& second.at_lattice == first.at_lattice
}

/// The octants of a moved box are the moved octants.
proof fn lemma_moved_octant(root: RangeZYX, b: RangeZYX, d: Vector, k: int)
    requires
        can_move(root, d),
        may_be_node(root, b),
        b.size.x > 1,
        0 <= k < 8,
    ensures
        moved_range(b, d).octant(k) == moved_range(b.octant(k), d),
{
    lemma_octant_offset(b.size.x as int / 2, k);
}

/// Whether boxes have a point in common does not change when both are moved.
proof fn lemma_moved_disjoint(root: RangeZYX, a: RangeZYX, b: RangeZYX, d: Vector)
    requires
        can_move(root, d),
        root.encloses(a),
        root.encloses(b),
        a.valid(),
        b.valid(),
    ensures
        moved_range(a, d).disjoint(moved_range(b, d)) <==> a.disjoint(b),
{
    let (ma, mb) = (moved_range(a, d), moved_range(b, d));
    if !a.disjoint(b) {
        let p = choose|p: Point| #[trigger] a.has(p) && b.has(p);
        assert(ma.has(p.shifted(d)) && mb.has(p.shifted(d)));
    }
    if !ma.disjoint(mb) {
        let q = choose|q: Point| #[trigger] ma.has(q) && mb.has(q);
        let p = Point { x: (q.x - d.x) as i32, y: (q.y - d.y) as i32, z: (q.z - d.z) as i32 };
        assert(a.has(p) && b.has(p));
    }
}

proof fn lemma_moved_count(
    first: spec_fn(RangeZYX, usize) -> bool,
    second: spec_fn(RangeZYX, usize) -> bool,
    b: RangeZYX,
    d: Vector,
    k: nat,
)
    requires
        k <= SAMPLES,
        forall|j: usize| j < SAMPLES ==> second(moved_range(b, d), j) == #[trigger] first(b, j),
    ensures
        inside_count(second, moved_range(b, d), k) == inside_count(first, b, k),
    decreases k,
{
    if k > 0 {
        lemma_moved_count(first, second, b, d, (k - 1) as nat);
        let j = (k - 1) as usize;
        assert(second(moved_range(b, d), j) == first(b, j));
    }
}

/// A moved box becomes what the box becomes.
proof fn lemma_moved_classification<N, P, T>(
    first: Answers<N, P, T>,
    second: Answers<N, P, T>,
    root: RangeZYX,
    clip: RangeZYX,
    d: Vector,
    b: RangeZYX,
)
    requires
        can_move(root, d),
        root.encloses(clip),
        clip.valid(),
        answers_move(first, second, root, d),
        may_be_node(root, b),
    ensures
        classification(
            moved_range(b, d),
            moved_range(clip, d),
            second.intersects,
            second.sample_inside,
        ) == classification(b, clip, first.intersects, first.sample_inside),
{
    lemma_moved_disjoint(root, b, clip, d);
    assert((second.intersects)(moved_range(b, d)) == (first.intersects)(b));
    assert((second.sample_inside)(moved_range(b, d), CENTER) == (first.sample_inside)(b, CENTER));
    assert forall|j: usize| j < SAMPLES implies (second.sample_inside)(moved_range(b, d), j)
        == #[trigger] (first.sample_inside)(b, j) by {}
    lemma_moved_count(first.sample_inside, second.sample_inside, b, d, SAMPLES as nat);
}

/// The leaves over a moved box are the moved leaves, and all of them are nodes.
proof fn lemma_moved_leaves(
    root: RangeZYX,
    b: RangeZYX,
    d: Vector,
    first: spec_fn(RangeZYX) -> SvoReturn<Voxel>,
    second: spec_fn(RangeZYX) -> SvoReturn<Voxel>,
)
    requires
        can_move(root, d),
        may_be_node(root, b),
        forall|c: RangeZYX|
            may_be_node(root, c) ==> second(moved_range(c, d)) == #[trigger] first(c),
    ensures
        leaves_by(moved_range(b, d), second) == moved_leaves(leaves_by(b, first), d),
        forall|i: int|
            0 <= i < leaves_by(b, first).len() ==> may_be_node(
                root,
                (#[trigger] leaves_by(b, first)[i]).range,
            ),
    decreases b.size.x, 9nat,
{
    assert(second(moved_range(b, d)) == first(b));
    match first(b) {
        SvoReturn::Leaf(value) => {
            assert(leaves_by(moved_range(b, d), second) =~= moved_leaves(leaves_by(b, first), d));
        },
        SvoReturn::Internal(_) => {
            lemma_moved_octant_leaves(root, b, d, first, second, 8);
        },
    }
}

proof fn lemma_moved_octant_leaves(
    root: RangeZYX,
    b: RangeZYX,
    d: Vector,
    first: spec_fn(RangeZYX) -> SvoReturn<Voxel>,
    second: spec_fn(RangeZYX) -> SvoReturn<Voxel>,
    k: nat,
)
    requires
        can_move(root, d),
        may_be_node(root, b),
        k <= 8,
        forall|c: RangeZYX|
            may_be_node(root, c) ==> second(moved_range(c, d)) == #[trigger] first(c),
    ensures
        octant_leaves_by(moved_range(b, d), second, k) == moved_leaves(
            octant_leaves_by(b, first, k),
            d,
        ),
        forall|i: int|
            0 <= i < octant_leaves_by(b, first, k).len() ==> may_be_node(
                root,
                (#[trigger] octant_leaves_by(b, first, k)[i]).range,
            ),
    decreases b.size.x, k,
{
    let all = octant_leaves_by(b, first, k);
    if k > 0 && b.size.x > 1 {
        let part = b.octant(k - 1);
        lemma_octant_is_node(root, b, k - 1);
        lemma_moved_octant(root, b, d, k - 1);
        lemma_moved_octant_leaves(root, b, d, first, second, (k - 1) as nat);
        lemma_moved_leaves(root, part, d, first, second);
        let head = octant_leaves_by(b, first, (k - 1) as nat);
        let last = leaves_by(part, first);
        assert forall|i: int| 0 <= i < all.len() implies may_be_node(
            root,
            (#[trigger] all[i]).range,
        ) by {
            if i < head.len() {
                assert(all[i] == head[i]);
            } else {
                assert(all[i] == last[i - head.len()]);
            }
        }
    }
    assert(octant_leaves_by(moved_range(b, d), second, k) =~= moved_leaves(all, d));
}

/// The corners of a moved cell are the moved corners.
proof fn lemma_moved_corner(root: RangeZYX, cell: Point, d: Vector, k: int)
    requires
        can_move(root, d),
        root.has(cell),
        0 <= k < 8,
    ensures
        corner(cell.shifted(d), k) == corner(cell, k).shifted(d),
        root.touches(corner(cell, k)),
{
    lemma_octant_offset(1, k);
}

/// `second` has the anchors of `first`, moved by `d`, and `first` has cells of `range` only.
spec fn anchors_move(
    first: Map<Point, Seq<Point>>,
    second: Map<Point, Seq<Point>>,
    range: RangeZYX,
    d: Vector,
) -> bool {
    forall|p: Point| #[trigger]
        range.touches(p) ==> {
            &&& second.contains_key(p.shifted(d)) <==> first.contains_key(p)
            &&& first.contains_key(p) ==> {
                &&& second[p.shifted(d)] == moved_points(first[p], d)
                &&& are_cells_of(range, first[p])
            }
        }
}

proof fn lemma_moved_append(
    first: Map<Point, Seq<Point>>,
    second: Map<Point, Seq<Point>>,
    range: RangeZYX,
    d: Vector,
    p: Point,
    cell: Point,
)
    requires
        can_move(range, d),
        anchors_move(first, second, range, d),
        range.touches(p),
        range.has(cell),
    ensures
        anchors_move(
            appended(first, p, cell),
            appended(second, p.shifted(d), cell.shifted(d)),
            range,
            d,
        ),
{
    let (a, b) = (appended(first, p, cell), appended(second, p.shifted(d), cell.shifted(d)));
    assert forall|q: Point| #[trigger] range.touches(q) implies {
        &&& b.contains_key(q.shifted(d)) <==> a.contains_key(q)
        &&& a.contains_key(q) ==> {
            &&& b[q.shifted(d)] == moved_points(a[q], d)
            &&& are_cells_of(range, a[q])
        }
    } by {
        if q == p {
            if first.contains_key(p) {
                assert(moved_points(first[p].push(cell), d) =~= moved_points(first[p], d).push(
                    cell.shifted(d),
                ));
            } else {
                assert(moved_points(seq![cell], d) =~= seq![cell.shifted(d)]);
            }
        } else {
            assert(q.shifted(d) != p.shifted(d));
        }
    }
}

proof fn lemma_moved_marks(
    first: Map<Point, Seq<Point>>,
    second: Map<Point, Seq<Point>>,
    range: RangeZYX,
    d: Vector,
    cell: Point,
    significant: bool,
    inside: spec_fn(Point) -> bool,
    moved_inside: spec_fn(Point) -> bool,
    k: nat,
)
    requires
        can_move(range, d),
        anchors_move(first, second, range, d),
        range.has(cell),
        k <= 8,
        forall|p: Point| range.touches(p) ==> moved_inside(p.shifted(d)) == #[trigger] inside(p),
    ensures
        anchors_move(
            marked_corners(first, cell, significant, inside, k),
            marked_corners(second, cell.shifted(d), significant, moved_inside, k),
            range,
            d,
        ),
    decreases k,
{
    if k > 0 {
        lemma_moved_marks(
            first,
            second,
            range,
            d,
            cell,
            significant,
            inside,
            moved_inside,
            (k - 1) as nat,
        );
        lemma_moved_corner(range, cell, d, k - 1);
        let p = corner(cell, k - 1);
        assert(moved_inside(p.shifted(d)) == inside(p));
        lemma_moved_append(
            marked_corners(first, cell, significant, inside, (k - 1) as nat),
            marked_corners(second, cell.shifted(d), significant, moved_inside, (k - 1) as nat),
            range,
            d,
            p,
            cell,
        );
    }
}

/// The significant corners of moved leaves are the moved ones, with moved anchors.
proof fn lemma_moved_anchors(
    leaves: Seq<SvoLeaf<Voxel>>,
    range: RangeZYX,
    d: Vector,
    inside: spec_fn(Point) -> bool,
    moved_inside: spec_fn(Point) -> bool,
    n: nat,
)
    requires
        can_move(range, d),
        n <= leaves.len(),
        forall|i: int|
            0 <= i < leaves.len() ==> may_be_node(range, (#[trigger] leaves[i]).range),
        forall|p: Point| range.touches(p) ==> moved_inside(p.shifted(d)) == #[trigger] inside(p),
    ensures
        anchors_move(
            significant_anchors(leaves, inside, n),
            significant_anchors(moved_leaves(leaves, d), moved_inside, n),
            range,
            d,
        ),
    decreases n,
{
    if n > 0 {
        lemma_moved_anchors(leaves, range, d, inside, moved_inside, (n - 1) as nat);
        let l = leaves[n - 1];
        assert(moved_leaves(leaves, d)[n - 1] == moved_leaf(l, d));
        if let Voxel::Boundry(significant) = l.value {
            assert(range.has(l.range.origin));
            lemma_moved_marks(
                significant_anchors(leaves, inside, (n - 1) as nat),
                significant_anchors(moved_leaves(leaves, d), moved_inside, (n - 1) as nat),
                range,
                d,
                l.range.origin,
                significant,
                inside,
                moved_inside,
                8,
            );
        }
    }
}

/// The vertices of moved leaves are the moved ones, where nothing is smoothed.
proof fn lemma_moved_vertices<N, P, T>(
    leaves: Seq<SvoLeaf<Voxel>>,
    range: RangeZYX,
    d: Vector,
    first: Answers<N, P, T>,
    second: Answers<N, P, T>,
    p: Point,
)
    requires
        can_move(range, d),
        answers_move(first, second, range, d),
        forall|i: int|
            0 <= i < leaves.len() ==> may_be_node(range, (#[trigger] leaves[i]).range),
        range.touches(p),
    ensures
        ({
            let v = extracted(leaves, 0, first);
            let w = extracted(moved_leaves(leaves, d), 0, second);
            &&& w.contains_key(p.shifted(d)) <==> v.contains_key(p)
            &&& v.contains_key(p) ==> w[p.shifted(d)] == v[p]
        }),
{
    let n = leaves.len();
    let a = significant_anchors(leaves, first.corner_inside, n);
    let b = significant_anchors(moved_leaves(leaves, d), second.corner_inside, n);
    lemma_moved_anchors(leaves, range, d, first.corner_inside, second.corner_inside, n);
    assert(range.touches(p));
    let v = significant_vertices(a, 0, first);
    let w = significant_vertices(b, 0, second);
    assert(extracted(leaves, 0, first) == v);
    assert(extracted(moved_leaves(leaves, d), 0, second) == w);
    if a.contains_key(p) {
        assert((second.facet)(p.shifted(d), moved_points(a[p], d)) == (first.facet)(p, a[p]));
        assert(snapped_corner(p.shifted(d), b[p.shifted(d)], second) == snapped_corner(
            p,
            a[p],
            first,
        ));
    }
}

/// What moved leaves set at a moved vertex, the leaves set where it comes from.
proof fn lemma_moved_areas(
    leaves: Seq<SvoLeaf<Voxel>>,
    range: RangeZYX,
    d: Vector,
    smooth: u32,
    p: Point,
)
    requires
        can_move(range, d),
        forall|i: int|
            0 <= i < leaves.len() ==> may_be_node(range, (#[trigger] leaves[i]).range),
        range.touches(p),
    ensures
        has_material(moved_leaves(leaves, d), smooth, p.shifted(d), leaves.len() as int)
            <==> has_material(leaves, smooth, p, leaves.len() as int),
        has_position(moved_leaves(leaves, d), p.shifted(d), leaves.len() as int)
            <==> has_position(leaves, p, leaves.len() as int),
{
    let moved = moved_leaves(leaves, d);
    let q = p.shifted(d);
    assert forall|i: int| 0 <= i < leaves.len() implies {
        &&& (#[trigger] moved[i]).value == leaves[i].value
        &&& material_area(moved[i].range).has(q) <==> material_area(leaves[i].range).has(p)
        &&& position_area(moved[i].range).has(q) <==> position_area(leaves[i].range).has(p)
    } by {
        assert(moved[i] == moved_leaf(leaves[i], d));
        assert(may_be_node(range, leaves[i].range));
    }
    let n = leaves.len() as int;
    if has_material(leaves, smooth, p, n) {
        let i = choose|i: int|
            0 <= i < n && gets_material((#[trigger] leaves[i]).value, smooth) && material_area(
                leaves[i].range,
            ).has(p);
        assert(gets_material(moved[i].value, smooth) && material_area(moved[i].range).has(q));
    }
    if has_material(moved, smooth, q, n) {
        let i = choose|i: int|
            0 <= i < n && gets_material((#[trigger] moved[i]).value, smooth) && material_area(
                moved[i].range,
            ).has(q);
        assert(gets_material(leaves[i].value, smooth) && material_area(leaves[i].range).has(p));
    }
    if has_position(leaves, p, n) {
        let i = choose|i: int|
            0 <= i < n && (#[trigger] leaves[i]).value != Voxel::External && position_area(
                leaves[i].range,
            ).has(p);
        assert(moved[i].value != Voxel::External && position_area(moved[i].range).has(q));
    }
    if has_position(moved, q, n) {
        let i = choose|i: int|
            0 <= i < n && (#[trigger] moved[i]).value != Voxel::External && position_area(
                moved[i].range,
            ).has(q);
        assert(leaves[i].value != Voxel::External && position_area(leaves[i].range).has(p));
    }
}

/// `second` holds the data of `first`, moved by `d`: the same materials, and at the moved vertices
/// what `first` has where they come from. Neither has anything outside of its bounds.
pub open spec fn data_moves(first: VoxelCellData, second: VoxelCellData, d: Vector) -> bool {
    let (a, b) = (first.grid, second.grid);
    &&& b.bounds() == moved_range(a.bounds(), d)
    &&& b.inner_bounds() == moved_range(a.inner_bounds(), d)
    &&& forall|p: Point| #[trigger]
        a.bounds().has(p) ==> {
            let q = p.shifted(d);
            &&& b.bounds().has(q)
            &&& b.materials().contains_key(q) <==> a.materials().contains_key(p)
            &&& a.materials().contains_key(p) ==> b.materials()[q] == a.materials()[p]
            &&& b.voxels().contains_key(q) <==> a.voxels().contains_key(p)
            &&& a.voxels().contains_key(p) ==> b.voxels()[q] == a.voxels()[p]
        }
    &&& forall|p: Point|
        #![trigger a.materials().contains_key(p)]
        #![trigger a.voxels().contains_key(p)]
        a.materials().contains_key(p) || a.voxels().contains_key(p) ==> a.bounds().has(p)
    &&& forall|p: Point|
        #![trigger b.materials().contains_key(p)]
        #![trigger b.voxels().contains_key(p)]
        b.materials().contains_key(p) || b.voxels().contains_key(p) ==> b.bounds().has(p)
    &&& first.mapping@.dom() == second.mapping@.dom()
    &&& forall|k: u8| #[trigger]
        first.mapping@.contains_key(k) ==> second.mapping@[k].id == first.mapping@[k].id
            && second.mapping@[k].short_name@ == first.mapping@[k].short_name@
}

/// The origin of a chunk only labels its cells: where the surface answers alike around a moved
/// chunk, its data are those of the chunk, moved. This is stated without smoothing.
pub proof fn chunks_move_with_their_origin<N, P, T>(
    o: Point,
    d: Vector,
    material: u64,
    is_lod: bool,
    first: Answers<N, P, T>,
    second: Answers<N, P, T>,
    r: Option<VoxelCellData>,
    s: Option<VoxelCellData>,
)
    requires
        chunk_fits(o),
        o.can_shift(d),
        chunk_fits(o.shifted(d)),
        answers_move(first, second, cube(tree_origin(o), TREE_SIZE as int), d),
        is_chunk_data(o, material, is_lod, 0, first, r),
        is_chunk_data(o.shifted(d), material, is_lod, 0, second, s),
    ensures
        r is Some <==> s is Some,
        r is Some ==> data_moves(r->Some_0, s->Some_0, d),
{
    let root = cube(tree_origin(o), TREE_SIZE as int);
    let clip = grid_range(o);
    let w = o.shifted(d);
    assert(power_of_two(64)) by {
        reveal_with_fuel(power_of_two, 8);
    }
    assert(can_move(root, d));
    assert(cube(tree_origin(w), TREE_SIZE as int) == moved_range(root, d));
    assert(grid_range(w) == moved_range(clip, d));
    let g = |b: RangeZYX| classification(b, clip, first.intersects, first.sample_inside);
    let h = |b: RangeZYX|
        classification(b, grid_range(w), second.intersects, second.sample_inside);
    assert forall|c: RangeZYX| may_be_node(root, c) implies h(moved_range(c, d))
        == #[trigger] g(c) by {
        lemma_moved_classification(first, second, root, clip, d, c);
    }
    lemma_moved_leaves(root, root, d, g, h);
    let leaves = chunk_leaves(o, first);
    let moved = chunk_leaves(w, second);
    assert(leaves == leaves_by(root, g));
    assert(moved == leaves_by(moved_range(root, d), h));
    assert(moved == moved_leaves(leaves, d));
    assert(all_external(moved) <==> all_external(leaves)) by {
        assert forall|i: int| 0 <= i < leaves.len() implies (#[trigger] moved[i]).value
            == leaves[i].value by {}
        if all_external(moved) {
            assert forall|i: int| 0 <= i < leaves.len() implies (#[trigger] leaves[i]).value
                == Voxel::External by {
                assert(moved[i].value == leaves[i].value);
            }
        }
    }
    if let (Some(x), Some(y)) = (r, s) {
        let (a, b) = (x.grid, y.grid);
        assert forall|p: Point| #[trigger] a.bounds().has(p) implies {
            let q = p.shifted(d);
            &&& b.bounds().has(q)
            &&& b.materials().contains_key(q) <==> a.materials().contains_key(p)
            &&& a.materials().contains_key(p) ==> b.materials()[q] == a.materials()[p]
            &&& b.voxels().contains_key(q) <==> a.voxels().contains_key(p)
            &&& a.voxels().contains_key(p) ==> b.voxels()[q] == a.voxels()[p]
        } by {
            lemma_moved_areas(leaves, root, d, 0, p);
            lemma_moved_vertices(leaves, root, d, first, second, p);
        }
    }
}

} // verus!
