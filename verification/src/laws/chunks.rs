//! The grid of a chunk, cell by cell.
use crate::chunk::{
    chunk_fits, chunk_leaves, gets_material, grid_range, has_material, has_position,
    is_chunk_data, leaf_materials, leaf_positions, material_area, position_area, tree_origin,
    with_vertices,
};
use crate::geometry::{Point, RangeZYX};
use crate::grid::{painted, VertexVoxel, VoxelCellData};
use crate::laws::classes::lemma_leaf_is_node;
use crate::offset::Vertices;
use crate::surface::Answers;
use crate::svo::{cube, may_be_node, power_of_two, SvoLeaf};
use crate::vertices::extracted;
use crate::voxel::{classified_leaves, Voxel};
use vstd::prelude::*;

verus! {

/// The cell one step below `p` along each axis.
pub open spec fn cell_below(p: Point) -> Point {
    Point { x: (p.x - 1) as i32, y: (p.y - 1) as i32, z: (p.z - 1) as i32 }
}

/// There is such a cell on the grid.
pub open spec fn has_cell_below(p: Point) -> bool {
    p.x > i32::MIN && p.y > i32::MIN && p.z > i32::MIN
}

/// The cell has a material: it lies inside, or it is a boundary cell whose center does; with
/// smoothing every boundary cell has one.
pub open spec fn is_solid_cell(leaves: Seq<SvoLeaf<Voxel>>, smooth: u32, cell: Point) -> bool {
    exists|i: int|
        {
            &&& 0 <= i < leaves.len()
            &&& (#[trigger] leaves[i]).range.has(cell)
            &&& leaves[i].value == Voxel::Internal || leaves[i].value == Voxel::Boundry(true) || (
            smooth >= 1 && leaves[i].value == Voxel::Boundry(false))
        }
}

/// `p` lies around a cell that is not external.
pub open spec fn is_around_cell(leaves: Seq<SvoLeaf<Voxel>>, p: Point) -> bool {
    exists|i: int, cell: Point|
        {
            &&& 0 <= i < leaves.len()
            &&& #[trigger] leaves[i].range.has(cell)
            &&& leaves[i].value == Voxel::Internal || leaves[i].value == Voxel::Boundry(true)
                || leaves[i].value == Voxel::Boundry(false)
            &&& cell.x <= p.x <= cell.x + 1
            &&& cell.y <= p.y <= cell.y + 1
            &&& cell.z <= p.z <= cell.z + 1
        }
}

/// All leaves are cubes that an octree can have.
pub open spec fn are_nodes(leaves: Seq<SvoLeaf<Voxel>>) -> bool {
    forall|i: int|
        0 <= i < leaves.len() ==> may_be_node((#[trigger] leaves[i]).range, leaves[i].range)
}

/// A vertex of the grid has the material of the chunk, with the index two, exactly if the cell one
/// step below it along each axis is solid.
pub proof fn materials_lie_above_solid_cells(
    range: RangeZYX,
    leaves: Seq<SvoLeaf<Voxel>>,
    smooth: u32,
    p: Point,
)
    requires
        are_nodes(leaves),
    ensures
        ({
            let m = leaf_materials(range, leaves, smooth, leaves.len() as int);
            &&& m.contains_key(p) <==> range.has(p) && has_cell_below(p) && is_solid_cell(
                leaves,
                smooth,
                cell_below(p),
            )
            &&& m.contains_key(p) ==> m[p].material == 2
        }),
{
    let n = leaves.len() as int;
    let cell = cell_below(p);
    assert forall|i: int| 0 <= i < n implies (material_area((#[trigger] leaves[i]).range).has(p)
        <==> has_cell_below(p) && leaves[i].range.has(cell)) by {
        assert(may_be_node(leaves[i].range, leaves[i].range));
    }
    if has_material(leaves, smooth, p, n) {
        let i = choose|i: int|
            0 <= i < n && gets_material((#[trigger] leaves[i]).value, smooth) && material_area(
                leaves[i].range,
            ).has(p);
        assert(leaves[i].range.has(cell));
    }
    if has_cell_below(p) && is_solid_cell(leaves, smooth, cell) {
        let i = choose|i: int|
            {
                &&& 0 <= i < leaves.len()
                &&& (#[trigger] leaves[i]).range.has(cell)
                &&& leaves[i].value == Voxel::Internal || leaves[i].value == Voxel::Boundry(true)
                    || (smooth >= 1 && leaves[i].value == Voxel::Boundry(false))
            };
        assert(gets_material(leaves[i].value, smooth) && material_area(leaves[i].range).has(p));
    }
}

/// A vertex of the grid gets a position from the cells around it exactly if one of these is not
/// external, and rests on its grid corner then, which is encoded as 126 along each axis.
pub proof fn positions_lie_around_cells(range: RangeZYX, leaves: Seq<SvoLeaf<Voxel>>, p: Point)
    requires
        are_nodes(leaves),
    ensures
        ({
            let m = leaf_positions(range, leaves, leaves.len() as int);
            &&& m.contains_key(p) <==> range.has(p) && is_around_cell(leaves, p)
            &&& m.contains_key(p) ==> m[p].position.x == 126 && m[p].position.y == 126
                && m[p].position.z == 126
        }),
{
    let n = leaves.len() as int;
    if has_position(leaves, p, n) {
        let i = choose|i: int|
            0 <= i < n && (#[trigger] leaves[i]).value != Voxel::External && position_area(
                leaves[i].range,
            ).has(p);
        let b = leaves[i].range;
        assert(may_be_node(b, b));
        let cell = Point {
            x: (if p.x < b.origin.x + b.size.x { p.x as int } else { p.x - 1 }) as i32,
            y: (if p.y < b.origin.y + b.size.y { p.y as int } else { p.y - 1 }) as i32,
            z: (if p.z < b.origin.z + b.size.z { p.z as int } else { p.z - 1 }) as i32,
        };
        assert(leaves[i].range.has(cell));
    }
    if is_around_cell(leaves, p) {
        let (i, cell) = choose|i: int, cell: Point|
            {
                &&& 0 <= i < leaves.len()
                &&& #[trigger] leaves[i].range.has(cell)
                &&& leaves[i].value == Voxel::Internal || leaves[i].value == Voxel::Boundry(true)
                    || leaves[i].value == Voxel::Boundry(false)
                &&& cell.x <= p.x <= cell.x + 1
                &&& cell.y <= p.y <= cell.y + 1
                &&& cell.z <= p.z <= cell.z + 1
            };
        assert(may_be_node(leaves[i].range, leaves[i].range));
        assert(leaves[i].value != Voxel::External && position_area(leaves[i].range).has(p));
    }
}

/// The octree of a chunk: a cube of 64 cells along each side, two below the chunk, clipped to the
/// grid. The leaves are those of its classification.
pub proof fn chunks_are_classified_with_a_margin<N, P, T>(o: Point, answers: Answers<N, P, T>)
    requires
        chunk_fits(o),
    ensures
        i32::MIN + 2 <= o.x <= i32::MAX - 62,
        forall|p: Point| #[trigger]
            grid_range(o).has(p) <==> o.x - 1 <= p.x < o.x + 34 && o.y - 1 <= p.y < o.y + 34 && o.z
                - 1 <= p.z < o.z + 34,
        tree_origin(o).x == o.x - 2 && tree_origin(o).y == o.y - 2 && tree_origin(o).z == o.z - 2,
        chunk_leaves(o, answers) == classified_leaves(
            tree_origin(o),
            64,
            grid_range(o),
            answers.intersects,
            answers.sample_inside,
        ),
        are_nodes(chunk_leaves(o, answers)),
{
    let leaves = chunk_leaves(o, answers);
    lemma_tree(o);
    assert forall|i: int| 0 <= i < leaves.len() implies may_be_node(
        (#[trigger] leaves[i]).range,
        leaves[i].range,
    ) by {
        lemma_leaf_is_node(
            tree_origin(o),
            64,
            grid_range(o),
            answers.intersects,
            answers.sample_inside,
            i,
        );
    }
}

proof fn lemma_tree(o: Point)
    requires
        chunk_fits(o),
    ensures
        may_be_node(cube(tree_origin(o), 64), cube(tree_origin(o), 64)),
        grid_range(o).valid(),
{
    assert(power_of_two(64)) by {
        reveal_with_fuel(power_of_two, 8);
    }
}

/// The data of a chunk. A chunk of the finest level has none exactly if all of its leaves are
/// external. The grid reaches from one cell below the chunk to two above it. A vertex of it has
/// the material with the index two exactly if the cell one step below it is solid. It has a
/// position if a cell around it is not external or if it is a vertex that was placed; that one is
/// where it was placed, and the others rest. The materials are the debug one and that of the chunk.
pub proof fn chunks_hold_what_their_cells_say<N, P, T>(
    o: Point,
    material: u64,
    is_lod: bool,
    smooth: u32,
    answers: Answers<N, P, T>,
    r: Option<VoxelCellData>,
    p: Point,
)
    requires
        chunk_fits(o),
        is_chunk_data(o, material, is_lod, smooth, answers, r),
    ensures
        ({
            let leaves = chunk_leaves(o, answers);
            let placed = extracted(leaves, smooth, answers);
            let in_grid = o.x - 1 <= p.x < o.x + 34 && o.y - 1 <= p.y < o.y + 34 && o.z - 1 <= p.z
                < o.z + 34;
            &&& r is None <==> !is_lod && (forall|i: int|
                0 <= i < leaves.len() ==> (#[trigger] leaves[i]).value == Voxel::External)
            &&& r matches Some(d) ==> {
                let (m, v, k) = (d.grid.materials(), d.grid.voxels(), d.mapping@);
                &&& d.grid.bounds().has(p) <==> in_grid
                &&& d.grid.inner_bounds().has(p) <==> o.x <= p.x < o.x + 32 && o.y <= p.y < o.y + 32
                    && o.z <= p.z < o.z + 32
                &&& m.contains_key(p) <==> in_grid && is_solid_cell(leaves, smooth, cell_below(p))
                &&& m.contains_key(p) ==> m[p].material == 2
                &&& v.contains_key(p) <==> in_grid && (is_around_cell(leaves, p)
                    || placed.contains_key(p))
                &&& v.contains_key(p) && placed.contains_key(p) ==> v[p].position == placed[p]
                &&& v.contains_key(p) && !placed.contains_key(p) ==> v[p].position.x == 126
                    && v[p].position.y == 126 && v[p].position.z == 126
                &&& forall|j: u8| #[trigger] k.contains_key(j) <==> j == 1 || j == 2
                &&& k[1].id == 157903047 && k[1].short_name@ == "Debug1\0\0"@
                &&& k[2].id == material && k[2].short_name@ == "Material"@
            }
        }),
{
    let leaves = chunk_leaves(o, answers);
    chunks_are_classified_with_a_margin(o, answers);
    positions_lie_around_cells(grid_range(o), leaves, p);
    if grid_range(o).has(p) {
        materials_lie_above_solid_cells(grid_range(o), leaves, smooth, p);
    }
    if let Some(d) = r {
        assert forall|j: u8| #[trigger] d.mapping@.contains_key(j) <==> j == 1 || j == 2 by {
            assert(d.mapping@.dom().contains(j) <==> set![1u8, 2u8].contains(j));
        }
    }
}

/// Placed vertices lie where they were placed, as far as they lie in the range; all others stay.
pub proof fn placed_vertices_replace_resting_ones(
    m: Map<Point, VertexVoxel>,
    range: RangeZYX,
    v: Vertices,
    p: Point,
)
    requires
        forall|q: Point| #[trigger] m.contains_key(q) ==> range.has(q),
    ensures
        ({
            let w = with_vertices(m, range, v);
            &&& range.has(p) && v.contains_key(p) ==> w.contains_key(p) && w[p].position == v[p]
            &&& !v.contains_key(p) ==> (w.contains_key(p) <==> m.contains_key(p)) && (
            m.contains_key(p) ==> w[p] == m[p])
            &&& !range.has(p) ==> !w.contains_key(p)
        }),
{
}

/// What is set last counts: a second value for an area replaces the first one there, and the rest
/// stays as it was.
pub proof fn later_values_win<V>(m: Map<Point, V>, a: RangeZYX, u: V, v: V, p: Point)
    ensures
        painted(painted(m, a, u), a, v) == painted(m, a, v),
        a.has(p) ==> painted(m, a, v).contains_key(p) && painted(m, a, v)[p] == v,
        !a.has(p) ==> (painted(m, a, v).contains_key(p) <==> m.contains_key(p)) && (m.contains_key(
            p,
        ) ==> painted(m, a, v)[p] == m[p]),
{
    assert(painted(painted(m, a, u), a, v) =~= painted(m, a, v));
}

} // verus!
