//! Voxelizing one chunk.
use crate::geometry::{Point, RangeZYX, Vector};
use crate::grid::{
    painted, MaterialId, MaterialMapper, VertexGrid, VertexMaterial, VertexVoxel, VoxelCellData,
};
use crate::neighbors::Neighborhood;
use crate::offset::{is_roomy, Displacement, Encoded, Vertices};
use crate::point_map::PointMap;
use crate::probe::{agrees1, agrees2};
use crate::scalar::{Scalar, REST};
use crate::snap::{Facet, LatticePoint, SnapTarget};
use crate::surface::{Answers, Surface};
use crate::svo::{cube, lemma_leaves_are_nodes, may_be_node, power_of_two, Svo, SvoLeaf};
use crate::vertices::{extracted, is_roomy_for, searchable, vertices_need_a_boundary};
use crate::voxel::{
    can_classify, classified_leaves, inside_count, voxelize, well_classified_leaf, Voxel,
    QUORUM, SAMPLES,
};
use vstd::prelude::*;

verus! {

/// The cells along one side of a chunk.
pub const CHUNK_SIZE: i32 = 32;

/// The vertices along one side of the grid of a chunk: one cell more on the low side, and two on
/// the high side, likely to remove seams when the mesh is generated.
pub const GRID_SIZE: i32 = 35;

/// The side of the octree of a chunk, the next power of two.
pub const TREE_SIZE: usize = 64;

/// The index of the debug material.
pub const DEBUG_INDEX: u8 = 1;

/// The id of the debug material. Every blueprint that was looked at has it in the first index.
pub const DEBUG_ID: u64 = 157903047;

/// The index of the material of the chunk.
pub const MATERIAL_INDEX: u8 = 2;

/// The point `d` below `p` along each axis.
pub open spec fn lowered(p: Point, d: int) -> Point {
    Point { x: (p.x - d) as i32, y: (p.y - d) as i32, z: (p.z - d) as i32 }
}

/// The vertices of the grid of the chunk at `o`.
pub open spec fn grid_range(o: Point) -> RangeZYX {
    cube(lowered(o, 1), GRID_SIZE as int)
}

/// The lowest corner of the octree of the chunk at `o`.
pub open spec fn tree_origin(o: Point) -> Point {
    lowered(o, 2)
}

/// The octree of the chunk at `o` lies within the grid coordinates.
pub open spec fn chunk_fits(o: Point) -> bool {
    &&& i32::MIN + 2 <= o.x <= i32::MAX - 62
    &&& i32::MIN + 2 <= o.y <= i32::MAX - 62
    &&& i32::MIN + 2 <= o.z <= i32::MAX - 62
}

/// The leaves of the octree of the chunk at `o`.
pub open spec fn chunk_leaves<N, P, T>(o: Point, answers: Answers<N, P, T>) -> Seq<SvoLeaf<Voxel>> {
    classified_leaves(
        tree_origin(o),
        TREE_SIZE as int,
        grid_range(o),
        answers.intersects,
        answers.sample_inside,
    )
}

/// Whether a box of cells gets a material. With smoothing, all boundary cells do.
pub open spec fn gets_material(v: Voxel, smooth: u32) -> bool {
    match v {
        Voxel::External => false,
        Voxel::Internal => true,
        Voxel::Boundry(significant) => smooth >= 1 || significant,
    }
}

/// The vertices that carry the material of the cells of `b`: the far corner of each.
pub open spec fn material_area(b: RangeZYX) -> RangeZYX {
    RangeZYX { origin: b.origin.shifted(Vector { x: 1, y: 1, z: 1 }), size: b.size }
}

/// The vertices of the cells of `b`.
pub open spec fn position_area(b: RangeZYX) -> RangeZYX {
    RangeZYX {
        origin: b.origin,
        size: Vector {
            x: (b.size.x + 1) as i32,
            y: (b.size.y + 1) as i32,
            z: (b.size.z + 1) as i32,
        },
    }
}

/// One of the first `n` leaves gives the vertex `p` a material.
pub open spec fn has_material(leaves: Seq<SvoLeaf<Voxel>>, smooth: u32, p: Point, n: int) -> bool {
    exists|i: int|
        0 <= i < n && gets_material((#[trigger] leaves[i]).value, smooth) && material_area(
            leaves[i].range,
        ).has(p)
}

/// `p` is a vertex of a cell of the first `n` leaves that is not external.
pub open spec fn has_position(leaves: Seq<SvoLeaf<Voxel>>, p: Point, n: int) -> bool {
    exists|i: int|
        0 <= i < n && (#[trigger] leaves[i]).value != Voxel::External && position_area(
            leaves[i].range,
        ).has(p)
}

/// The materials that the first `n` leaves give to the vertices of `range`.
pub open spec fn leaf_materials(
    range: RangeZYX,
    leaves: Seq<SvoLeaf<Voxel>>,
    smooth: u32,
    n: int,
) -> Map<Point, VertexMaterial> {
    Map::new(
        |p: Point| range.has(p) && has_material(leaves, smooth, p, n),
        |p: Point| VertexMaterial { material: MATERIAL_INDEX },
    )
}

/// The position of a vertex that rests on its grid corner.
pub open spec fn at_rest() -> VertexVoxel {
    VertexVoxel { position: Encoded { x: REST, y: REST, z: REST } }
}

/// The positions that the first `n` leaves give to the vertices of `range`.
pub open spec fn leaf_positions(
    range: RangeZYX,
    leaves: Seq<SvoLeaf<Voxel>>,
    n: int,
) -> Map<Point, VertexVoxel> {
    Map::new(|p: Point| range.has(p) && has_position(leaves, p, n), |p: Point| at_rest())
}

/// The positions, with those of the vertices in `range` that do not rest on their grid corners.
pub open spec fn with_vertices(
    m: Map<Point, VertexVoxel>,
    range: RangeZYX,
    v: Vertices,
) -> Map<Point, VertexVoxel> {
    Map::new(
        |p: Point| m.contains_key(p) || (range.has(p) && v.contains_key(p)),
        |p: Point|
            if v.contains_key(p) {
                VertexVoxel { position: v[p] }
            } else {
                m[p]
            },
    )
}

/// All leaves are external.
pub open spec fn all_external(leaves: Seq<SvoLeaf<Voxel>>) -> bool {
    forall|i: int| 0 <= i < leaves.len() ==> (#[trigger] leaves[i]).value == Voxel::External
}

/// The materials of a chunk: the debug one and its own.
pub open spec fn maps_chunk_materials(m: Map<u8, MaterialId>, material: u64) -> bool {
    &&& m.dom() == set![DEBUG_INDEX, MATERIAL_INDEX]
    &&& m[DEBUG_INDEX].id == DEBUG_ID
    &&& m[DEBUG_INDEX].short_name@ == "Debug1\0\0"@
    &&& m[MATERIAL_INDEX].id == material
    &&& m[MATERIAL_INDEX].short_name@ == "Material"@
}

/// The data of the chunk at `o`, where the surface answers as `answers` does. There is none if the
/// chunk is of the finest level and all of its leaves are external.
pub open spec fn is_chunk_data<N, P, T>(
    o: Point,
    material: u64,
    is_lod: bool,
    smooth: u32,
    answers: Answers<N, P, T>,
    r: Option<VoxelCellData>,
) -> bool {
    let leaves = chunk_leaves(o, answers);
    let n = leaves.len() as int;
    let range = grid_range(o);
    &&& r is None <==> !is_lod && all_external(leaves)
    &&& r matches Some(d) ==> {
        &&& d.grid.bounds() == range
        &&& d.grid.inner_bounds() == cube(o, CHUNK_SIZE as int)
        &&& d.grid.materials() == leaf_materials(range, leaves, smooth, n)
        &&& d.grid.voxels() == with_vertices(
            leaf_positions(range, leaves, n),
            range,
            extracted(leaves, smooth, answers),
        )
        &&& maps_chunk_materials(d.mapping@, material)
    }
}

/// Sets the materials and the rest positions of the cells of the octree.
pub fn fill_grid(grid: &mut VertexGrid, voxels: &Svo<Voxel>, smooth: u32)
    requires
        old(grid).wf(),
        voxels.wf(),
        old(grid).materials() == Map::<Point, VertexMaterial>::empty(),
        old(grid).voxels() == Map::<Point, VertexVoxel>::empty(),
    ensures
        final(grid).wf(),
        final(grid).bounds() == old(grid).bounds(),
        final(grid).inner_bounds() == old(grid).inner_bounds(),
        final(grid).materials() == leaf_materials(
            old(grid).bounds(),
            voxels.leaf_seq(),
            smooth,
            voxels.leaf_seq().len() as int,
        ),
        final(grid).voxels() == leaf_positions(
            old(grid).bounds(),
            voxels.leaf_seq(),
            voxels.leaf_seq().len() as int,
        ),
{
    let ghost range = grid.bounds();
    let ghost inner = grid.inner_bounds();
    let leaves: Vec<SvoLeaf<Voxel>> = voxels.leaves();
    let mut i: usize = 0;
    proof {
        grid.lemma_within_bounds(range.origin);
        assert(grid.materials() =~= leaf_materials(range, leaves@, smooth, 0));
        assert(grid.voxels() =~= leaf_positions(range, leaves@, 0));
    }
    while i < leaves.len()
        invariant
            i <= leaves@.len(),
            leaves@ == voxels.leaf_seq(),
            voxels.wf(),
            grid.wf(),
            range.fits(),
            grid.bounds() == range,
            grid.inner_bounds() == inner,
            grid.materials() == leaf_materials(range, leaves@, smooth, i as int),
            grid.voxels() == leaf_positions(range, leaves@, i as int),
        decreases leaves@.len() - i,
    {
        let leaf: &SvoLeaf<Voxel> = &leaves[i];
        let b: RangeZYX = leaf.range;
        proof {
            lemma_leaves_are_nodes(*voxels, i as int);
        }
        let (place_materials, place_positions): (bool, bool) = match leaf.value {
            Voxel::External => (false, false),
            Voxel::Internal => (true, true),
            Voxel::Boundry(significant) => (smooth >= 1 || significant, true),
        };
        if place_materials {
            let area: RangeZYX = RangeZYX {
                origin: b.origin.shift(Vector::repeat(1)),
                size: b.size,
            };
            grid.set_materials(&area, VertexMaterial::new(MATERIAL_INDEX));
        }
        if place_positions {
            let area: RangeZYX = RangeZYX {
                origin: b.origin,
                size: Vector { x: b.size.x + 1, y: b.size.y + 1, z: b.size.z + 1 },
            };
            grid.set_voxels(
                &area,
                VertexVoxel::new(Encoded { x: REST, y: REST, z: REST }),
            );
        }
        proof {
            lemma_next_leaf(range, leaves@, smooth, i as int);
        }
        i = i + 1;
    }
}

/// One more leaf sets the vertices of its areas.
proof fn lemma_next_leaf(range: RangeZYX, leaves: Seq<SvoLeaf<Voxel>>, smooth: u32, i: int)
    requires
        range.fits(),
        0 <= i < leaves.len(),
        may_be_node(leaves[i].range, leaves[i].range),
    ensures
        leaf_materials(range, leaves, smooth, i + 1) == if gets_material(leaves[i].value, smooth) {
            painted(
                leaf_materials(range, leaves, smooth, i),
                range.overlap_with(material_area(leaves[i].range)),
                VertexMaterial { material: MATERIAL_INDEX },
            )
        } else {
            leaf_materials(range, leaves, smooth, i)
        },
        leaf_positions(range, leaves, i + 1) == if leaves[i].value != Voxel::External {
            painted(
                leaf_positions(range, leaves, i),
                range.overlap_with(position_area(leaves[i].range)),
                at_rest(),
            )
        } else {
            leaf_positions(range, leaves, i)
        },
{
    let b = leaves[i].range;
    let ma = range.overlap_with(material_area(b));
    let pa = range.overlap_with(position_area(b));
    assert forall|p: Point| #[trigger] ma.has(p) <==> range.has(p) && material_area(b).has(p) by {}
    assert forall|p: Point| #[trigger] pa.has(p) <==> range.has(p) && position_area(b).has(p) by {}
    assert forall|p: Point| #[trigger]
        has_material(leaves, smooth, p, i + 1) <==> has_material(leaves, smooth, p, i) || (
    gets_material(leaves[i].value, smooth) && material_area(b).has(p)) by {
        if has_material(leaves, smooth, p, i) {
            let j = choose|j: int|
                0 <= j < i && gets_material((#[trigger] leaves[j]).value, smooth) && material_area(
                    leaves[j].range,
                ).has(p);
            assert(0 <= j < i + 1 && gets_material(leaves[j].value, smooth));
        }
        if gets_material(leaves[i].value, smooth) && material_area(b).has(p) {
            assert(material_area(leaves[i].range).has(p));
        }
    }
    assert forall|p: Point| #[trigger]
        has_position(leaves, p, i + 1) <==> has_position(leaves, p, i) || (leaves[i].value
        != Voxel::External && position_area(b).has(p)) by {
        if has_position(leaves, p, i) {
            let j = choose|j: int|
                0 <= j < i && (#[trigger] leaves[j]).value != Voxel::External && position_area(
                    leaves[j].range,
                ).has(p);
            assert(0 <= j < i + 1 && leaves[j].value != Voxel::External);
        }
        if leaves[i].value != Voxel::External && position_area(b).has(p) {
            assert(position_area(leaves[i].range).has(p));
        }
    }
    if gets_material(leaves[i].value, smooth) {
        assert(leaf_materials(range, leaves, smooth, i + 1) =~= painted(
            leaf_materials(range, leaves, smooth, i),
            ma,
            VertexMaterial { material: MATERIAL_INDEX },
        ));
    } else {
        assert(leaf_materials(range, leaves, smooth, i + 1) =~= leaf_materials(
            range,
            leaves,
            smooth,
            i,
        ));
    }
    if leaves[i].value != Voxel::External {
        assert(leaf_positions(range, leaves, i + 1) =~= painted(
            leaf_positions(range, leaves, i),
            pa,
            at_rest(),
        ));
    } else {
        assert(leaf_positions(range, leaves, i + 1) =~= leaf_positions(range, leaves, i));
    }
}

/// Sets the positions of the vertices that do not rest on their grid corners.
pub fn place_vertices(grid: &mut VertexGrid, vertices: &PointMap<Encoded>)
    requires
        old(grid).wf(),
        vertices.wf(),
    ensures
        final(grid).wf(),
        final(grid).bounds() == old(grid).bounds(),
        final(grid).inner_bounds() == old(grid).inner_bounds(),
        final(grid).materials() == old(grid).materials(),
        final(grid).voxels() == with_vertices(
            old(grid).voxels(),
            old(grid).bounds(),
            vertices@,
        ),
{
    let ghost start = *grid;
    let ghost keys = vertices.keys();
    let n: usize = vertices.len();
    proof {
        vertices.lemma_keys();
    }
    let mut i: usize = 0;
    while i < n
        invariant
            i <= n,
            n == keys.len(),
            keys == vertices.keys(),
            keys.no_duplicates(),
            vertices.wf(),
            grid.wf(),
            grid.bounds() == start.bounds(),
            grid.inner_bounds() == start.inner_bounds(),
            grid.materials() == start.materials(),
            forall|p: Point| #[trigger]
                grid.voxels().contains_key(p) <==> start.voxels().contains_key(p) || (
                start.bounds().has(p) && keys.take(i as int).contains(p)),
            forall|p: Point| #[trigger]
                grid.voxels().contains_key(p) ==> grid.voxels()[p] == if keys.take(
                    i as int,
                ).contains(p) && start.bounds().has(p) {
                    VertexVoxel { position: vertices@[p] }
                } else {
                    start.voxels()[p]
                },
        decreases n - i,
    {
        let (p, e): (Point, &Encoded) = vertices.entry(i);
        grid.set_voxel(&p, VertexVoxel::new(*e));
        proof {
            let t = keys.take(i as int);
            let u = keys.take(i + 1);
            assert(u =~= t.push(p));
            assert forall|q: Point| #[trigger] u.contains(q) <==> t.contains(q) || q == p by {
                if t.contains(q) {
                    let j = choose|j: int| 0 <= j < t.len() && t[j] == q;
                    assert(u[j] == q);
                }
                assert(u[i as int] == p);
            }
        }
        i = i + 1;
    }
    proof {
        assert(keys.take(n as int) =~= keys);
        assert forall|p: Point| start.voxels().contains_key(p) implies start.bounds().has(p) by {
            start.lemma_within_bounds(p);
        }
        assert(grid.voxels() =~= with_vertices(start.voxels(), start.bounds(), vertices@));
    }
}

/// The materials of a chunk.
pub fn chunk_materials(material: u64) -> (m: MaterialMapper)
    ensures
        maps_chunk_materials(m@, material),
{
    let mut mapping: MaterialMapper = MaterialMapper::default();
    mapping.insert(
        DEBUG_INDEX,
        MaterialId { id: DEBUG_ID, short_name: "Debug1\0\0".to_string() },
    );
    mapping.insert(MATERIAL_INDEX, MaterialId { id: material, short_name: "Material".to_string() });
    assert(mapping@.dom() =~= set![DEBUG_INDEX, MATERIAL_INDEX]);
    mapping
}

/// A grid that is filled from an octree stays empty only if all leaves are external.
proof fn lemma_empty_grid(
    origin: Point,
    range: RangeZYX,
    leaves: Seq<SvoLeaf<Voxel>>,
    smooth: u32,
)
    requires
        forall|i: int|
            0 <= i < leaves.len() ==> well_classified_leaf(#[trigger] leaves[i], range)
                && cube(origin, TREE_SIZE as int).encloses(leaves[i].range)
                && leaves[i].range.valid(),
    ensures
        all_external(leaves) <==> leaf_materials(range, leaves, smooth, leaves.len() as int)
            == Map::<Point, VertexMaterial>::empty() && leaf_positions(
            range,
            leaves,
            leaves.len() as int,
        ) == Map::<Point, VertexVoxel>::empty(),
{
    let n = leaves.len() as int;
    let positions = leaf_positions(range, leaves, n);
    if all_external(leaves) {
        assert(leaf_materials(range, leaves, smooth, n) =~= Map::<Point, VertexMaterial>::empty());
        assert(positions =~= Map::<Point, VertexVoxel>::empty());
    } else {
        let i = choose|i: int| 0 <= i < n && (#[trigger] leaves[i]).value != Voxel::External;
        let b = leaves[i].range;
        assert(well_classified_leaf(leaves[i], range));
        let p = choose|p: Point| #[trigger] b.has(p) && range.has(p);
        assert(position_area(leaves[i].range).has(p));
        assert(positions.contains_key(p));
    }
}

/// A boundary leaf is a single cell of the clip range.
proof fn lemma_clipped_cell(range: RangeZYX, leaf: SvoLeaf<Voxel>)
    requires
        well_classified_leaf(leaf, range),
        leaf.value is Boundry,
        leaf.range.valid(),
        leaf.range.is_cube(leaf.range.size.x as int),
    ensures
        leaf.range.count() == 1,
        leaf.range.is_cube(1),
        range.has(leaf.range.origin),
{
    let n = leaf.range.size.x as int;
    assert(n == 1) by (nonlinear_arith)
        requires
            n * n * n == 1,
            n >= 0,
    ;
    let p = choose|p: Point| #[trigger] leaf.range.has(p) && range.has(p);
    assert(p == leaf.range.origin);
}

impl<
    N: Copy,
    P: Copy,
    T: Copy,
    H: Fn(RangeZYX) -> bool,
    S: Fn(RangeZYX, usize) -> bool,
    C: Fn(Point) -> bool,
    K: Fn(Point) -> Displacement,
    FT: Fn(Point, &Vec<Point>) -> T,
    FF: Fn(T) -> Facet,
    G: Fn(T, SnapTarget, usize) -> Scalar,
    W: Fn(T, SnapTarget, usize) -> Vec<LatticePoint>,
    E: Fn(T, SnapTarget, LatticePoint) -> Scalar,
    AF: Fn(T, SnapTarget) -> Displacement,
    AL: Fn(T, LatticePoint) -> Displacement,
    NC: Fn(Point) -> Option<N>,
    NV: Fn(Point) -> Option<N>,
    F: Fn(N, Vector) -> Scalar,
    L: Fn(N, N) -> Scalar,
    PL: Fn(Point) -> Option<P>,
    ON: Fn(P, Point) -> Displacement,
    AV: Fn(Point, Neighborhood) -> Displacement,
    R: Fn(Point, Encoded, Neighborhood) -> Displacement,
> Surface<H, S, C, K, FT, FF, G, W, E, AF, AL, NC, NV, F, L, PL, ON, AV, R> {
    /// Voxelizes the chunk at `voxel_origin`, unless it is a chunk of the finest level that holds
    /// nothing.
    ///
    /// The chunk is over-voxelized due to the boundaries expected in voxel cell data, and the
    /// octree is clipped to the grid, since its cube is a good deal larger.
    pub fn voxelize_chunk(
        &self,
        voxel_origin: &Point,
        material: u64,
        is_lod: bool,
        smooth: u32,
    ) -> (r: Option<VoxelCellData>)
        requires
            forall|b: RangeZYX|
                may_be_node(cube(tree_origin(*voxel_origin), TREE_SIZE as int), b)
                    ==> #[trigger] can_classify(
                    b,
                    grid_range(*voxel_origin),
                    self.intersects,
                    self.sample_inside,
                ),
            self.can_extract(cube(tree_origin(*voxel_origin), TREE_SIZE as int), smooth),
            chunk_fits(*voxel_origin),
        ensures
            is_lod ==> r is Some,
            r matches Some(d) ==> {
                &&& d.grid.wf()
                &&& d.grid.bounds() == grid_range(*voxel_origin)
                &&& d.grid.inner_bounds() == cube(*voxel_origin, CHUNK_SIZE as int)
                &&& forall|p: Point| #[trigger]
                    d.grid.voxels().contains_key(p) ==> d.grid.voxels()[p].position.on_lattice()
                &&& maps_chunk_materials(d.mapping@, material)
            },
            forall|o: Answers<N, P, T>| #[trigger]
                self.answers_as(o) ==> is_chunk_data(
                    *voxel_origin,
                    material,
                    is_lod,
                    smooth,
                    o,
                    r,
                ),
    {
        let origin: Point = voxel_origin.shift(Vector::repeat(-2));
        let range: RangeZYX = RangeZYX::with_extent(
            voxel_origin.shift(Vector::repeat(-1)),
            GRID_SIZE,
        );
        proof {
            assert(power_of_two(64)) by {
                reveal_with_fuel(power_of_two, 8);
            }
            assert(range == grid_range(*voxel_origin));
            assert(origin == tree_origin(*voxel_origin));
        }
        let voxels: Svo<Voxel> = voxelize(
            origin,
            TREE_SIZE,
            &range,
            &self.intersects,
            &self.sample_inside,
        );
        let ghost leaves = voxels.leaf_seq();
        proof {
            assert forall|i: int| 0 <= i < leaves.len() implies well_classified_leaf(
                #[trigger] leaves[i],
                range,
            ) && cube(origin, TREE_SIZE as int).encloses(leaves[i].range)
                && leaves[i].range.valid() by {
                lemma_leaves_are_nodes(voxels, i);
            }
            lemma_empty_grid(origin, range, leaves, smooth);
            assert(searchable(voxels) && is_roomy_for(leaves, smooth)) by {
                assert forall|i: int|
                    0 <= i < leaves.len() && (
                    #[trigger] leaves[i]).value is Boundry implies leaves[i].range.count() == 1
                    && is_roomy(leaves[i].range.origin) by {
                    lemma_leaves_are_nodes(voxels, i);
                    lemma_clipped_cell(range, leaves[i]);
                }
            }
            assert forall|o: Answers<N, P, T>| #[trigger] self.answers_as(o) implies leaves
                == chunk_leaves(*voxel_origin, o) by {
                assert(agrees1(self.intersects, o.intersects));
                assert(agrees2(self.sample_inside, o.sample_inside));
            }
        }
        let inner_range: RangeZYX = RangeZYX::with_extent(*voxel_origin, CHUNK_SIZE);
        let mut grid: VertexGrid = VertexGrid::new(range, inner_range);
        fill_grid(&mut grid, &voxels, smooth);
        if !is_lod && grid.is_empty() {
            return None;
        }
        let vertices: PointMap<Encoded> = self.extract_vertices(&voxels, smooth);
        place_vertices(&mut grid, &vertices);
        Some(VoxelCellData::new(grid, chunk_materials(material)))
    }
}

/// A vertex of a chunk that carries a material has a position.
pub proof fn materials_have_positions(range: RangeZYX, leaves: Seq<SvoLeaf<Voxel>>, smooth: u32)
    requires
        forall|i: int|
            0 <= i < leaves.len() ==> may_be_node((#[trigger] leaves[i]).range, leaves[i].range),
    ensures
        leaf_materials(range, leaves, smooth, leaves.len() as int).dom().subset_of(
            leaf_positions(range, leaves, leaves.len() as int).dom(),
        ),
{
    let n = leaves.len() as int;
    assert forall|p: Point| has_material(leaves, smooth, p, n) implies has_position(
        leaves,
        p,
        n,
    ) by {
        let i = choose|i: int|
            0 <= i < n && gets_material((#[trigger] leaves[i]).value, smooth) && material_area(
                leaves[i].range,
            ).has(p);
        assert(position_area(leaves[i].range).has(p));
    }
}

/// A chunk whose octree the surface does not meet is a single leaf: inside if enough samples are,
/// else outside.
pub proof fn unmet_chunks_are_uniform<N, P, T>(o: Point, answers: Answers<N, P, T>)
    requires
        chunk_fits(o),
        !(answers.intersects)(cube(tree_origin(o), TREE_SIZE as int)),
    ensures
        ({
            let tree = cube(tree_origin(o), TREE_SIZE as int);
            let value = if inside_count(answers.sample_inside, tree, SAMPLES as nat) >= QUORUM {
                Voxel::Internal
            } else {
                Voxel::External
            };
            &&& chunk_leaves(o, answers) == seq![SvoLeaf { range: tree, value }]
            &&& all_external(chunk_leaves(o, answers)) <==> value == Voxel::External
        }),
{
    let tree = cube(tree_origin(o), TREE_SIZE as int);
    let corner = lowered(o, 1);
    assert(tree.has(corner) && grid_range(o).has(corner));
    assert(!tree.disjoint(grid_range(o)));
    let leaves = chunk_leaves(o, answers);
    assert(leaves.len() == 1);
    assert(all_external(leaves) <==> leaves[0].value == Voxel::External);
}

/// Every vertex of a chunk that lies inside as a whole has the material of the chunk, and rests
/// on its grid corner.
pub proof fn solid_chunks_are_at_rest<N, P, T>(
    o: Point,
    smooth: u32,
    answers: Answers<N, P, T>,
    p: Point,
)
    requires
        chunk_fits(o),
        chunk_leaves(o, answers) == seq![
            SvoLeaf {
                range: cube(tree_origin(o), TREE_SIZE as int),
                value: Voxel::Internal,
            },
        ],
        grid_range(o).has(p),
    ensures
        ({
            let leaves = chunk_leaves(o, answers);
            let positions = with_vertices(
                leaf_positions(grid_range(o), leaves, 1),
                grid_range(o),
                extracted(leaves, smooth, answers),
            );
            &&& leaf_materials(grid_range(o), leaves, smooth, 1).contains_key(p)
            &&& positions.contains_key(p)
            &&& positions[p] == at_rest()
        }),
{
    let leaves = chunk_leaves(o, answers);
    assert(leaves[0].value == Voxel::Internal);
    assert(material_area(leaves[0].range).has(p));
    assert(position_area(leaves[0].range).has(p));
    vertices_need_a_boundary(leaves, smooth, answers);
}

} // verus!
