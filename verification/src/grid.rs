//! The vertex grid of a chunk, and the data of the voxel cell that it becomes.
use crate::geometry::{Point, RangeZYX, Vector};
use crate::offset::Encoded;
use crate::point_map::PointMap;
use std::collections::HashMap;
use vstd::prelude::*;

verus! {

/// The material of a vertex, as an index into the materials of its cell.
#[derive(Clone, Copy, Debug, PartialEq, Eq, Structural)]
pub struct VertexMaterial {
    pub material: u8,
}

/// The position of a vertex.
#[derive(Clone, Copy, Debug, PartialEq, Eq, Structural)]
pub struct VertexVoxel {
    pub position: Encoded,
}

impl VertexMaterial {
    pub fn new(material: u8) -> (r: VertexMaterial)
        ensures
            r.material == material,
    {
        VertexMaterial { material }
    }
}

impl VertexVoxel {
    pub fn new(position: Encoded) -> (r: VertexVoxel)
        ensures
            r.position == position,
    {
        VertexVoxel { position }
    }
}

/// The map with `value` at every point of `area`.
pub open spec fn painted<V>(m: Map<Point, V>, area: RangeZYX, value: V) -> Map<Point, V> {
    Map::new(
        |p: Point| m.contains_key(p) || area.has(p),
        |p: Point|
            if area.has(p) {
                value
            } else {
                m[p]
            },
    )
}

/// The box of the given size at `origin`.
spec fn block(origin: Point, x: int, y: int, z: int) -> RangeZYX {
    RangeZYX { origin, size: Vector { x: x as i32, y: y as i32, z: z as i32 } }
}

/// Gives `value` to the `n` points from `origin` along the fastest axis.
fn paint_row<V: Copy>(m: &mut PointMap<V>, origin: Point, n: i32, value: V)
    requires
        old(m).wf(),
        n >= 0,
        origin.z + n <= i32::MAX,
    ensures
        final(m).wf(),
        final(m)@ == painted(old(m)@, block(origin, 1, 1, n as int), value),
{
    let ghost start = m@;
    let mut k: i32 = 0;
    assert(m@ =~= painted(start, block(origin, 1, 1, 0), value));
    while k < n
        invariant
            0 <= k <= n,
            origin.z + n <= i32::MAX,
            m.wf(),
            m@ == painted(start, block(origin, 1, 1, k as int), value),
        decreases n - k,
    {
        m.insert(Point { x: origin.x, y: origin.y, z: origin.z + k }, value);
        k = k + 1;
        assert(m@ =~= painted(start, block(origin, 1, 1, k as int), value));
    }
}

/// Gives `value` to the points of a slice of `h` rows.
fn paint_slice<V: Copy>(m: &mut PointMap<V>, origin: Point, h: i32, n: i32, value: V)
    requires
        old(m).wf(),
        h >= 0,
        n >= 0,
        origin.y + h <= i32::MAX,
        origin.z + n <= i32::MAX,
    ensures
        final(m).wf(),
        final(m)@ == painted(old(m)@, block(origin, 1, h as int, n as int), value),
{
    let ghost start = m@;
    let mut k: i32 = 0;
    assert(m@ =~= painted(start, block(origin, 1, 0, n as int), value));
    while k < h
        invariant
            0 <= k <= h,
            n >= 0,
            origin.y + h <= i32::MAX,
            origin.z + n <= i32::MAX,
            m.wf(),
            m@ == painted(start, block(origin, 1, k as int, n as int), value),
        decreases h - k,
    {
        paint_row(m, Point { x: origin.x, y: origin.y + k, z: origin.z }, n, value);
        k = k + 1;
        assert(m@ =~= painted(start, block(origin, 1, k as int, n as int), value));
    }
}

/// Gives `value` to every point of `area`.
fn paint<V: Copy>(m: &mut PointMap<V>, area: &RangeZYX, value: V)
    requires
        old(m).wf(),
        area.fits(),
    ensures
        final(m).wf(),
        final(m)@ == painted(old(m)@, *area, value),
{
    let ghost start = m@;
    let origin: Point = area.origin;
    let (w, h, n): (i32, i32, i32) = (area.size.x, area.size.y, area.size.z);
    let mut k: i32 = 0;
    assert(m@ =~= painted(start, block(origin, 0, h as int, n as int), value));
    while k < w
        invariant
            0 <= k <= w,
            h >= 0,
            n >= 0,
            origin.x + w <= i32::MAX,
            origin.y + h <= i32::MAX,
            origin.z + n <= i32::MAX,
            m.wf(),
            m@ == painted(start, block(origin, k as int, h as int, n as int), value),
        decreases w - k,
    {
        paint_slice(m, Point { x: origin.x + k, y: origin.y, z: origin.z }, h, n, value);
        k = k + 1;
        assert(m@ =~= painted(start, block(origin, k as int, h as int, n as int), value));
    }
}

/// The vertices of a chunk. What is set outside of its range is ignored.
pub struct VertexGrid {
    range: RangeZYX,
    inner_range: RangeZYX,
    materials: PointMap<VertexMaterial>,
    voxels: PointMap<VertexVoxel>,
}

impl VertexGrid {
    /// The grid holds vertices of its range only.
    pub closed spec fn wf(self) -> bool {
        &&& self.range.fits()
        &&& self.materials.wf()
        &&& self.voxels.wf()
        &&& forall|p: Point| #[trigger] self.materials@.contains_key(p) ==> self.range.has(p)
        &&& forall|p: Point| #[trigger] self.voxels@.contains_key(p) ==> self.range.has(p)
    }

    /// The vertices that the grid has room for.
    pub closed spec fn bounds(self) -> RangeZYX {
        self.range
    }

    /// The cells that the grid describes.
    pub closed spec fn inner_bounds(self) -> RangeZYX {
        self.inner_range
    }

    /// The materials that are set.
    pub closed spec fn materials(self) -> Map<Point, VertexMaterial> {
        self.materials@
    }

    /// The positions that are set.
    pub closed spec fn voxels(self) -> Map<Point, VertexVoxel> {
        self.voxels@
    }

    /// Only vertices of its range are set in a grid.
    pub proof fn lemma_within_bounds(self, p: Point)
        requires
            self.wf(),
        ensures
            self.bounds().fits(),
            self.materials().contains_key(p) ==> self.bounds().has(p),
            self.voxels().contains_key(p) ==> self.bounds().has(p),
    {
    }

    /// An empty grid.
    pub fn new(range: RangeZYX, inner_range: RangeZYX) -> (g: VertexGrid)
        requires
            range.fits(),
        ensures
            g.wf(),
            g.bounds() == range,
            g.inner_bounds() == inner_range,
            g.materials() == Map::<Point, VertexMaterial>::empty(),
            g.voxels() == Map::<Point, VertexVoxel>::empty(),
    {
        VertexGrid { range, inner_range, materials: PointMap::new(), voxels: PointMap::new() }
    }

    /// Sets the material of every vertex of `area`.
    pub fn set_materials(&mut self, area: &RangeZYX, material: VertexMaterial)
        requires
            old(self).wf(),
            area.valid(),
        ensures
            final(self).wf(),
            final(self).bounds() == old(self).bounds(),
            final(self).inner_bounds() == old(self).inner_bounds(),
            final(self).voxels() == old(self).voxels(),
            final(self).materials() == painted(
                old(self).materials(),
                old(self).bounds().overlap_with(*area),
                material,
            ),
    {
        let clipped: RangeZYX = self.range.intersection(area);
        paint(&mut self.materials, &clipped, material);
    }

    /// Sets the position of every vertex of `area`.
    pub fn set_voxels(&mut self, area: &RangeZYX, voxel: VertexVoxel)
        requires
            old(self).wf(),
            area.valid(),
        ensures
            final(self).wf(),
            final(self).bounds() == old(self).bounds(),
            final(self).inner_bounds() == old(self).inner_bounds(),
            final(self).materials() == old(self).materials(),
            final(self).voxels() == painted(
                old(self).voxels(),
                old(self).bounds().overlap_with(*area),
                voxel,
            ),
    {
        let clipped: RangeZYX = self.range.intersection(area);
        paint(&mut self.voxels, &clipped, voxel);
    }

    /// Sets the position of one vertex.
    pub fn set_voxel(&mut self, p: &Point, voxel: VertexVoxel)
        requires
            old(self).wf(),
        ensures
            final(self).wf(),
            final(self).bounds() == old(self).bounds(),
            final(self).inner_bounds() == old(self).inner_bounds(),
            final(self).materials() == old(self).materials(),
            final(self).voxels() == if old(self).bounds().has(*p) {
                old(self).voxels().insert(*p, voxel)
            } else {
                old(self).voxels()
            },
    {
        if self.range.contains(*p) {
            self.voxels.insert(*p, voxel);
        }
    }

    /// Whether nothing is set.
    pub fn is_empty(&self) -> (b: bool)
        requires
            self.wf(),
        ensures
            b == (self.materials() == Map::<Point, VertexMaterial>::empty() && self.voxels()
                == Map::<Point, VertexVoxel>::empty()),
    {
        self.materials.is_empty() && self.voxels.is_empty()
    }

    /// The vertices that the grid has room for.
    pub fn range(&self) -> (r: RangeZYX)
        ensures
            r == self.bounds(),
    {
        self.range
    }

    /// The cells that the grid describes.
    pub fn inner_range(&self) -> (r: RangeZYX)
        ensures
            r == self.inner_bounds(),
    {
        self.inner_range
    }

    /// The material of a vertex.
    pub fn material(&self, p: &Point) -> (r: Option<VertexMaterial>)
        requires
            self.wf(),
        ensures
            r == if self.materials().contains_key(*p) {
                Some(self.materials()[*p])
            } else {
                None
            },
    {
        match self.materials.get(*p) {
            Some(m) => Some(*m),
            None => None,
        }
    }

    /// The position of a vertex.
    pub fn voxel(&self, p: &Point) -> (r: Option<VertexVoxel>)
        requires
            self.wf(),
        ensures
            r == if self.voxels().contains_key(*p) {
                Some(self.voxels()[*p])
            } else {
                None
            },
    {
        match self.voxels.get(*p) {
            Some(v) => Some(*v),
            None => None,
        }
    }
}

/// A material of the game.
#[derive(Debug)]
pub struct MaterialId {
    pub id: u64,
    pub short_name: String,
}

/// The materials of a cell, by the index that vertices refer to them with.
pub struct MaterialMapper {
    ids: HashMap<u8, MaterialId>,
}

impl View for MaterialMapper {
    type V = Map<u8, MaterialId>;

    closed spec fn view(&self) -> Map<u8, MaterialId> {
        self.ids@
    }
}

impl Default for MaterialMapper {
    fn default() -> (m: MaterialMapper)
        ensures
            m@ == Map::<u8, MaterialId>::empty(),
    {
        MaterialMapper { ids: HashMap::new() }
    }
}

impl MaterialMapper {
    /// Gives the index `k` to a material.
    pub fn insert(&mut self, k: u8, id: MaterialId)
        ensures
            final(self)@ == old(self)@.insert(k, id),
    {
        broadcast use vstd::std_specs::hash::group_hash_axioms;

        self.ids.insert(k, id);
    }

    /// The material with the index `k`.
    pub fn get(&self, k: u8) -> (r: Option<&MaterialId>)
        ensures
            r == if self@.contains_key(k) {
                Some(&self@[k])
            } else {
                None
            },
    {
        broadcast use vstd::std_specs::hash::group_hash_axioms;

        self.ids.get(&k)
    }
}

/// The vertices and the materials of a voxel cell.
pub struct VoxelCellData {
    pub grid: VertexGrid,
    pub mapping: MaterialMapper,
}

impl VoxelCellData {
    pub fn new(grid: VertexGrid, mapping: MaterialMapper) -> (d: VoxelCellData)
        ensures
            d.grid == grid,
            d.mapping == mapping,
    {
        VoxelCellData { grid, mapping }
    }
}

} // verus!
