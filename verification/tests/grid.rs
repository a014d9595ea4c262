use voxelization::geometry::{Point, RangeZYX, Vector};
use voxelization::grid::{
    MaterialId, MaterialMapper, VertexGrid, VertexMaterial, VertexVoxel, VoxelCellData,
};
use voxelization::offset::Encoded;

fn grid() -> VertexGrid {
    VertexGrid::new(
        RangeZYX::with_extent(Point::new(-1, -1, -1), 5),
        RangeZYX::with_extent(Point::new(0, 0, 0), 2),
    )
}

fn voxel(v: u8) -> VertexVoxel {
    VertexVoxel::new(Encoded { x: v, y: v, z: v })
}

#[test]
fn new_grids_are_empty() {
    let g = grid();
    assert!(g.is_empty());
    assert_eq!(g.range(), RangeZYX::with_extent(Point::new(-1, -1, -1), 5));
    assert_eq!(g.inner_range(), RangeZYX::with_extent(Point::new(0, 0, 0), 2));
    assert_eq!(g.material(&Point::new(0, 0, 0)), None);
    assert_eq!(g.voxel(&Point::new(0, 0, 0)), None);
}

#[test]
fn areas_are_clipped_to_the_grid() {
    let mut g = grid();
    let area = RangeZYX { origin: Point::new(2, 3, -9), size: Vector::new(9, 9, 10) };
    g.set_materials(&area, VertexMaterial::new(2));
    for x in -3..6 {
        for y in -3..6 {
            for z in -3..6 {
                let p = Point::new(x, y, z);
                let expected = area.contains(p) && g.range().contains(p);
                assert_eq!(g.material(&p).is_some(), expected);
            }
        }
    }
    assert_eq!(g.material(&Point::new(3, 3, 0)), Some(VertexMaterial::new(2)));
    assert_eq!(g.voxel(&Point::new(3, 3, 0)), None);
    assert!(!g.is_empty());
}

#[test]
fn areas_apart_from_the_grid_set_nothing() {
    let mut g = grid();
    let area = RangeZYX::with_extent(Point::new(4, 4, 4), 3);
    g.set_materials(&area, VertexMaterial::new(2));
    g.set_voxels(&area, voxel(1));
    g.set_voxel(&Point::new(4, 0, 0), voxel(1));
    assert!(g.is_empty());
}

#[test]
fn later_positions_replace_earlier_ones() {
    let mut g = grid();
    g.set_voxels(&RangeZYX::with_extent(Point::new(0, 0, 0), 2), voxel(126));
    g.set_voxel(&Point::new(1, 1, 1), voxel(7));
    assert_eq!(g.voxel(&Point::new(0, 1, 1)), Some(voxel(126)));
    assert_eq!(g.voxel(&Point::new(1, 1, 1)), Some(voxel(7)));
    assert_eq!(g.voxel(&Point::new(2, 1, 1)), None);
    assert!(!g.is_empty());
}

#[test]
fn materials_are_found_by_their_index() {
    let mut m = MaterialMapper::default();
    assert!(m.get(1).is_none());
    m.insert(1, MaterialId { id: 5, short_name: "a".to_string() });
    m.insert(1, MaterialId { id: 6, short_name: "b".to_string() });
    let d = VoxelCellData::new(grid(), m);
    let found = d.mapping.get(1).unwrap();
    assert_eq!((found.id, found.short_name.as_str()), (6, "b"));
    assert!(d.mapping.get(2).is_none());
    assert!(d.grid.is_empty());
}
