use voxelization::geometry::{Point, RangeZYX, Vector};
use voxelization::grid::{VertexMaterial, VertexVoxel, VoxelCellData};
use voxelization::neighbors::Neighborhood;
use voxelization::offset::{Displacement, Encoded};
use voxelization::scalar::Scalar;
use voxelization::snap::{Facet, Features, LatticePoint, SnapTarget};
use voxelization::surface::Surface;

fn s(v: f64) -> Scalar {
    Scalar::from_bits(v.to_bits())
}

fn along_x(x: f64, rest: f64) -> Displacement {
    Displacement { x: s(x), y: s(rest), z: s(rest) }
}

/// The mesh is the half space below `top` along the first axis.
fn half_space(top: f64, origin: Point, is_lod: bool, smooth: u32) -> Option<VoxelCellData> {
    let up = |p: Point| (top - p.x as f64) * 84.0;
    let surface = Surface {
        intersects: |b: RangeZYX| {
            b.origin.x as f64 <= top && top <= b.origin.x as f64 + b.size.x as f64
        },
        sample_inside: |b: RangeZYX, k: usize| {
            let at = match k {
                0 => b.size.x as f64 / 2.0,
                k => ((k - 1) / 4) as f64 * b.size.x as f64,
            };
            b.origin.x as f64 + at < top
        },
        corner_inside: |p: Point| (p.x as f64) < top,
        closest: |p: Point| along_x(up(p), 0.0),
        facet: |p: Point, cells: &Vec<Point>| {
            assert!(!cells.is_empty());
            p
        },
        features: |p: Point| {
            let near = Features {
                distance: [s(3.0), s(2.0), s(1.0)],
                reach: [s(0.0), s(0.0), s(up(p).abs())],
            };
            Facet { vertices: near, edges: near, area: s(1.0) }
        },
        gap: |_p: Point, _t: SnapTarget, _k: usize| s(1.0),
        walk: |_p: Point, _t: SnapTarget, _k: usize| -> Vec<LatticePoint> { vec![] },
        error: |_p: Point, _t: SnapTarget, _q: LatticePoint| s(0.0),
        at_feature: |p: Point, _t: SnapTarget| along_x(126.0 + up(p), 126.0),
        at_lattice: |_p: Point, _q: LatticePoint| along_x(0.0, 0.0),
        cell_normal: |_p: Point| Some(-1i32),
        corner_normal: |_p: Point| Some(-1i32),
        facing: |n: i32, v: Vector| s((n * v.x) as f64),
        alignment: |n: i32, m: i32| s((n * m) as f64),
        plane: |_p: Point| Some(top),
        onto_plane: |t: f64, p: Point| along_x((t - p.x as f64) * 84.0, 0.0),
        average: |_p: Point, _n: Neighborhood| along_x(0.0, 0.0),
        relaxed: |p: Point, _e: Encoded, _n: Neighborhood| along_x(up(p), 0.0),
    };
    surface.voxelize_chunk(&origin, 77, is_lod, smooth)
}

const ORIGIN: Point = Point { x: 64, y: -32, z: 0 };

fn at(x: i32) -> Point {
    Point::new(x, -20, 7)
}

fn position(d: &VoxelCellData, x: i32) -> Option<u8> {
    d.grid.voxel(&at(x)).map(|v| {
        assert_eq!((v.position.y, v.position.z), (126, 126));
        v.position.x
    })
}

#[test]
fn empty_chunks_of_the_finest_level_have_no_data() {
    assert!(half_space(0.0, ORIGIN, false, 0).is_none());
    assert!(half_space(0.0, ORIGIN, false, 2).is_none());
}

#[test]
fn empty_chunks_of_coarser_levels_have_data() {
    let d = half_space(0.0, ORIGIN, true, 1).unwrap();
    assert!(d.grid.is_empty());
    assert!(d.mapping.get(2).is_some());
}

#[test]
fn chunks_carry_two_materials() {
    let d = half_space(80.25, ORIGIN, false, 0).unwrap();
    let debug = d.mapping.get(1).unwrap();
    assert_eq!((debug.id, debug.short_name.as_str()), (157903047, "Debug1\0\0"));
    let own = d.mapping.get(2).unwrap();
    assert_eq!((own.id, own.short_name.as_str()), (77, "Material"));
    assert!(d.mapping.get(0).is_none());
    assert!(d.mapping.get(3).is_none());
    assert_eq!(d.grid.range(), RangeZYX::with_extent(Point::new(63, -33, -1), 35));
    assert_eq!(d.grid.inner_range(), RangeZYX::with_extent(ORIGIN, 32));
}

#[test]
fn solid_chunks_rest_on_their_corners() {
    let d = half_space(1000.0, ORIGIN, false, 1).unwrap();
    for p in [Point::new(63, -33, -1), Point::new(80, 0, 3), Point::new(97, 1, 33)] {
        assert_eq!(d.grid.material(&p), Some(VertexMaterial::new(2)));
        let rest = Encoded { x: 126, y: 126, z: 126 };
        assert_eq!(d.grid.voxel(&p), Some(VertexVoxel::new(rest)));
    }
    assert_eq!(d.grid.voxel(&Point::new(98, 0, 0)), None);
}

#[test]
fn insignificant_boundary_cells_have_no_material_unless_smoothed() {
    // The boundary cells start at 80, and their centers lie outside of the mesh.
    let rough = half_space(80.25, ORIGIN, false, 0).unwrap();
    assert_eq!(rough.grid.material(&at(80)), Some(VertexMaterial::new(2)));
    assert_eq!(rough.grid.material(&at(81)), None);
    let smooth = half_space(80.25, ORIGIN, false, 1).unwrap();
    assert_eq!(smooth.grid.material(&at(81)), Some(VertexMaterial::new(2)));
    assert_eq!(smooth.grid.material(&at(82)), None);
    // Either way the vertices of the boundary cells have positions, and those beyond have none.
    assert!(position(&rough, 81).is_some());
    assert_eq!(position(&rough, 82), None);
    assert_eq!(position(&smooth, 82), None);
}

#[test]
fn significant_corners_are_snapped() {
    // The corners at 80 lie inside while the centers of their cells do not.
    let d = half_space(80.25, ORIGIN, false, 0).unwrap();
    assert_eq!(position(&d, 80), Some(126 + 21));
    assert_eq!(position(&d, 81), Some(126));
    assert_eq!(position(&d, 79), Some(126));
    // With the centers inside, it is the corners beyond that are set apart.
    let d = half_space(80.75, ORIGIN, false, 0).unwrap();
    assert_eq!(position(&d, 80), Some(126));
    assert_eq!(position(&d, 81), Some(126 - 21));
}

#[test]
fn fill_cells_are_flattened() {
    let d = half_space(80.25, ORIGIN, false, 1).unwrap();
    assert_eq!(position(&d, 80), Some(126 + 21));
    assert_eq!(position(&d, 81), Some(126 - 63));
    assert_eq!(position(&d, 79), Some(126));
}

#[test]
fn relaxation_stays_on_the_surface() {
    let d = half_space(80.25, ORIGIN, false, 4).unwrap();
    assert_eq!(position(&d, 80), Some(126 + 21));
    assert_eq!(position(&d, 81), Some(126 - 63));
}

#[test]
fn materials_come_with_positions() {
    for smooth in 0..2 {
        let d = half_space(80.25, ORIGIN, false, smooth).unwrap();
        for x in 60..100 {
            let p = at(x);
            if d.grid.material(&p).is_some() {
                assert!(d.grid.voxel(&p).is_some());
            }
        }
    }
}

#[test]
fn surfaces_in_the_margin_are_seen() {
    // The grid has one cell more on the low side and two more on the high side.
    assert!(half_space(63.25, ORIGIN, false, 0).is_some());
    let d = half_space(97.25, ORIGIN, false, 0).unwrap();
    assert_eq!(position(&d, 97), Some(126 + 21));
}

#[test]
fn chunks_move_with_their_origins() {
    let (dx, dy, dz) = (-1000, 7, 123456);
    for top in [0.0, 80.25, 80.75, 1000.0] {
        let moved_to = Point::new(ORIGIN.x + dx, ORIGIN.y + dy, ORIGIN.z + dz);
        let a = half_space(top, ORIGIN, false, 0);
        let b = half_space(top + dx as f64, moved_to, false, 0);
        assert_eq!(a.is_some(), b.is_some());
        if let (Some(a), Some(b)) = (a, b) {
            for x in 60..100 {
                for y in [-34, -33, -20, 1, 2] {
                    let p = Point::new(x, y, 7);
                    let q = Point::new(x + dx, y + dy, 7 + dz);
                    assert_eq!(a.grid.material(&p), b.grid.material(&q));
                    assert_eq!(a.grid.voxel(&p), b.grid.voxel(&q));
                }
            }
            assert_eq!(a.mapping.get(2).unwrap().id, b.mapping.get(2).unwrap().id);
        }
    }
}
