use voxelization::geometry::{Point, RangeZYX, Vector};
use voxelization::neighbors::Neighborhood;
use voxelization::offset::{Displacement, Encoded};
use voxelization::point_map::PointMap;
use voxelization::scalar::Scalar;
use voxelization::snap::{Facet, Features, LatticePoint, SnapTarget};
use voxelization::surface::Surface;
use voxelization::svo::{Svo, SvoReturn};
use voxelization::vertices::{collect_unset, significant_points, snap_unset_to_neighbors};
use voxelization::voxel::Voxel;

fn s(v: f64) -> Scalar {
    Scalar::from_bits(v.to_bits())
}

fn all(v: f64) -> Displacement {
    Displacement { x: s(v), y: s(v), z: s(v) }
}

fn offset(v: u8) -> Encoded {
    Encoded { x: v, y: v, z: v }
}

/// A cube of two cells along each side; `value` says what each cell is.
fn two_by_two<F: Fn(Point) -> Voxel>(value: F) -> Svo<Voxel> {
    two_by_two_at(Point::new(0, 0, 0), value)
}

fn two_by_two_at<F: Fn(Point) -> Voxel>(origin: Point, value: F) -> Svo<Voxel> {
    Svo::from_fn(origin, 2, &|b: RangeZYX| {
        if b.size.x > 1 {
            SvoReturn::Internal(Voxel::Boundry(false))
        } else {
            SvoReturn::Leaf(value(b.origin))
        }
    })
}

/// One fill cell above one solid cell.
fn step() -> Svo<Voxel> {
    two_by_two(|p: Point| match (p.x, p.y, p.z) {
        (0, 0, 0) => Voxel::Boundry(true),
        (0, 0, 1) => Voxel::Boundry(false),
        _ => Voxel::External,
    })
}

fn extract(voxels: &Svo<Voxel>, smooth: u32, flat: bool) -> PointMap<Encoded> {
    let surface = Surface {
        intersects: |_b: RangeZYX| true,
        sample_inside: |_b: RangeZYX, _k: usize| true,
        corner_inside: |p: Point| p.z < 2,
        closest: |_p: Point| all(1.0),
        facet: |_p: Point, cells: &Vec<Point>| cells.len(),
        features: |_n: usize| {
            let zero = [s(0.0), s(0.0), s(0.0)];
            let f = Features { distance: zero, reach: zero };
            Facet { vertices: f, edges: f, area: s(0.0) }
        },
        gap: |_n: usize, _t: SnapTarget, _k: usize| s(0.0),
        walk: |_n: usize, _t: SnapTarget, _k: usize| -> Vec<LatticePoint> { vec![] },
        error: |_n: usize, _t: SnapTarget, _q: LatticePoint| s(0.0),
        at_feature: |n: usize, _t: SnapTarget| all(n as f64),
        at_lattice: |_n: usize, _q: LatticePoint| all(0.0),
        cell_normal: |_p: Point| if flat { Some(1i32) } else { None },
        corner_normal: |_p: Point| -> Option<i32> { None },
        facing: |_n: i32, _v: Vector| s(1.0),
        alignment: |_n: i32, _m: i32| s(1.0),
        plane: |_p: Point| Some(2u8),
        onto_plane: |_t: u8, _p: Point| all(2.0),
        average: |_p: Point, _n: Neighborhood| all(3.0),
        relaxed: |_p: Point, e: Encoded, n: Neighborhood| {
            assert!(n.count() > 0);
            all(e.x as f64 - 126.0 + 10.0)
        },
    };
    surface.extract_vertices(voxels, smooth)
}

#[test]
fn significant_corners_know_their_cells() {
    let a = Point::new(0, 0, 0);
    let b = Point::new(1, 0, 0);
    let voxels = two_by_two(|p: Point| {
        if p == a {
            Voxel::Boundry(true)
        } else if p == b {
            Voxel::Boundry(false)
        } else {
            Voxel::Internal
        }
    });
    // One corner that both cells share, outside of the mesh: it is set apart from the first.
    let shared = Point::new(1, 1, 1);
    let m = significant_points(&voxels, &|p: Point| p != shared);
    assert_eq!(m.get(shared), Some(&vec![a]));
    // All other corners of the second cell lie inside, while its center does not.
    assert_eq!(m.get(Point::new(2, 0, 0)), Some(&vec![b]));
    assert_eq!(m.len(), 8);
    let n = significant_points(&voxels, &|_p: Point| false);
    assert_eq!(n.len(), 8);
    assert_eq!(n.get(Point::new(1, 0, 0)), Some(&vec![a]));
    assert_eq!(n.get(Point::new(2, 0, 0)), None);
}

#[test]
fn anchors_come_in_the_order_of_the_leaves() {
    let voxels = two_by_two(|_p: Point| Voxel::Boundry(true));
    let m = significant_points(&voxels, &|p: Point| p != Point::new(1, 1, 1));
    let cells: Vec<Point> = (0..8).map(|k| voxels.range.split(k).origin).collect();
    assert_eq!(m.len(), 1);
    assert_eq!(m.get(Point::new(1, 1, 1)), Some(&cells));
}

#[test]
fn unset_corners_are_collected_once() {
    let voxels = two_by_two(|p: Point| Voxel::Boundry(p.x == 1));
    let mut placed: PointMap<Encoded> = PointMap::new();
    placed.insert(Point::new(0, 0, 0), offset(9));
    let unset = collect_unset(&voxels, &placed);
    // Two layers of nine corners, but for the one that is placed.
    assert_eq!(unset.len(), 17);
    assert_eq!(unset[0], Point::new(0, 0, 1));
    assert!(!unset.contains(&Point::new(0, 0, 0)));
    assert!(!unset.contains(&Point::new(2, 0, 0)));
}

#[test]
fn leftover_corners_end_up_on_the_surface() {
    let voxels = step();
    let mut m: PointMap<Encoded> = PointMap::new();
    m.insert(Point::new(0, 0, 1), offset(50));
    m.insert(Point::new(1, 1, 1), offset(60));
    let average = |_p: Point, _n: Neighborhood| all(3.0);
    snap_unset_to_neighbors(&voxels, &mut m, &average, &|_p: Point| all(1.0));
    assert_eq!(m.len(), 8);
    assert_eq!(m.get(Point::new(0, 0, 1)), Some(&offset(50)));
    // Two neighbors are placed beside this one.
    assert_eq!(m.get(Point::new(0, 1, 1)), Some(&offset(129)));
    let mut none: PointMap<Encoded> = PointMap::new();
    snap_unset_to_neighbors(&voxels, &mut none, &average, &|_p: Point| all(1.0));
    for i in 0..8 {
        assert_eq!(none.entry(i).1, &offset(127));
    }
}

#[test]
fn without_smoothing_only_significant_corners_move() {
    let m = extract(&step(), 0, true);
    // The lower corners of the fill cell lie inside, its upper ones outside.
    assert_eq!(m.len(), 4);
    for p in m.key_list() {
        assert_eq!(p.z, 1);
        // One cell anchors each of them.
        assert_eq!(m.get(p), Some(&offset(1)));
    }
}

#[test]
fn smoothing_keeps_the_significant_corners() {
    let m = extract(&step(), 1, true);
    assert_eq!(m.len(), 8);
    for p in m.key_list() {
        let expected = if p.z == 1 { offset(127) } else { offset(128) };
        assert_eq!(m.get(p), Some(&expected));
    }
}

#[test]
fn cells_that_are_no_face_fills_are_snapped() {
    let m = extract(&step(), 1, false);
    assert_eq!(m.len(), 8);
    for p in m.key_list() {
        // The upper corners have one placed neighbor each, below them.
        assert_eq!(m.get(p), Some(&offset(127)));
    }
}

#[test]
fn further_smoothing_relaxes_all_vertices() {
    let m = extract(&step(), 3, true);
    assert_eq!(m.len(), 8);
    for p in m.key_list() {
        let expected = if p.z == 1 { offset(147) } else { offset(148) };
        assert_eq!(m.get(p), Some(&expected));
    }
}

#[test]
fn vertices_need_a_boundary_cell() {
    let inside = two_by_two(|_p: Point| Voxel::Internal);
    assert!(extract(&inside, 0, true).is_empty());
    assert!(extract(&inside, 2, true).is_empty());
}

#[test]
fn larger_fill_leaves_count_by_their_lowest_cell() {
    let voxels = Svo::from_fn(Point::new(4, 4, 4), 8, &|_b: RangeZYX| {
        SvoReturn::Leaf(Voxel::Boundry(false))
    });
    let unset = collect_unset(&voxels, &PointMap::new());
    assert_eq!(unset.len(), 8);
    assert_eq!(unset[0], Point::new(4, 4, 4));
    assert_eq!(unset[7], Point::new(5, 5, 5));
}

#[test]
fn without_smoothing_no_neighbors_are_needed() {
    let low = Point::new(i32::MIN, i32::MIN, i32::MIN);
    let voxels = two_by_two_at(low, |p: Point| Voxel::Boundry(p != low));
    let m = extract(&voxels, 0, true);
    // Every corner lies inside; only the center of the lowest cell does not.
    assert_eq!(m.len(), 8);
    assert_eq!(m.get(low), Some(&offset(1)));
}
