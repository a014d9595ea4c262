use voxelization::fill::{
    collect_solid_cells, find_only_solid_neighbor, flatten_fill_cell, is_face_fill, ALIGNED, FACING,
};
use voxelization::geometry::{neighbor_step, Point, RangeZYX, Vector};
use voxelization::offset::{Displacement, Encoded};
use voxelization::point_map::{PointMap, PointSet};
use voxelization::scalar::Scalar;
use voxelization::svo::{Svo, SvoReturn};
use voxelization::voxel::Voxel;

fn s(v: f64) -> Scalar {
    Scalar::from_bits(v.to_bits())
}

fn cells(points: &[Point]) -> PointSet {
    let mut m = PointMap::new();
    for p in points {
        m.insert(*p, ());
    }
    m
}

const CELL: Point = Point { x: 3, y: -2, z: 5 };

#[test]
fn thresholds_of_face_fills() {
    assert_eq!(FACING, 0.3f64.to_bits());
    assert_eq!(ALIGNED, 0.5f64.to_bits());
}

#[test]
fn solid_leaves_count_by_their_lowest_corner() {
    let t = Svo::from_fn(Point::new(0, 0, 0), 4, &|b: RangeZYX| {
        if b.size.x == 4 || (b.size.x == 2 && b.origin == Point::new(2, 2, 2)) {
            SvoReturn::Internal(Voxel::Boundry(false))
        } else if b.size.x == 2 {
            if b.origin.x == 0 {
                SvoReturn::Leaf(Voxel::Internal)
            } else {
                SvoReturn::Leaf(Voxel::External)
            }
        } else {
            SvoReturn::Leaf(Voxel::Boundry(b.origin.z == 3))
        }
    });
    let solid = collect_solid_cells(&t);
    assert_eq!(solid.len(), 4 + 4);
    assert!(solid.contains(Point::new(0, 0, 0)));
    assert!(!solid.contains(Point::new(1, 0, 0)));
    assert!(solid.contains(Point::new(2, 2, 3)));
    assert!(!solid.contains(Point::new(2, 2, 2)));
    assert!(!solid.contains(Point::new(2, 0, 0)));
}

#[test]
fn exactly_one_solid_neighbor_is_the_only_one() {
    assert_eq!(find_only_solid_neighbor(CELL, &cells(&[])), None);
    for k in 0..6 {
        let a = CELL.shift(neighbor_step(k));
        assert_eq!(find_only_solid_neighbor(CELL, &cells(&[a])), Some(neighbor_step(k)));
        for j in 0..6 {
            if j != k {
                let b = CELL.shift(neighbor_step(j));
                assert_eq!(find_only_solid_neighbor(CELL, &cells(&[a, b])), None);
            }
        }
    }
    assert_eq!(find_only_solid_neighbor(CELL, &cells(&[CELL, Point::new(9, 9, 9)])), None);
}

fn dot(n: Vector, v: Vector) -> f64 {
    (n.x * v.x + n.y * v.y + n.z * v.z) as f64 / 10.0
}

fn fills(solid: &PointSet, center: Option<Vector>, odd: Option<Vector>) -> bool {
    is_face_fill(
        CELL,
        solid,
        &|_c: Point| center,
        &|p: Point| if p == Point::new(4, -1, 6) { odd } else { center },
        &|n: Vector, v: Vector| s(dot(n, v)),
        &|n: Vector, m: Vector| s(dot(n, m) / 10.0),
    )
}

#[test]
fn face_fills_continue_a_face() {
    let below = cells(&[Point::new(3, -2, 4)]);
    let down = Some(Vector::new(0, 0, -10));
    assert!(fills(&below, down, down));
    // A corner without a normal does not matter.
    assert!(fills(&below, down, None));
    // The normal has to point to the solid cell.
    assert!(!fills(&below, Some(Vector::new(0, 0, 10)), down));
    assert!(!fills(&below, Some(Vector::new(0, 10, -2)), Some(Vector::new(0, 10, -2))));
    assert!(fills(&below, Some(Vector::new(0, 10, -3)), Some(Vector::new(0, 10, -3))));
    // The normals at the corners have to agree.
    assert!(fills(&below, down, Some(Vector::new(0, 8, -5))));
    assert!(!fills(&below, down, Some(Vector::new(0, 8, -4))));
    // There has to be a normal, and only one solid neighbor.
    assert!(!fills(&below, None, down));
    assert!(!fills(&cells(&[]), down, down));
    let two = cells(&[Point::new(3, -2, 4), Point::new(2, -2, 5)]);
    assert!(!fills(&two, down, down));
}

#[test]
fn flattening_keeps_what_is_placed() {
    let mut m = PointMap::new();
    let kept = Encoded { x: 1, y: 2, z: 3 };
    m.insert(CELL, kept);
    let onto = |g: i32, p: Point| Displacement {
        x: s(0.0),
        y: s(0.0),
        z: s((g - p.z) as f64),
    };
    flatten_fill_cell(CELL, &mut m, &|_c: Point| Some(10i32), &onto);
    assert_eq!(m.len(), 8);
    assert_eq!(m.get(CELL), Some(&kept));
    assert_eq!(m.get(Point::new(4, -2, 5)), Some(&Encoded { x: 126, y: 126, z: 131 }));
    assert_eq!(m.get(Point::new(4, -1, 6)), Some(&Encoded { x: 126, y: 126, z: 130 }));
}

#[test]
fn nothing_is_flattened_without_a_plane() {
    let mut m: PointMap<Encoded> = PointMap::new();
    let onto = |_g: i32, _p: Point| Displacement { x: s(0.0), y: s(0.0), z: s(0.0) };
    flatten_fill_cell(CELL, &mut m, &|_c: Point| None, &onto);
    assert!(m.is_empty());
}
