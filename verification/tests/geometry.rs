use voxelization::geometry::{neighbor_step, Point, RangeZYX, Vector};

#[test]
fn intersections_hold_the_common_points() {
    let a = RangeZYX { origin: Point::new(0, 0, 0), size: Vector::new(4, 5, 6) };
    let b = RangeZYX { origin: Point::new(2, -1, 3), size: Vector::new(10, 3, 1) };
    let c = a.intersection(&b);
    assert_eq!(c, RangeZYX { origin: Point::new(2, 0, 3), size: Vector::new(2, 2, 1) });
    assert_eq!(c.volume(), 4);
    assert_eq!(c, b.intersection(&a));
    for x in -2..13 {
        for y in -2..7 {
            for z in -2..7 {
                let p = Point::new(x, y, z);
                assert_eq!(c.contains(p), a.contains(p) && b.contains(p));
            }
        }
    }
}

#[test]
fn boxes_apart_have_no_common_points() {
    let a = RangeZYX::with_extent(Point::new(0, 0, 0), 4);
    let b = RangeZYX::with_extent(Point::new(4, 0, 0), 4);
    assert_eq!(a.intersection(&b).volume(), 0);
    let far = RangeZYX::with_extent(Point::new(i32::MIN, 0, 0), 1);
    assert_eq!(a.intersection(&far).volume(), 0);
}

#[test]
fn volumes_do_not_overflow() {
    let n = i32::MAX as u128;
    assert_eq!(RangeZYX::with_extent(Point::new(0, 0, 0), i32::MAX).volume(), n * n * n);
    assert_eq!(RangeZYX::with_extent(Point::new(0, 0, 0), 0).volume(), 0);
    assert_eq!(RangeZYX::with_extent(Point::new(7, 8, 9), 1).volume(), 1);
}

#[test]
fn octants_come_with_the_last_axis_fastest() {
    let r = RangeZYX::with_extent(Point::new(-8, 0, 8), 8);
    assert_eq!(r.split(0), RangeZYX::with_extent(Point::new(-8, 0, 8), 4));
    assert_eq!(r.split(1), RangeZYX::with_extent(Point::new(-8, 0, 12), 4));
    assert_eq!(r.split(2), RangeZYX::with_extent(Point::new(-8, 4, 8), 4));
    assert_eq!(r.split(4), RangeZYX::with_extent(Point::new(-4, 0, 8), 4));
    assert_eq!(r.split(7), RangeZYX::with_extent(Point::new(-4, 4, 12), 4));
    for k in 0..8 {
        let o = RangeZYX::offset(k);
        assert_eq!(4 * o.x + 2 * o.y + o.z, k as i32);
    }
}

#[test]
fn face_neighbors_come_in_pairs() {
    assert_eq!(neighbor_step(0), Vector::new(1, 0, 0));
    assert_eq!(neighbor_step(1), Vector::new(-1, 0, 0));
    assert_eq!(neighbor_step(2), Vector::new(0, 1, 0));
    assert_eq!(neighbor_step(3), Vector::new(0, -1, 0));
    assert_eq!(neighbor_step(4), Vector::new(0, 0, 1));
    assert_eq!(neighbor_step(5), Vector::new(0, 0, -1));
    assert_eq!(Point::new(1, 2, 3).shift(neighbor_step(3)), Point::new(1, 1, 3));
}
