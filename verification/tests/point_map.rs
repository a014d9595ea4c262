use voxelization::geometry::Point;
use voxelization::point_map::{PointMap, PointSet};

#[test]
fn maps_keep_the_order_of_their_keys() {
    let mut m: PointMap<u8> = PointMap::new();
    assert!(m.is_empty());
    let a = Point::new(i32::MIN, 0, i32::MAX);
    let b = Point::new(0, 0, 0);
    let c = Point::new(-1, -1, -1);
    m.insert(a, 1);
    m.insert(b, 2);
    m.insert(c, 3);
    m.insert(a, 4);
    assert_eq!(m.len(), 3);
    assert!(!m.is_empty());
    assert_eq!(m.key_list(), vec![a, b, c]);
    assert_eq!(m.entry(0), (a, &4));
    assert_eq!(m.get(b), Some(&2));
    assert_eq!(m.get(Point::new(0, 0, 1)), None);
    assert!(m.contains(c));
}

#[test]
fn nearby_points_are_told_apart() {
    let mut s: PointSet = PointMap::new();
    for x in -3..3 {
        for y in -3..3 {
            for z in -3..3 {
                assert!(!s.contains(Point::new(x, y, z)));
                s.insert(Point::new(x, y, z), ());
            }
        }
    }
    assert_eq!(s.len(), 216);
}

#[test]
fn lists_grow_at_their_ends() {
    let mut m: PointMap<Vec<u8>> = PointMap::new();
    let p = Point::new(1, 2, 3);
    m.append(p, 7);
    m.append(Point::new(0, 0, 0), 1);
    m.append(p, 8);
    assert_eq!(m.get(p), Some(&vec![7, 8]));
    assert_eq!(m.get(Point::new(0, 0, 0)), Some(&vec![1]));
    assert_eq!(m.len(), 2);
}
