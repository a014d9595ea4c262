use voxelization::geometry::Point;
use voxelization::neighbors::{
    gather_neighbors, neighbor_average, relax_surface_vertices, snap_in_order, Neighborhood,
};
use voxelization::offset::{Displacement, Encoded};
use voxelization::point_map::PointMap;
use voxelization::scalar::Scalar;

fn along_x(v: f64) -> Displacement {
    let zero = Scalar::from_bits(0.0f64.to_bits());
    Displacement { x: Scalar::from_bits(v.to_bits()), y: zero, z: zero }
}

fn offset(x: u8) -> Encoded {
    Encoded { x, y: 126, z: 126 }
}

fn on_line(xs: &[(i32, u8)]) -> PointMap<Encoded> {
    let mut m = PointMap::new();
    for (x, e) in xs {
        m.insert(Point::new(*x, 0, 0), offset(*e));
    }
    m
}

fn at(x: i32) -> Point {
    Point::new(x, 0, 0)
}

/// The mean of the offsets of the placed neighbors.
fn mean(n: &Neighborhood) -> f64 {
    let all = [n.plus_x, n.minus_x, n.plus_y, n.minus_y, n.plus_z, n.minus_z];
    let placed: Vec<f64> = all.iter().flatten().map(|e| e.x as f64 - 126.0).collect();
    placed.iter().sum::<f64>() / placed.len() as f64
}

#[test]
fn neighbors_are_told_apart() {
    let mut m = PointMap::new();
    let p = Point::new(5, 5, 5);
    m.insert(Point::new(6, 5, 5), offset(1));
    m.insert(Point::new(4, 5, 5), offset(2));
    m.insert(Point::new(5, 4, 5), offset(3));
    m.insert(Point::new(5, 5, 6), offset(4));
    m.insert(Point::new(6, 6, 5), offset(9));
    let n = gather_neighbors(&m, p);
    assert_eq!(n.plus_x, Some(offset(1)));
    assert_eq!(n.minus_x, Some(offset(2)));
    assert_eq!(n.plus_y, None);
    assert_eq!(n.minus_y, Some(offset(3)));
    assert_eq!(n.plus_z, Some(offset(4)));
    assert_eq!(n.minus_z, None);
    assert_eq!(n.count(), 4);
}

#[test]
fn two_neighbors_make_an_average() {
    let average = |_p: Point, n: Neighborhood| along_x(mean(&n));
    assert_eq!(neighbor_average(&on_line(&[]), at(0), &average), None);
    assert_eq!(neighbor_average(&on_line(&[(1, 130)]), at(0), &average), None);
    let two = on_line(&[(1, 130), (-1, 140)]);
    assert_eq!(neighbor_average(&two, at(0), &average), Some(offset(135)));
}

#[test]
fn a_pass_counts_what_it_has_placed() {
    let on = |a: i32, b: i32| Point::new(a, b, 0);
    let mut m = PointMap::new();
    m.insert(on(0, 1), offset(100));
    m.insert(on(2, 1), offset(120));
    m.insert(on(2, 2), offset(130));
    let average = |_p: Point, n: Neighborhood| along_x(mean(&n));
    let closest = |_p: Point| along_x(77.0);
    snap_in_order(&mut m, vec![on(1, 1), on(1, 2), on(0, 2)], &average, &closest);
    assert_eq!(m.get(on(1, 1)), Some(&offset(110)));
    assert_eq!(m.get(on(1, 2)), Some(&offset(120)));
    assert_eq!(m.get(on(0, 2)), Some(&offset(110)));
}

#[test]
fn points_that_wait_for_each_other_end_up_on_the_surface() {
    let on = |a: i32, b: i32| Point::new(a, b, 0);
    let mut m = PointMap::new();
    m.insert(on(0, 1), offset(100));
    m.insert(on(1, 1), offset(120));
    let average = |_p: Point, n: Neighborhood| along_x(mean(&n));
    let closest = |_p: Point| along_x(77.0);
    snap_in_order(&mut m, vec![on(0, 2), on(1, 2), on(9, 9)], &average, &closest);
    for p in [on(0, 2), on(1, 2), on(9, 9)] {
        assert_eq!(m.get(p), Some(&offset(203)));
    }
    assert_eq!(m.get(on(0, 1)), Some(&offset(100)));
}

#[test]
fn passes_go_on_until_nothing_changes() {
    let mut m = on_line(&[(0, 100)]);
    for x in 0..5 {
        m.insert(Point::new(x, 1, 0), offset(100));
    }
    let average = |_p: Point, n: Neighborhood| along_x(mean(&n) + 2.0);
    let closest = |_p: Point| along_x(77.0);
    // Visited from the far end, the points are placed one pass after the other.
    snap_in_order(&mut m, vec![at(4), at(3), at(2), at(1)], &average, &closest);
    assert_eq!(m.get(at(1)), Some(&offset(102)));
    assert_eq!(m.get(at(2)), Some(&offset(103)));
    assert_eq!(m.get(at(3)), Some(&offset(103)));
    assert_eq!(m.get(at(4)), Some(&offset(103)));
}

#[test]
fn the_order_does_not_decide_who_is_placed_by_neighbors() {
    let average = |_p: Point, n: Neighborhood| along_x(mean(&n));
    let closest = |_p: Point| along_x(-200.0);
    let points = [at(1), at(2), at(3), at(7), at(8)];
    let start = || {
        let mut m = on_line(&[(0, 100), (4, 120)]);
        m.insert(Point::new(1, 1, 0), offset(90));
        m.insert(Point::new(3, -1, 0), offset(110));
        m
    };
    let mut forward = start();
    snap_in_order(&mut forward, points.to_vec(), &average, &closest);
    let mut backward = start();
    snap_in_order(&mut backward, points.iter().rev().copied().collect(), &average, &closest);
    for p in points {
        // Only the surface is as far away as the lowest offset.
        assert_eq!(forward.get(p) == Some(&offset(0)), backward.get(p) == Some(&offset(0)));
    }
    assert_eq!(forward.get(at(7)), Some(&offset(0)));
    assert_eq!(forward.get(at(2)), Some(&offset(105)));
}

#[test]
fn unset_points_are_placed_and_placed_ones_stay() {
    let mut m = on_line(&[(0, 100), (2, 120)]);
    let average = |_p: Point, n: Neighborhood| along_x(mean(&n));
    snap_in_order(&mut m, vec![at(1), at(5)], &average, &|_p: Point| along_x(0.0));
    assert_eq!(m.key_list(), vec![at(0), at(2), at(1), at(5)]);
    assert_eq!(m.get(at(0)), Some(&offset(100)));
    assert_eq!(m.get(at(2)), Some(&offset(120)));
    assert_eq!(m.get(at(1)), Some(&offset(110)));
    assert_eq!(m.get(at(5)), Some(&offset(126)));
}

#[test]
fn relaxation_sees_the_vertices_as_they_stood() {
    let halfway = |_p: Point, e: Encoded, n: Neighborhood| {
        let own = e.x as f64 - 126.0;
        along_x(own + (mean(&n) - own) * 0.5)
    };
    let mut m = on_line(&[(0, 100), (1, 120), (2, 100), (9, 50)]);
    relax_surface_vertices(&mut m, &halfway, 1);
    assert_eq!(m.get(at(0)), Some(&offset(110)));
    assert_eq!(m.get(at(1)), Some(&offset(110)));
    assert_eq!(m.get(at(2)), Some(&offset(110)));
    // A vertex without neighbors does not move.
    assert_eq!(m.get(at(9)), Some(&offset(50)));
    assert_eq!(m.len(), 4);
}

#[test]
fn relaxation_is_repeated() {
    let next = |_p: Point, e: Encoded, _n: Neighborhood| along_x(e.x as f64 - 126.0 + 1.0);
    let mut m = on_line(&[(0, 100), (1, 120)]);
    relax_surface_vertices(&mut m, &next, 0);
    assert_eq!(m.get(at(0)), Some(&offset(100)));
    relax_surface_vertices(&mut m, &next, 5);
    assert_eq!(m.get(at(0)), Some(&offset(105)));
    assert_eq!(m.get(at(1)), Some(&offset(125)));
}
