use voxelization::offset::{Displacement, Encoded};
use voxelization::scalar::Scalar;
use voxelization::snap::{
    calculate_vertex_offset, choose_target, closest, lowest_error_point_on_surface, Facet, Features,
    LatticePoint, SnapTarget, DEGENERATE_AREA, REACH, SHORTEST_WALK, WORST_ERROR,
};

fn s(v: f64) -> Scalar {
    Scalar::from_bits(v.to_bits())
}

fn three(a: f64, b: f64, c: f64) -> [Scalar; 3] {
    [s(a), s(b), s(c)]
}

fn facet(vertex_reach: f64, edge_reach: f64, area: f64) -> Facet {
    Facet {
        vertices: Features {
            distance: three(5.0, 3.0, 4.0),
            reach: three(0.0, vertex_reach, 0.0),
        },
        edges: Features { distance: three(2.0, 2.0, 1.0), reach: three(0.0, 0.0, edge_reach) },
        area: s(area),
    }
}

fn at(x: i64) -> LatticePoint {
    LatticePoint { x, y: 0, z: 0 }
}

#[test]
fn thresholds_are_the_doubles_they_name() {
    assert_eq!(REACH, 84.0f64.to_bits());
    assert_eq!(DEGENERATE_AREA, 1e-6f64.to_bits());
    assert_eq!(SHORTEST_WALK, 0.1f64.to_bits());
    assert_eq!(WORST_ERROR, f64::MAX.to_bits());
}

#[test]
fn the_first_of_the_least_is_closest() {
    assert_eq!(closest(&three(1.0, 2.0, 3.0)), 0);
    assert_eq!(closest(&three(2.0, 1.0, 3.0)), 1);
    assert_eq!(closest(&three(3.0, 2.0, 1.0)), 2);
    assert_eq!(closest(&three(1.0, 1.0, 1.0)), 0);
    assert_eq!(closest(&three(2.0, 1.0, 1.0)), 1);
    assert_eq!(closest(&three(0.0, -0.0, 1.0)), 0);
    assert_eq!(closest(&three(f64::INFINITY, f64::INFINITY, f64::MAX)), 2);
}

#[test]
fn the_nearest_vertex_comes_first() {
    assert_eq!(choose_target(&facet(83.99, 0.0, 1.0)), SnapTarget::Vertex(1));
}

#[test]
fn the_nearest_edge_comes_second() {
    assert_eq!(choose_target(&facet(84.0, 83.99, 1.0)), SnapTarget::Edge(2));
    assert_eq!(choose_target(&facet(f64::NAN, 0.0, 1.0)), SnapTarget::Edge(2));
}

#[test]
fn the_face_comes_last() {
    assert_eq!(choose_target(&facet(84.0, 84.0, 1.0)), SnapTarget::Face);
    assert_eq!(choose_target(&facet(84.0, 84.0, 1.1e-6)), SnapTarget::Face);
    assert_eq!(choose_target(&facet(84.0, 84.0, f64::NAN)), SnapTarget::Face);
}

#[test]
fn small_triangles_are_degenerate() {
    assert_eq!(choose_target(&facet(84.0, 84.0, 1e-6)), SnapTarget::Degenerate);
    assert_eq!(choose_target(&facet(84.0, 84.0, 0.0)), SnapTarget::Degenerate);
}

#[test]
fn edge_distances_do_not_matter_within_reach_of_a_vertex() {
    let mut f = facet(1.0, 0.0, 1.0);
    f.edges.distance = three(f64::NAN, f64::NAN, f64::NAN);
    assert_eq!(choose_target(&f), SnapTarget::Vertex(1));
}

#[test]
fn the_least_error_wins_and_the_first_of_equals() {
    let far = |_k: usize| s(10.0);
    let walk = |k: usize| vec![at(10 * k as i64), at(10 * k as i64 + 1), at(10 * k as i64 + 2)];
    let error = |q: LatticePoint| match q.x {
        1 | 11 => s(0.25),
        10 => s(f64::NAN),
        _ => s(0.5),
    };
    assert_eq!(lowest_error_point_on_surface(2, &far, &walk, &error), Some(at(1)));
    let later = |q: LatticePoint| if q.x == 12 { s(0.125) } else { error(q) };
    assert_eq!(lowest_error_point_on_surface(2, &far, &walk, &later), Some(at(12)));
    assert_eq!(lowest_error_point_on_surface(1, &far, &walk, &later), Some(at(1)));
}

#[test]
fn near_starts_are_skipped() {
    let gap = |k: usize| if k == 0 { s(0.09) } else { s(0.1) };
    let walk = |k: usize| vec![at(k as i64)];
    let error = |q: LatticePoint| s(q.x as f64);
    assert_eq!(lowest_error_point_on_surface(2, &gap, &walk, &error), Some(at(1)));
    assert_eq!(lowest_error_point_on_surface(1, &gap, &walk, &error), None);
}

#[test]
fn errors_that_are_no_numbers_never_win() {
    let far = |_k: usize| s(10.0);
    let walk = |_k: usize| vec![at(0), at(1)];
    let none = |_q: LatticePoint| s(f64::NAN);
    assert_eq!(lowest_error_point_on_surface(3, &far, &walk, &none), None);
    let worst = |_q: LatticePoint| s(f64::MAX);
    assert_eq!(lowest_error_point_on_surface(3, &far, &walk, &worst), None);
    assert_eq!(lowest_error_point_on_surface(0, &far, &walk, &|_q: LatticePoint| s(0.0)), None);
}

fn along_x(v: f64) -> Displacement {
    Displacement { x: s(v), y: s(126.0), z: s(126.75) }
}

fn snap(f: &Facet, starts: &[i64]) -> Encoded {
    let walk = |_g: u8, _t: SnapTarget, k: usize| {
        if k < starts.len() {
            vec![at(starts[k])]
        } else {
            vec![]
        }
    };
    calculate_vertex_offset(
        7u8,
        f,
        &|_g: u8, _t: SnapTarget, _k: usize| s(1.0),
        &walk,
        &|_g: u8, _t: SnapTarget, q: LatticePoint| s(q.x as f64),
        &|g: u8, t: SnapTarget| match t {
            SnapTarget::Vertex(k) => along_x(g as f64 + k as f64),
            SnapTarget::Edge(k) => along_x(100.0 + k as f64),
            SnapTarget::Degenerate => along_x(-4.0),
            SnapTarget::Face => along_x(300.0),
        },
        &|g: u8, q: LatticePoint| along_x(20.0 * g as f64 + q.x as f64),
    )
}

fn offset(x: u8) -> Encoded {
    Encoded { x, y: 126, z: 126 }
}

#[test]
fn vertices_are_snapped_to_as_they_are() {
    assert_eq!(snap(&facet(1.0, 1.0, 1.0), &[1, 2, 3]), offset(8));
}

#[test]
fn one_walk_leads_to_an_edge() {
    assert_eq!(snap(&facet(84.0, 1.0, 1.0), &[3, 2, 1]), offset(143));
    assert_eq!(snap(&facet(84.0, 1.0, 1.0), &[]), offset(102));
}

#[test]
fn three_walks_lead_to_a_face() {
    assert_eq!(snap(&facet(84.0, 84.0, 1.0), &[3, 2, 1]), offset(141));
    assert_eq!(snap(&facet(84.0, 84.0, 1.0), &[]), offset(252));
}

#[test]
fn no_walk_leads_to_a_degenerate_triangle() {
    assert_eq!(snap(&facet(84.0, 84.0, 0.0), &[3, 2, 1]), offset(0));
}

#[test]
fn further_starts_never_make_the_error_larger() {
    let gap = |k: usize| if k == 1 || k > 3 { s(0.05) } else { s(2.0) };
    let walk = |k: usize| vec![at(k as i64), at(20 - k as i64)];
    let error = |q: LatticePoint| s(((q.x - 17) * (q.x - 17)) as f64);
    let mut last = f64::INFINITY;
    for n in 1..8 {
        let best = lowest_error_point_on_surface(n, &gap, &walk, &error).unwrap();
        let e = f64::from_bits(error(best).bits);
        assert!(e <= last);
        last = e;
    }
    assert_eq!(last, 0.0);
    // The starts beyond the fourth are too near to change anything.
    let four = lowest_error_point_on_surface(4, &gap, &walk, &error);
    assert_eq!(lowest_error_point_on_surface(9, &gap, &walk, &error), four);
    // So is the second one.
    let one = lowest_error_point_on_surface(1, &gap, &walk, &error);
    assert_eq!(lowest_error_point_on_surface(2, &gap, &walk, &error), one);
}

#[test]
fn only_walks_from_far_starts_are_asked_for() {
    let gap = |k: usize| {
        assert!(k < 3);
        if k == 0 {
            s(0.0)
        } else {
            s(1.0)
        }
    };
    let walk = |k: usize| {
        assert!(k == 1 || k == 2);
        vec![at(k as i64)]
    };
    let error = |q: LatticePoint| {
        assert!(q == at(1) || q == at(2));
        s(q.x as f64)
    };
    assert_eq!(lowest_error_point_on_surface(3, &gap, &walk, &error), Some(at(1)));
}
