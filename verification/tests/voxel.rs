use voxelization::geometry::{Point, RangeZYX};
use voxelization::svo::SvoReturn;
use voxelization::voxel::{classify, voxelize, Voxel};

fn unit() -> RangeZYX {
    RangeZYX::with_extent(Point::new(0, 0, 0), 1)
}

fn everything() -> RangeZYX {
    RangeZYX::with_extent(Point::new(-100, -100, -100), 200)
}

fn vote(n: usize) -> Voxel {
    match classify(unit(), &everything(), &|_b: RangeZYX| false, &|_b: RangeZYX, k: usize| k < n) {
        SvoReturn::Leaf(v) => v,
        SvoReturn::Internal(_) => panic!("a box apart from the surface is a leaf"),
    }
}

#[test]
fn seven_samples_make_an_inside_box() {
    assert_eq!(vote(0), Voxel::External);
    assert_eq!(vote(6), Voxel::External);
    assert_eq!(vote(7), Voxel::Internal);
    assert_eq!(vote(9), Voxel::Internal);
}

#[test]
fn the_center_makes_a_boundary_cell_significant() {
    let hit = |_b: RangeZYX| true;
    let t = classify(unit(), &everything(), &hit, &|_b: RangeZYX, k: usize| k == 0);
    assert!(matches!(t, SvoReturn::Leaf(Voxel::Boundry(true))));
    let t = classify(unit(), &everything(), &hit, &|_b: RangeZYX, k: usize| k != 0);
    assert!(matches!(t, SvoReturn::Leaf(Voxel::Boundry(false))));
}

#[test]
fn larger_boundary_boxes_are_split() {
    let b = RangeZYX::with_extent(Point::new(0, 0, 0), 2);
    let t = classify(b, &everything(), &|_b: RangeZYX| true, &|_b: RangeZYX, _k: usize| true);
    assert!(matches!(t, SvoReturn::Internal(Voxel::Boundry(false))));
}

#[test]
fn clipped_boxes_are_external_unasked() {
    let clip = RangeZYX::with_extent(Point::new(1, 0, 0), 5);
    let asked = |_b: RangeZYX| -> bool { panic!("nothing is asked of a clipped box") };
    let t = classify(unit(), &clip, &asked, &|_b: RangeZYX, _k: usize| true);
    assert!(matches!(t, SvoReturn::Leaf(Voxel::External)));
}

#[test]
fn a_plane_splits_a_cube() {
    // The mesh is the half space x < 2.25.
    let hit = |b: RangeZYX| {
        b.origin.x as f64 <= 2.25 && 2.25 <= (b.origin.x + b.size.x) as f64
    };
    let inside = |b: RangeZYX, k: usize| {
        let at = match k {
            0 => b.size.x as f64 / 2.0,
            k => (b.size.x * ((k - 1) / 4) as i32) as f64,
        };
        b.origin.x as f64 + at < 2.25
    };
    let t = voxelize(Point::new(0, 0, 0), 4, &everything(), &hit, &inside);
    let leaves = t.leaves();
    for l in leaves.iter() {
        let expected = match l.range.origin.x {
            0 => Voxel::Internal,
            2 => Voxel::Boundry(false),
            3 => Voxel::External,
            x => panic!("no leaf starts at {}", x),
        };
        assert_eq!(l.value, expected);
        if expected == Voxel::Boundry(false) {
            assert_eq!(l.range.volume(), 1);
        }
    }
    assert_eq!(leaves.len(), 4 + 32);
}

#[test]
fn nine_samples_are_asked_for() {
    let inside = |_b: RangeZYX, k: usize| {
        assert!(k < 9);
        true
    };
    let t = classify(unit(), &everything(), &|_b: RangeZYX| false, &inside);
    assert!(matches!(t, SvoReturn::Leaf(Voxel::Internal)));
}
