use voxelization::geometry::{Point, RangeZYX};
use voxelization::svo::{Svo, SvoReturn};

fn sample() -> Svo<i32> {
    Svo::from_fn(Point::new(-2, 0, 2), 4, &|b: RangeZYX| {
        let target = Point::new(-1, 3, 2);
        if b.size.x > 1 && b.contains(target) {
            SvoReturn::Internal(b.size.x)
        } else {
            SvoReturn::Leaf(-b.size.x)
        }
    })
}

#[test]
fn trees_split_where_they_are_told_to() {
    let t = sample();
    assert_eq!(t.range, RangeZYX::with_extent(Point::new(-2, 0, 2), 4));
    assert_eq!(t.value, 4);
    let children = t.children.as_ref().unwrap();
    assert_eq!(children.len(), 8);
    for k in 0..8 {
        assert_eq!(children[k].range, t.range.split(k));
        assert_eq!(children[k].children.is_some(), k == 2);
    }
    assert_eq!(children[2].value, 2);
    assert_eq!(t.leaves().len(), 15);
}

#[test]
fn a_leaf_at_the_top_is_the_whole_tree() {
    let t = Svo::from_fn(Point::new(5, 6, 7), 1, &|_b: RangeZYX| SvoReturn::Leaf('x'));
    assert!(t.children.is_none());
    let leaves = t.leaves();
    assert_eq!(leaves.len(), 1);
    assert_eq!(leaves[0].range, t.range);
    assert_eq!(leaves[0].value, 'x');
}

#[test]
fn leaves_partition_the_box() {
    let t = sample();
    let leaves = t.leaves();
    for x in -3..3 {
        for y in -1..5 {
            for z in 1..7 {
                let p = Point::new(x, y, z);
                let n = leaves.iter().filter(|l| l.range.contains(p)).count();
                assert_eq!(n, t.range.contains(p) as usize);
            }
        }
    }
}

#[test]
fn mapping_keeps_the_shape() {
    let before = sample().leaves();
    let t = sample().into_map(&|v: i32| (v * 10) as i64);
    assert_eq!(t.value, 40);
    let after = t.leaves();
    assert_eq!(after.len(), before.len());
    for k in 0..after.len() {
        assert_eq!(after[k].range, before[k].range);
        assert_eq!(after[k].value, before[k].value as i64 * 10);
    }
}
