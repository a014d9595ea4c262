use std::cell::RefCell;
use std::sync::Arc;
use voxelization::geometry::{Point, RangeZYX};
use voxelization::svo::Svo;
use voxelization::voxelizer::{plan_chunk, ChunkTask, Voxelizer};

/// Voxelizes a single point as a mesh; the data of a chunk is the number of its task.
fn lods(target: Point, origin: Point, height: usize) -> (Svo<Option<usize>>, Vec<ChunkTask>) {
    let started = RefCell::new(Vec::new());
    let waited = RefCell::new(0usize);
    let v = Voxelizer::new("placement", target);
    let tree = v.create_lods(
        origin,
        height,
        42,
        3,
        &|i: &&str, m: &Point, b: RangeZYX| {
            assert_eq!(*i, "placement");
            b.contains(*m)
        },
        &|_i: &Arc<&str>, m: &Arc<Point>, t: ChunkTask| {
            assert_eq!(**m, target);
            assert_eq!(*waited.borrow(), 0);
            started.borrow_mut().push(t);
            started.borrow().len()
        },
        &|n: usize| {
            *waited.borrow_mut() += 1;
            if n == 2 {
                None
            } else {
                Some(n)
            }
        },
    );
    assert_eq!(*waited.borrow(), started.borrow().len());
    (tree, started.into_inner())
}

#[test]
fn every_level_of_a_chunk_is_voxelized() {
    let (tree, tasks) = lods(Point::new(2, -3, 1), Point::new(0, -4, 0), 2);
    assert_eq!(tasks.len(), 3);
    assert_eq!(tree.range, RangeZYX::with_extent(Point::new(0, -4, 0), 4));
    assert_eq!(tree.value, Some(1));
    for (k, t) in tasks.iter().enumerate() {
        assert_eq!((t.material, t.smooth), (42, 3));
        assert_eq!(t.is_lod, k < 2);
    }
    assert_eq!(tasks[0].voxel_origin, Point::new(0, -32, 0));
    assert_eq!(tasks[1].range, RangeZYX::with_extent(Point::new(2, -4, 0), 2));
    assert_eq!(tasks[1].voxel_origin, Point::new(32, -64, 0));
    assert_eq!(tasks[2].range, RangeZYX::with_extent(Point::new(2, -3, 1), 1));
    assert_eq!(tasks[2].voxel_origin, Point::new(64, -96, 32));
}

#[test]
fn chunks_without_data_are_none() {
    let (tree, _tasks) = lods(Point::new(2, -3, 1), Point::new(0, -4, 0), 2);
    let children = tree.children.as_ref().unwrap();
    // The second task found nothing, but its chunk is split all the same.
    assert_eq!(children[4].value, None);
    let finest = children[4].children.as_ref().unwrap();
    assert_eq!(finest[3].value, Some(3));
    assert!(finest[3].children.is_none());
}

#[test]
fn coarse_leaves_have_no_data() {
    let (tree, _tasks) = lods(Point::new(2, -3, 1), Point::new(0, -4, 0), 2);
    let leaves = tree.leaves();
    assert_eq!(leaves.len(), 15);
    for l in leaves {
        if l.range.size.x != 1 {
            assert_eq!(l.value, None);
        }
    }
}

#[test]
fn a_mesh_elsewhere_gives_one_empty_leaf() {
    let (tree, tasks) = lods(Point::new(100, 0, 0), Point::new(0, 0, 0), 3);
    assert!(tasks.is_empty());
    assert!(tree.children.is_none());
    assert_eq!(tree.value, None);
    assert_eq!(tree.range.size.x, 8);
}

#[test]
fn a_single_chunk_is_the_finest_level() {
    let (tree, tasks) = lods(Point::new(5, 6, 7), Point::new(5, 6, 7), 0);
    assert_eq!(tasks.len(), 1);
    assert!(!tasks[0].is_lod);
    assert!(tree.children.is_none());
    assert_eq!(tree.value, Some(1));
}

#[test]
fn cells_of_a_chunk_are_rounded_towards_zero() {
    let b = RangeZYX::with_extent(Point::new(1, -1, 3), 64);
    assert_eq!(plan_chunk(&b, 0, 0).voxel_origin, Point::new(0, 0, 1));
    let c = RangeZYX::with_extent(Point::new(-3, 5, 0), 2);
    assert_eq!(plan_chunk(&c, 0, 0).voxel_origin, Point::new(-48, 80, 0));
}

#[test]
fn cells_are_halved_from_level_to_level() {
    let b = RangeZYX::with_extent(Point::new(-8, 4, 16), 4);
    let o = plan_chunk(&b, 0, 0).voxel_origin;
    for k in 0..8 {
        let c = plan_chunk(&b.split(k), 0, 0).voxel_origin;
        let d = RangeZYX::offset(k);
        let expected = Point::new(2 * o.x + 32 * d.x, 2 * o.y + 32 * d.y, 2 * o.z + 32 * d.z);
        assert_eq!(c, expected);
    }
}

#[test]
fn only_chunks_that_the_mesh_meets_need_cells() {
    // The far chunks of this tree have no cells with 32-bit coordinates.
    let (tree, tasks) = lods(Point::new(0, 0, 0), Point::new(0, 0, 0), 30);
    assert_eq!(tree.range.size.x, 1 << 30);
    assert_eq!(tasks.len(), 31);
    assert_eq!(tasks[30].range, RangeZYX::with_extent(Point::new(0, 0, 0), 1));
}

#[test]
fn coarse_chunks_reach_as_far_as_their_corners() {
    let b = RangeZYX::with_extent(Point::new(-67108864, 67108862, 0), 2);
    let t = plan_chunk(&b, 0, 0);
    assert_eq!(t.voxel_origin, Point::new(-1073741824, 1073741792, 0));
}

/// Voxelizes a point, where the data of a chunk tell its task.
fn told(material: u64, smooth: u32) -> Svo<Option<ChunkTask>> {
    Voxelizer::new((), Point::new(3, 1, 6)).create_lods(
        Point::new(0, 0, 0),
        3,
        material,
        smooth,
        &|_i: &(), m: &Point, b: RangeZYX| b.contains(*m),
        &|_i: &Arc<()>, _m: &Arc<Point>, t: ChunkTask| t,
        &|t: ChunkTask| Some(t),
    )
}

#[test]
fn material_and_smoothing_keep_the_shape() {
    let a = told(1, 0).leaves();
    let b = told(2, 5).leaves();
    assert_eq!(a.len(), b.len());
    for k in 0..a.len() {
        assert_eq!(a[k].range, b[k].range);
        assert_eq!(a[k].value.is_some(), b[k].value.is_some());
        if let (Some(x), Some(y)) = (a[k].value, b[k].value) {
            assert_eq!((x.material, y.material, x.smooth, y.smooth), (1, 2, 0, 5));
            assert_eq!(ChunkTask { material: 2, smooth: 5, ..x }, y);
        }
    }
}
