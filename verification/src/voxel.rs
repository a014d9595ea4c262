//! Which cells of a chunk lie inside, outside or on the surface.
use crate::geometry::{Point, RangeZYX};
use crate::probe::{agrees1, agrees2};
use crate::svo::{
    cube, leaves_by, lemma_every_node_weaken, lemma_leaves_by, lemma_leaves_of_every_node,
    may_be_node, power_of_two, Svo, SvoLeaf, SvoReturn,
};
use vstd::prelude::*;

verus! {

/// What is known of a box of cells. A cell on the boundary is significant where its center lies
/// in the mesh.
#[derive(Clone, Copy, Debug, PartialEq, Eq, Structural)]
pub enum Voxel {
    Internal,
    External,
    Boundry(bool),
}

/// The sample points of a box: its center and its eight vertices.
pub const SAMPLES: usize = 9;

/// The sample point in the center of a box.
pub const CENTER: usize = 0;

/// So many samples inside make a box that the surface does not meet an inside one. Most of them
/// are asked for, since empty internals are better than random floating cubes.
pub const QUORUM: u32 = 7;

/// How many of the first `k` samples of `b` lie in the mesh.
pub open spec fn inside_count(
    inside: spec_fn(RangeZYX, usize) -> bool,
    b: RangeZYX,
    k: nat,
) -> nat
    decreases k,
{
    if k == 0 {
        0
    } else {
        inside_count(inside, b, (k - 1) as nat) + if inside(b, (k - 1) as usize) {
            1nat
        } else {
            0nat
        }
    }
}

/// What becomes of the box `b`: `hit` says whether the surface meets a box, and `inside` whether
/// a sample of a box lies in the mesh.
pub open spec fn classification(
    b: RangeZYX,
    clip: RangeZYX,
    hit: spec_fn(RangeZYX) -> bool,
    inside: spec_fn(RangeZYX, usize) -> bool,
) -> SvoReturn<Voxel> {
    if b.disjoint(clip) {
        SvoReturn::Leaf(Voxel::External)
    } else if !hit(b) {
        if inside_count(inside, b, SAMPLES as nat) >= QUORUM {
            SvoReturn::Leaf(Voxel::Internal)
        } else {
            SvoReturn::Leaf(Voxel::External)
        }
    } else if b.count() == 1 {
        SvoReturn::Leaf(Voxel::Boundry(inside(b, CENTER)))
    } else {
        SvoReturn::Internal(Voxel::Boundry(false))
    }
}

/// The leaves of the octree over the cube of side `extent` at `origin`.
pub open spec fn classified_leaves(
    origin: Point,
    extent: int,
    clip: RangeZYX,
    hit: spec_fn(RangeZYX) -> bool,
    inside: spec_fn(RangeZYX, usize) -> bool,
) -> Seq<SvoLeaf<Voxel>> {
    leaves_by(cube(origin, extent), |b: RangeZYX| classification(b, clip, hit, inside))
}

/// What holds of a classified box whatever is answered about it: boxes outside of the clip range
/// are external, a leaf on the boundary is a single cell, and only boundary boxes of more than
/// one cell are split.
pub open spec fn well_classified(b: RangeZYX, clip: RangeZYX, t: SvoReturn<Voxel>) -> bool {
    match t {
        SvoReturn::Leaf(v) => {
            &&& b.disjoint(clip) ==> v == Voxel::External
            &&& v is Boundry ==> b.count() == 1
        },
        SvoReturn::Internal(v) => !b.disjoint(clip) && b.count() != 1 && v == Voxel::Boundry(false),
    }
}

/// A leaf is a single cell if it lies on the boundary, and external if it lies outside of the
/// clip range.
pub open spec fn well_classified_leaf(l: SvoLeaf<Voxel>, clip: RangeZYX) -> bool {
    well_classified(l.range, clip, SvoReturn::Leaf(l.value))
}

/// What has to be known of the box `b` to classify it may be asked: nothing if it lies outside of
/// the clip range.
pub open spec fn can_classify<H: Fn(RangeZYX) -> bool, S: Fn(RangeZYX, usize) -> bool>(
    b: RangeZYX,
    clip: RangeZYX,
    intersects: H,
    sample_inside: S,
) -> bool {
    !b.disjoint(clip) ==> {
        &&& call_requires(intersects, (b,))
        &&& forall|k: usize| k < SAMPLES ==> #[trigger] call_requires(sample_inside, (b, k))
    }
}

/// Counts the samples of `b` that lie in the mesh.
fn count_inside<S: Fn(RangeZYX, usize) -> bool>(b: RangeZYX, sample_inside: &S) -> (n: u32)
    requires
        forall|k: usize| k < SAMPLES ==> #[trigger] call_requires(*sample_inside, (b, k)),
    ensures
        n <= SAMPLES,
        forall|inside: spec_fn(RangeZYX, usize) -> bool| #[trigger]
            agrees2(*sample_inside, inside) ==> n == inside_count(inside, b, SAMPLES as nat),
{
    let mut n: u32 = 0;
    for k in 0usize..SAMPLES
        invariant
            n <= k,
            forall|k: usize| k < SAMPLES ==> #[trigger] call_requires(*sample_inside, (b, k)),
            forall|inside: spec_fn(RangeZYX, usize) -> bool| #[trigger]
                agrees2(*sample_inside, inside) ==> n == inside_count(inside, b, k as nat),
    {
        if sample_inside(b, k) {
            n = n + 1;
        }
    }
    n
}

/// Classifies one box.
pub fn classify<H: Fn(RangeZYX) -> bool, S: Fn(RangeZYX, usize) -> bool>(
    b: RangeZYX,
    clip_range: &RangeZYX,
    intersects: &H,
    sample_inside: &S,
) -> (t: SvoReturn<Voxel>)
    requires
        b.valid(),
        clip_range.valid(),
        can_classify(b, *clip_range, *intersects, *sample_inside),
    ensures
        well_classified(b, *clip_range, t),
        forall|hit: spec_fn(RangeZYX) -> bool, inside: spec_fn(RangeZYX, usize) -> bool|
            #[trigger] agrees1(*intersects, hit) && #[trigger] agrees2(*sample_inside, inside)
                ==> t == classification(b, *clip_range, hit, inside),
{
    let common: RangeZYX = b.intersection(clip_range);
    let common_volume: u128 = common.volume();
    proof {
        assert(common_volume == 0 <==> b.disjoint(*clip_range)) by {
            if b.disjoint(*clip_range) {
                assert forall|p: Point| !common.has(p) by {
                    assert(!(b.has(p) && clip_range.has(p)));
                }
            } else {
                let p = choose|p: Point| #[trigger] b.has(p) && clip_range.has(p);
                assert(common.has(p));
            }
        }
    }
    if common_volume == 0 {
        return SvoReturn::Leaf(Voxel::External);
    }
    if !intersects(b) {
        if count_inside(b, sample_inside) >= QUORUM {
            SvoReturn::Leaf(Voxel::Internal)
        } else {
            SvoReturn::Leaf(Voxel::External)
        }
    } else if b.volume() == 1 {
        SvoReturn::Leaf(Voxel::Boundry(sample_inside(b, CENTER)))
    } else {
        SvoReturn::Internal(Voxel::Boundry(false))
    }
}

/// Classifies the cells of the cube of side `extent` at `origin`, as an octree whose boxes are
/// split only where the surface meets them. `intersects` says whether the surface meets a box,
/// and `sample_inside` whether a sample of a box lies in the mesh.
pub fn voxelize<H: Fn(RangeZYX) -> bool, S: Fn(RangeZYX, usize) -> bool>(
    origin: Point,
    extent: usize,
    clip_range: &RangeZYX,
    intersects: &H,
    sample_inside: &S,
) -> (r: Svo<Voxel>)
    requires
        extent <= i32::MAX,
        power_of_two(extent as int),
        origin.x + extent <= i32::MAX,
        origin.y + extent <= i32::MAX,
        origin.z + extent <= i32::MAX,
        clip_range.valid(),
        forall|b: RangeZYX|
            may_be_node(cube(origin, extent as int), b) ==> #[trigger] can_classify(
                b,
                *clip_range,
                *intersects,
                *sample_inside,
            ),
    ensures
        r.wf(),
        r.range == cube(origin, extent as int),
        r.every_node(|b: RangeZYX, t: SvoReturn<Voxel>| well_classified(b, *clip_range, t)),
        forall|i: int|
            0 <= i < r.leaf_seq().len() ==> well_classified_leaf(
                #[trigger] r.leaf_seq()[i],
                *clip_range,
            ),
        forall|hit: spec_fn(RangeZYX) -> bool, inside: spec_fn(RangeZYX, usize) -> bool|
            #[trigger] agrees1(*intersects, hit) && #[trigger] agrees2(*sample_inside, inside)
                ==> r.every_node(
                |b: RangeZYX, t: SvoReturn<Voxel>|
                    t == classification(b, *clip_range, hit, inside),
            ) && r.leaf_seq() == classified_leaves(
                origin,
                extent as int,
                *clip_range,
                hit,
                inside,
            ),
{
    let clip: RangeZYX = *clip_range;
    let f = |b: RangeZYX| -> (t: SvoReturn<Voxel>)
        requires
            may_be_node(cube(origin, extent as int), b),
        ensures
            b.size.x > 1 || t is Leaf,
            well_classified(b, clip, t),
            forall|hit: spec_fn(RangeZYX) -> bool, inside: spec_fn(RangeZYX, usize) -> bool|
                #[trigger] agrees1(*intersects, hit) && #[trigger] agrees2(*sample_inside, inside)
                    ==> t == classification(b, clip, hit, inside),
        {
            let t: SvoReturn<Voxel> = classify(b, &clip, intersects, sample_inside);
            proof {
                lemma_single_cell(b);
            }
            t
        };
    let r: Svo<Voxel> = Svo::from_fn(origin, extent, &f);
    proof {
        let built = |b: RangeZYX, t: SvoReturn<Voxel>| call_ensures(f, (b,), t);
        let placed = |b: RangeZYX, t: SvoReturn<Voxel>| well_classified(b, *clip_range, t);
        lemma_every_node_weaken(r, built, placed);
        lemma_leaves_of_every_node(r, placed);
        assert forall|i: int| 0 <= i < r.leaf_seq().len() implies well_classified_leaf(
            #[trigger] r.leaf_seq()[i],
            *clip_range,
        ) by {
            let l = r.leaf_seq()[i];
            assert(placed(l.range, SvoReturn::Leaf(l.value)));
        }
        assert forall|hit: spec_fn(RangeZYX) -> bool, inside: spec_fn(RangeZYX, usize) -> bool|
            #[trigger] agrees1(*intersects, hit) && #[trigger] agrees2(
                *sample_inside,
                inside,
            ) implies r.every_node(
            |b: RangeZYX, t: SvoReturn<Voxel>| t == classification(b, *clip_range, hit, inside),
        ) && r.leaf_seq() == classified_leaves(
            origin,
            extent as int,
            *clip_range,
            hit,
            inside,
        ) by {
            let g = |b: RangeZYX| classification(b, *clip_range, hit, inside);
            let same = |b: RangeZYX, t: SvoReturn<Voxel>|
                t == classification(b, *clip_range, hit, inside);
            lemma_every_node_weaken(r, built, same);
            lemma_every_node_weaken(r, same, |b: RangeZYX, t: SvoReturn<Voxel>| t == g(b));
            lemma_leaves_by(r, g);
        }
    }
    r
}

/// A cube with points holds one of them only if its side is one.
proof fn lemma_single_cell(b: RangeZYX)
    requires
        b.fits(),
        b.is_cube(b.size.x as int),
        power_of_two(b.size.x as int),
    ensures
        b.count() == 1 <==> b.size.x == 1,
{
    let n = b.size.x as int;
    assert(n * n * n == 1 <==> n == 1) by (nonlinear_arith)
        requires
            n >= 1,
    ;
}

} // verus!
