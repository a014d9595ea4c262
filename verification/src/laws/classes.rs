//! Which cells lie inside, outside or on the boundary, by the samples of their boxes.
use crate::geometry::{Point, RangeZYX};
use crate::svo::{
    cube, leaves_by, lemma_octant_is_node, lemma_octants_partition, may_be_node,
    octant_leaves_by, SvoReturn,
};
use crate::voxel::{classification, classified_leaves, inside_count, Voxel};
use vstd::prelude::*;

verus! {

/// The samples of `b` that lie in the mesh, of the first `n`.
pub open spec fn samples_inside(
    inside: spec_fn(RangeZYX, usize) -> bool,
    b: RangeZYX,
    n: usize,
) -> Set<usize> {
    Set::new(|k: usize| k < n && inside(b, k))
}

/// Both boxes hold a common point.
pub open spec fn meet(a: RangeZYX, b: RangeZYX) -> bool {
    exists|p: Point| #[trigger] a.has(p) && b.has(p)
}

/// The box is a single cell.
pub open spec fn is_single(b: RangeZYX) -> bool {
    b.size.x == 1 && b.size.y == 1 && b.size.z == 1
}

/// The samples are counted, each once.
pub proof fn samples_are_counted(
    inside: spec_fn(RangeZYX, usize) -> bool,
    b: RangeZYX,
    n: usize,
)
    ensures
        samples_inside(inside, b, n).finite(),
        inside_count(inside, b, n as nat) == samples_inside(inside, b, n).len(),
    decreases n,
{
    let s = samples_inside(inside, b, n);
    if n == 0 {
        assert(s =~= Set::<usize>::empty());
    } else {
        let k = (n - 1) as usize;
        samples_are_counted(inside, b, k);
        let t = samples_inside(inside, b, k);
        if inside(b, k) {
            assert(s =~= t.insert(k));
        } else {
            assert(s =~= t);
        }
    }
}

/// What becomes of a box. Outside of the clip range it is external. One of any size that the
/// surface does not meet is inside if at least seven of its nine samples are, else outside. One
/// that the surface meets is split, down to the single cell, which is significant exactly if its
/// center lies in the mesh.
pub proof fn boxes_become_what_their_samples_say(
    b: RangeZYX,
    clip: RangeZYX,
    hit: spec_fn(RangeZYX) -> bool,
    inside: spec_fn(RangeZYX, usize) -> bool,
)
    requires
        b.valid(),
    ensures
        ({
            let t = classification(b, clip, hit, inside);
            let votes = samples_inside(inside, b, 9).len();
            &&& !meet(b, clip) ==> t == SvoReturn::Leaf(Voxel::External)
            &&& meet(b, clip) && !hit(b) && votes >= 7 ==> t == SvoReturn::Leaf(Voxel::Internal)
            &&& meet(b, clip) && !hit(b) && votes < 7 ==> t == SvoReturn::Leaf(Voxel::External)
            &&& meet(b, clip) && hit(b) && is_single(b) ==> t == SvoReturn::Leaf(
                Voxel::Boundry(inside(b, 0)),
            )
            &&& meet(b, clip) && hit(b) && !is_single(b) ==> t == SvoReturn::Internal(
                Voxel::Boundry(false),
            )
        }),
{
    samples_are_counted(inside, b, 9);
    let (x, y, z) = (b.size.x as int, b.size.y as int, b.size.z as int);
    assert(x * y * z == 1 <==> x == 1 && y == 1 && z == 1) by (nonlinear_arith)
        requires
            x >= 0,
            y >= 0,
            z >= 0,
    ;
    if meet(b, clip) {
        let p = choose|p: Point| #[trigger] b.has(p) && clip.has(p);
        assert(!b.disjoint(clip));
    }
}

/// The box is one half of `c` along each axis.
pub open spec fn is_part_of(b: RangeZYX, c: RangeZYX) -> bool {
    &&& c.encloses(b)
    &&& c.size.x == c.size.y == c.size.z
    &&& b.size.x == b.size.y == b.size.z
    &&& c.size.x == 2 * b.size.x
}

/// A leaf of an octree: it is itself a leaf to the builder, and it is the whole box or part of one
/// that the builder splits.
proof fn lemma_leaf_is_built(
    root: RangeZYX,
    b: RangeZYX,
    g: spec_fn(RangeZYX) -> SvoReturn<Voxel>,
    i: int,
)
    requires
        may_be_node(root, b),
        0 <= i < leaves_by(b, g).len(),
    ensures
        ({
            let l = leaves_by(b, g)[i];
            &&& may_be_node(root, l.range)
            &&& g(l.range) == SvoReturn::Leaf(l.value)
            &&& l.range != b ==> exists|c: RangeZYX|
                may_be_node(root, c) && is_part_of(l.range, c) && #[trigger] g(c) is Internal
        }),
    decreases b.size.x, 9nat,
{
    match g(b) {
        SvoReturn::Leaf(_) => {},
        SvoReturn::Internal(_) => {
            lemma_octant_leaf_is_built(root, b, g, 8, i);
        },
    }
}

proof fn lemma_octant_leaf_is_built(
    root: RangeZYX,
    b: RangeZYX,
    g: spec_fn(RangeZYX) -> SvoReturn<Voxel>,
    k: nat,
    i: int,
)
    requires
        may_be_node(root, b),
        g(b) is Internal,
        k <= 8,
        0 <= i < octant_leaves_by(b, g, k).len(),
    ensures
        ({
            let l = octant_leaves_by(b, g, k)[i];
            &&& may_be_node(root, l.range)
            &&& g(l.range) == SvoReturn::Leaf(l.value)
            &&& exists|c: RangeZYX|
                may_be_node(root, c) && is_part_of(l.range, c) && #[trigger] g(c) is Internal
        }),
    decreases b.size.x, k,
{
    let head = octant_leaves_by(b, g, (k - 1) as nat);
    let part = b.octant(k - 1);
    lemma_octant_is_node(root, b, k - 1);
    if i < head.len() {
        lemma_octant_leaf_is_built(root, b, g, (k - 1) as nat, i);
        assert(octant_leaves_by(b, g, k)[i] == head[i]);
    } else {
        let j = i - head.len();
        lemma_leaf_is_built(root, part, g, j);
        let l = leaves_by(part, g)[j];
        assert(octant_leaves_by(b, g, k)[i] == l);
        if l.range == part {
            lemma_octant_is_node(b, b, k - 1);
            assert(is_part_of(part, b) && g(b) is Internal);
        }
    }
}

/// A leaf that holds `p` is found where the descent to `p` ends, and nowhere else.
proof fn lemma_leaves_hold(
    root: RangeZYX,
    b: RangeZYX,
    g: spec_fn(RangeZYX) -> SvoReturn<Voxel>,
    p: Point,
) -> (i: int)
    requires
        may_be_node(root, b),
        b.has(p),
        forall|c: RangeZYX| may_be_node(root, c) && #[trigger] g(c) is Internal ==> c.size.x > 1,
    ensures
        0 <= i < leaves_by(b, g).len(),
        leaves_by(b, g)[i].range.has(p),
        forall|j: int|
            0 <= j < leaves_by(b, g).len() && (#[trigger] leaves_by(b, g)[j]).range.has(p) ==> j
                == i,
    decreases b.size.x, 9nat,
{
    match g(b) {
        SvoReturn::Leaf(_) => 0,
        SvoReturn::Internal(_) => {
            assert(b.size.x > 1);
            assert(may_be_node(b, b));
            let c = lemma_octants_partition(b, p);
            lemma_octant_is_node(root, b, c);
            let k = lemma_octant_leaves_hold(root, b, g, p, c, 8);
            k
        },
    }
}

proof fn lemma_octant_leaves_hold(
    root: RangeZYX,
    b: RangeZYX,
    g: spec_fn(RangeZYX) -> SvoReturn<Voxel>,
    p: Point,
    c: int,
    k: nat,
) -> (i: int)
    requires
        may_be_node(root, b),
        b.size.x > 1,
        b.has(p),
        0 <= c < 8,
        b.octant(c).has(p),
        forall|j: int| 0 <= j < 8 && #[trigger] b.octant(j).has(p) ==> j == c,
        k <= 8,
        forall|r: RangeZYX| may_be_node(root, r) && #[trigger] g(r) is Internal ==> r.size.x > 1,
    ensures
        c < k ==> {
            &&& 0 <= i < octant_leaves_by(b, g, k).len()
            &&& octant_leaves_by(b, g, k)[i].range.has(p)
        },
        forall|j: int|
            0 <= j < octant_leaves_by(b, g, k).len() && (#[trigger] octant_leaves_by(
                b,
                g,
                k,
            )[j]).range.has(p) ==> c < k && j == i,
    decreases b.size.x, k,
{
    if k == 0 {
        0
    } else {
        let all = octant_leaves_by(b, g, k);
        let head = octant_leaves_by(b, g, (k - 1) as nat);
        let part = b.octant(k - 1);
        let last = leaves_by(part, g);
        lemma_octant_is_node(root, b, k - 1);
        let h = lemma_octant_leaves_hold(root, b, g, p, c, (k - 1) as nat);
        if c == k - 1 {
            let j = lemma_leaves_hold(root, part, g, p);
            let i = head.len() + j;
            assert(all[i] == last[j]);
            assert forall|m: int| 0 <= m < all.len() && (#[trigger] all[m]).range.has(
                p,
            ) implies m == i by {
                if m < head.len() {
                    assert(all[m] == head[m]);
                } else {
                    assert(all[m] == last[m - head.len()]);
                }
            }
            i
        } else {
            assert(!part.has(p));
            assert forall|m: int| 0 <= m < all.len() && (#[trigger] all[m]).range.has(
                p,
            ) implies c < k && m == h by {
                if m < head.len() {
                    assert(all[m] == head[m]);
                } else {
                    lemma_leaf_is_built(part, part, g, m - head.len());
                    assert(all[m] == last[m - head.len()]);
                }
            }
            if c < k - 1 {
                assert(all[h] == head[h]);
            }
            h
        }
    }
}

/// The leaves of a classified cube are boxes that an octree can have.
pub(crate) proof fn lemma_leaf_is_node(
    origin: Point,
    extent: int,
    clip: RangeZYX,
    hit: spec_fn(RangeZYX) -> bool,
    inside: spec_fn(RangeZYX, usize) -> bool,
    i: int,
)
    requires
        may_be_node(cube(origin, extent), cube(origin, extent)),
        0 <= i < classified_leaves(origin, extent, clip, hit, inside).len(),
    ensures
        may_be_node(
            cube(origin, extent),
            classified_leaves(origin, extent, clip, hit, inside)[i].range,
        ),
{
    let g = |b: RangeZYX| classification(b, clip, hit, inside);
    let root = cube(origin, extent);
    assert(classified_leaves(origin, extent, clip, hit, inside) == leaves_by(root, g));
    lemma_leaf_is_built(root, root, g, i);
}

/// The leaves of a classified cube. Every cell lies in exactly one of them. A leaf is what its own
/// samples say, whatever its size, and a leaf that is not the whole cube is half of a box that was
/// split, because the surface meets it within the clip range.
pub proof fn leaves_are_what_their_samples_say(
    origin: Point,
    extent: int,
    clip: RangeZYX,
    hit: spec_fn(RangeZYX) -> bool,
    inside: spec_fn(RangeZYX, usize) -> bool,
    i: int,
    cell: Point,
)
    requires
        may_be_node(cube(origin, extent), cube(origin, extent)),
        clip.valid(),
        0 <= i < classified_leaves(origin, extent, clip, hit, inside).len(),
    ensures
        ({
            let leaves = classified_leaves(origin, extent, clip, hit, inside);
            let b = leaves[i].range;
            let v = leaves[i].value;
            let votes = samples_inside(inside, b, 9).len();
            &&& cube(origin, extent).encloses(b) && b.valid() && b.is_cube(b.size.x as int)
            &&& v == Voxel::Internal <==> meet(b, clip) && !hit(b) && votes >= 7
            &&& v == Voxel::External <==> !meet(b, clip) || (!hit(b) && votes < 7)
            &&& v == Voxel::Boundry(true) <==> meet(b, clip) && hit(b) && inside(b, 0)
            &&& v == Voxel::Boundry(false) <==> meet(b, clip) && hit(b) && !inside(b, 0)
            &&& v is Boundry ==> b.is_cube(1)
            &&& b != cube(origin, extent) ==> exists|c: RangeZYX|
                cube(origin, extent).encloses(c) && is_part_of(b, c) && #[trigger] hit(c) && meet(
                    c,
                    clip,
                )
            &&& cube(origin, extent).has(cell) ==> exists|j: int|
                0 <= j < leaves.len() && (#[trigger] leaves[j]).range.has(cell)
            &&& forall|j: int, k: int|
                0 <= j < leaves.len() && 0 <= k < leaves.len() && (
                #[trigger] leaves[j]).range.has(cell) && (#[trigger] leaves[k]).range.has(cell)
                    ==> j == k
        }),
{
    let root = cube(origin, extent);
    let g = |b: RangeZYX| classification(b, clip, hit, inside);
    let leaves = classified_leaves(origin, extent, clip, hit, inside);
    assert(leaves == leaves_by(root, g));
    lemma_leaf_is_built(root, root, g, i);
    let b = leaves[i].range;
    boxes_become_what_their_samples_say(b, clip, hit, inside);
    if b != root {
        let c = choose|c: RangeZYX|
            may_be_node(root, c) && is_part_of(b, c) && #[trigger] g(c) is Internal;
        boxes_become_what_their_samples_say(c, clip, hit, inside);
        assert(hit(c));
    }
    assert forall|c: RangeZYX| may_be_node(root, c) && #[trigger] g(c) is Internal implies c.size.x
        > 1 by {
        boxes_become_what_their_samples_say(c, clip, hit, inside);
    }
    if root.has(cell) {
        let j = lemma_leaves_hold(root, root, g, cell);
        assert(leaves[j].range.has(cell));
    } else {
        assert forall|j: int| 0 <= j < leaves.len() implies !(#[trigger] leaves[j]).range.has(
            cell,
        ) by {
            lemma_leaf_is_built(root, root, g, j);
        }
    }
}

/// A solid model is not hollow: where all samples lie inside, every leaf within the clip range is
/// internal or a significant boundary cell. An empty one has no solid leaf.
pub proof fn solid_models_are_not_hollow(
    origin: Point,
    extent: int,
    clip: RangeZYX,
    hit: spec_fn(RangeZYX) -> bool,
    inside: spec_fn(RangeZYX, usize) -> bool,
    i: int,
)
    requires
        may_be_node(cube(origin, extent), cube(origin, extent)),
        clip.valid(),
        0 <= i < classified_leaves(origin, extent, clip, hit, inside).len(),
    ensures
        ({
            let l = classified_leaves(origin, extent, clip, hit, inside)[i];
            &&& (forall|b: RangeZYX, k: usize| k < 9 ==> #[trigger] inside(b, k)) && meet(
                l.range,
                clip,
            ) ==> l.value == Voxel::Internal || l.value == Voxel::Boundry(true)
            &&& (forall|b: RangeZYX, k: usize| k < 9 ==> !#[trigger] inside(b, k)) ==> l.value
                == Voxel::External || l.value == Voxel::Boundry(false)
        }),
{
    let l = classified_leaves(origin, extent, clip, hit, inside)[i];
    leaves_are_what_their_samples_say(origin, extent, clip, hit, inside, i, l.range.origin);
    samples_are_counted(inside, l.range, 9);
    if forall|b: RangeZYX, k: usize| k < 9 ==> #[trigger] inside(b, k) {
        let all = |b: RangeZYX, k: usize| true;
        assert(samples_inside(inside, l.range, 9) =~= samples_inside(all, l.range, 9));
        samples_are_counted(all, l.range, 9);
        assert(inside_count(all, l.range, 9) == 9) by {
            reveal_with_fuel(inside_count, 10);
        }
    }
    if forall|b: RangeZYX, k: usize| k < 9 ==> !#[trigger] inside(b, k) {
        assert(samples_inside(inside, l.range, 9) =~= Set::<usize>::empty());
    }
}

} // verus!
