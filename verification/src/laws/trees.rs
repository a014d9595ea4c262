//! Octrees, node by node and leaf by leaf.
use crate::geometry::{Point, RangeZYX};
use crate::svo::{cube, leaves_by, octant_leaves_by, Svo, SvoLeaf, SvoReturn};
use vstd::prelude::*;

verus! {

/// The cube of a given side at a point holds the points that are at least that one and less than
/// the side beyond it, along each axis.
pub proof fn cubes_reach_from_their_origin(origin: Point, extent: int, p: Point)
    requires
        0 <= extent <= i32::MAX,
    ensures
        cube(origin, extent).has(p) <==> origin.x <= p.x < origin.x + extent && origin.y <= p.y
            < origin.y + extent && origin.z <= p.z < origin.z + extent,
        cube(origin, extent).touches(p) <==> origin.x <= p.x <= origin.x + extent && origin.y <= p.y
            <= origin.y + extent && origin.z <= p.z <= origin.z + extent,
{
}

/// A node of a tree is a leaf, or it has the eight octants of its box as children, in order, each
/// a tree of its own. What relates every node to its box relates this one, as the leaf or the
/// inner node that it is, and all nodes below it.
pub proof fn nodes_are_leaves_or_have_eight_children<T>(
    t: Svo<T>,
    rel: spec_fn(RangeZYX, SvoReturn<T>) -> bool,
    k: int,
)
    requires
        t.wf(),
        t.every_node(rel),
        0 <= k < 8,
    ensures
        t.children is None ==> rel(t.range, SvoReturn::Leaf(t.value)),
        t.children is Some ==> {
            let cs = t.children->Some_0@;
            &&& rel(t.range, SvoReturn::Internal(t.value))
            &&& t.range.size.x > 1
            &&& cs.len() == 8
            &&& cs[k].range == t.range.octant(k)
            &&& cs[k].wf()
            &&& cs[k].every_node(rel)
        },
{
}

/// The leaves of a tree are the tree itself if it is a leaf, else those of its children one after
/// the other.
pub proof fn leaves_come_child_by_child<T>(t: Svo<T>)
    requires
        t.wf(),
    ensures
        t.children is None ==> t.leaf_seq().len() == 1 && t.leaf_seq()[0].range == t.range
            && t.leaf_seq()[0].value == t.value,
        t.children is Some ==> {
            let cs = t.children->Some_0@;
            t.leaf_seq() == cs[0].leaf_seq() + cs[1].leaf_seq() + cs[2].leaf_seq()
                + cs[3].leaf_seq() + cs[4].leaf_seq() + cs[5].leaf_seq() + cs[6].leaf_seq()
                + cs[7].leaf_seq()
        },
{
    if let Some(cs) = t.children {
        assert(Svo::leaf_seqs(cs@, 0) =~= Seq::empty());
        assert(Svo::leaf_seqs(cs@, 1) == Svo::leaf_seqs(cs@, 0) + cs@[0].leaf_seq());
        assert(Svo::leaf_seqs(cs@, 2) == Svo::leaf_seqs(cs@, 1) + cs@[1].leaf_seq());
        assert(Svo::leaf_seqs(cs@, 3) == Svo::leaf_seqs(cs@, 2) + cs@[2].leaf_seq());
        assert(Svo::leaf_seqs(cs@, 4) == Svo::leaf_seqs(cs@, 3) + cs@[3].leaf_seq());
        assert(Svo::leaf_seqs(cs@, 5) == Svo::leaf_seqs(cs@, 4) + cs@[4].leaf_seq());
        assert(Svo::leaf_seqs(cs@, 6) == Svo::leaf_seqs(cs@, 5) + cs@[5].leaf_seq());
        assert(Svo::leaf_seqs(cs@, 7) == Svo::leaf_seqs(cs@, 6) + cs@[6].leaf_seq());
        assert(Svo::leaf_seqs(cs@, 8) == Svo::leaf_seqs(cs@, 7) + cs@[7].leaf_seq());
        assert(t.leaf_seq() =~= cs@[0].leaf_seq() + cs@[1].leaf_seq() + cs@[2].leaf_seq()
            + cs@[3].leaf_seq() + cs@[4].leaf_seq() + cs@[5].leaf_seq() + cs@[6].leaf_seq()
            + cs@[7].leaf_seq());
    }
}

/// The leaves that a builder gives for a box are the box itself where the builder says so, else
/// those of the octants one after the other.
pub proof fn builders_are_asked_from_the_top<T>(b: RangeZYX, g: spec_fn(RangeZYX) -> SvoReturn<T>)
    requires
        b.size.x > 1,
    ensures
        g(b) matches SvoReturn::Leaf(v) ==> leaves_by(b, g) == seq![leaf(b, v)],
        g(b) is Internal ==> leaves_by(b, g) == leaves_by(b.octant(0), g) + leaves_by(
            b.octant(1),
            g,
        ) + leaves_by(b.octant(2), g) + leaves_by(b.octant(3), g) + leaves_by(b.octant(4), g)
            + leaves_by(b.octant(5), g) + leaves_by(b.octant(6), g) + leaves_by(b.octant(7), g),
{
    if g(b) is Internal {
        assert(octant_leaves_by(b, g, 0) =~= Seq::empty());
        assert(octant_leaves_by(b, g, 1) == octant_leaves_by(b, g, 0) + leaves_by(
            b.octant(0),
            g,
        ));
        assert(octant_leaves_by(b, g, 2) == octant_leaves_by(b, g, 1) + leaves_by(
            b.octant(1),
            g,
        ));
        assert(octant_leaves_by(b, g, 3) == octant_leaves_by(b, g, 2) + leaves_by(
            b.octant(2),
            g,
        ));
        assert(octant_leaves_by(b, g, 4) == octant_leaves_by(b, g, 3) + leaves_by(
            b.octant(3),
            g,
        ));
        assert(octant_leaves_by(b, g, 5) == octant_leaves_by(b, g, 4) + leaves_by(
            b.octant(4),
            g,
        ));
        assert(octant_leaves_by(b, g, 6) == octant_leaves_by(b, g, 5) + leaves_by(
            b.octant(5),
            g,
        ));
        assert(octant_leaves_by(b, g, 7) == octant_leaves_by(b, g, 6) + leaves_by(
            b.octant(6),
            g,
        ));
        assert(octant_leaves_by(b, g, 8) == octant_leaves_by(b, g, 7) + leaves_by(
            b.octant(7),
            g,
        ));
        assert(leaves_by(b, g) =~= leaves_by(b.octant(0), g) + leaves_by(b.octant(1), g)
            + leaves_by(b.octant(2), g) + leaves_by(b.octant(3), g) + leaves_by(b.octant(4), g)
            + leaves_by(b.octant(5), g) + leaves_by(b.octant(6), g) + leaves_by(b.octant(7), g));
    }
}

/// A leaf with the given box and value.
pub open spec fn leaf<T>(range: RangeZYX, value: T) -> SvoLeaf<T> {
    SvoLeaf { range, value }
}

/// Mapping a tree maps every node: the box stays, the value is one that the function gives, and the
/// children are the mapped children.
pub proof fn mapping_maps_every_node<T, U, F: Fn(T) -> U>(t: Svo<T>, f: F, out: Svo<U>, k: int)
    requires
        t.mapped_to(f, out),
        t.wf(),
        0 <= k < 8,
    ensures
        out.range == t.range,
        call_ensures(f, (t.value,), out.value),
        out.children is Some <==> t.children is Some,
        t.children is Some ==> out.children->Some_0@.len() == 8
            && t.children->Some_0@[k].mapped_to(f, out.children->Some_0@[k]),
{
}

/// Mapping a tree maps its leaves one by one, and keeps their boxes.
pub proof fn mapping_maps_every_leaf<T, U, F: Fn(T) -> U>(t: Svo<T>, f: F, out: Svo<U>)
    requires
        t.mapped_to(f, out),
    ensures
        out.leaf_seq().len() == t.leaf_seq().len(),
        forall|i: int|
            0 <= i < t.leaf_seq().len() ==> (#[trigger] out.leaf_seq()[i]).range
                == t.leaf_seq()[i].range && call_ensures(
                f,
                (t.leaf_seq()[i].value,),
                out.leaf_seq()[i].value,
            ),
    decreases t, 0nat,
{
    match (t.children, out.children) {
        (Some(cs), Some(ds)) => {
            lemma_mapped_leaves(cs@, ds@, f, cs@.len());
        },
        _ => {},
    }
}

proof fn lemma_mapped_leaves<T, U, F: Fn(T) -> U>(
    cs: Seq<Svo<T>>,
    ds: Seq<Svo<U>>,
    f: F,
    k: nat,
)
    requires
        ds.len() == cs.len(),
        k <= cs.len(),
        forall|i: int| 0 <= i < cs.len() ==> (#[trigger] cs[i]).mapped_to(f, ds[i]),
    ensures
        ({
            let a = Svo::leaf_seqs(cs, k);
            let b = Svo::leaf_seqs(ds, k);
            &&& b.len() == a.len()
            &&& forall|i: int|
                0 <= i < a.len() ==> (#[trigger] b[i]).range == a[i].range && call_ensures(
                    f,
                    (a[i].value,),
                    b[i].value,
                )
        }),
    decreases cs, k,
{
    if k > 0 {
        lemma_mapped_leaves(cs, ds, f, (k - 1) as nat);
        mapping_maps_every_leaf(cs[k - 1], f, ds[k - 1]);
        let (a, b) = (Svo::leaf_seqs(cs, k), Svo::leaf_seqs(ds, k));
        let (x, y) = (
            Svo::leaf_seqs(cs, (k - 1) as nat),
            Svo::leaf_seqs(ds, (k - 1) as nat),
        );
        let (p, q) = (cs[k - 1].leaf_seq(), ds[k - 1].leaf_seq());
        assert forall|i: int| 0 <= i < a.len() implies (#[trigger] b[i]).range == a[i].range
            && call_ensures(f, (a[i].value,), b[i].value) by {
            if i < x.len() {
                assert(a[i] == x[i] && b[i] == y[i]);
            } else {
                assert(a[i] == p[i - x.len()] && b[i] == q[i - x.len()]);
            }
        }
    }
}

} // verus!
