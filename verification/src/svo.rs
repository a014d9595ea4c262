//! Sparse voxel octrees.
use crate::geometry::{corner_offset, lemma_octant_offset, Point, RangeZYX};
use vstd::prelude::*;

verus! {

/// What a builder says of a box: it becomes a leaf, or it is split into its eight octants.
#[derive(Debug)]
pub enum SvoReturn<T> {
    Leaf(T),
    Internal(T),
}

/// An octree over a cube. A node without children is a leaf.
pub struct Svo<T> {
    pub range: RangeZYX,
    pub value: T,
    pub children: Option<Vec<Svo<T>>>,
}

/// A leaf of an octree.
#[derive(Debug)]
pub struct SvoLeaf<T> {
    pub range: RangeZYX,
    pub value: T,
}

/// `n` is a power of two.
pub open spec fn power_of_two(n: int) -> bool
    decreases n,
{
    n == 1 || (n > 1 && n % 2 == 0 && power_of_two(n / 2))
}

/// `r` may be a node of an octree over `root`.
pub open spec fn may_be_node(root: RangeZYX, r: RangeZYX) -> bool {
    &&& root.encloses(r)
    &&& r.fits()
    &&& r.is_cube(r.size.x as int)
    &&& power_of_two(r.size.x as int)
}

impl<T> Svo<T> {
    /// The tree covers a cube whose side is a power of two, and the children of a node are the
    /// octants of its box, in order.
    pub open spec fn wf(self) -> bool
        decreases self,
    {
        &&& may_be_node(self.range, self.range)
        &&& match self.children {
            None => true,
            Some(cs) => {
                &&& self.range.size.x > 1
                &&& cs@.len() == 8
                &&& forall|k: int|
                    0 <= k < 8 ==> (#[trigger] cs@[k]).range == self.range.octant(k) && cs@[k].wf()
            },
        }
    }

    /// Every node is related to its box by `rel`.
    pub open spec fn every_node(self, rel: spec_fn(RangeZYX, SvoReturn<T>) -> bool) -> bool
        decreases self,
    {
        match self.children {
            None => rel(self.range, SvoReturn::Leaf(self.value)),
            Some(cs) => {
                &&& rel(self.range, SvoReturn::Internal(self.value))
                &&& forall|k: int| 0 <= k < cs@.len() ==> (#[trigger] cs@[k]).every_node(rel)
            },
        }
    }

    /// The leaves, children in order.
    pub open spec fn leaf_seq(self) -> Seq<SvoLeaf<T>>
        decreases self, 0nat,
    {
        match self.children {
            None => seq![SvoLeaf { range: self.range, value: self.value }],
            Some(cs) => Self::leaf_seqs(cs@, cs@.len()),
        }
    }

    /// The leaves of the first `k` trees.
    pub open spec fn leaf_seqs(cs: Seq<Svo<T>>, k: nat) -> Seq<SvoLeaf<T>>
        decreases cs, k,
    {
        if k == 0 || k > cs.len() {
            seq![]
        } else {
            Self::leaf_seqs(cs, (k - 1) as nat) + cs[k - 1].leaf_seq()
        }
    }

    /// `out` has the shape of `self`, and every value of it came from the value in its place.
    pub open spec fn mapped_to<U, F: Fn(T) -> U>(self, f: F, out: Svo<U>) -> bool
        decreases self,
    {
        &&& out.range == self.range
        &&& call_ensures(f, (self.value,), out.value)
        &&& match (self.children, out.children) {
            (None, None) => true,
            (Some(cs), Some(ds)) => {
                &&& ds@.len() == cs@.len()
                &&& forall|k: int|
                    0 <= k < cs@.len() ==> (#[trigger] cs@[k]).mapped_to(f, ds@[k])
            },
            _ => false,
        }
    }

    /// `f` may be applied to every value.
    pub open spec fn can_map<U, F: Fn(T) -> U>(self, f: F) -> bool
        decreases self,
    {
        &&& call_requires(f, (self.value,))
        &&& match self.children {
            None => true,
            Some(cs) => forall|k: int| 0 <= k < cs@.len() ==> (#[trigger] cs@[k]).can_map(f),
        }
    }

    /// Both trees have the same nodes, and the values in the same place are related by `pair`.
    pub open spec fn alike<U>(self, other: Svo<U>, pair: spec_fn(T, U) -> bool) -> bool
        decreases self,
    {
        &&& other.range == self.range
        &&& pair(self.value, other.value)
        &&& match (self.children, other.children) {
            (None, None) => true,
            (Some(cs), Some(ds)) => {
                &&& ds@.len() == cs@.len()
                &&& forall|k: int| 0 <= k < cs@.len() ==> (#[trigger] cs@[k]).alike(ds@[k], pair)
            },
            _ => false,
        }
    }

    /// Builds the tree over the cube of side `extent` at `origin`, from the top down: `f` says
    /// of each box whether it is a leaf.
    pub fn from_fn<F: Fn(RangeZYX) -> SvoReturn<T>>(
        origin: Point,
        extent: usize,
        f: &F,
    ) -> (r: Svo<T>)
        requires
            extent <= i32::MAX,
            power_of_two(extent as int),
            origin.x + extent <= i32::MAX,
            origin.y + extent <= i32::MAX,
            origin.z + extent <= i32::MAX,
            forall|b: RangeZYX|
                may_be_node(cube(origin, extent as int), b) ==> #[trigger] call_requires(*f, (b,)),
            forall|b: RangeZYX, t: T|
                #[trigger] call_ensures(*f, (b,), SvoReturn::Internal(t)) ==> b.size.x > 1,
        ensures
            r.wf(),
            r.range == cube(origin, extent as int),
            r.every_node(|b: RangeZYX, t: SvoReturn<T>| call_ensures(*f, (b,), t)),
    {
        let range: RangeZYX = RangeZYX::with_extent(origin, extent as i32);
        Svo::build(range, f, Ghost(range))
    }

    fn build<F: Fn(RangeZYX) -> SvoReturn<T>>(
        range: RangeZYX,
        f: &F,
        Ghost(root): Ghost<RangeZYX>,
    ) -> (r: Svo<T>)
        requires
            may_be_node(root, range),
            forall|b: RangeZYX| may_be_node(root, b) ==> #[trigger] call_requires(*f, (b,)),
            forall|b: RangeZYX, t: T|
                #[trigger] call_ensures(*f, (b,), SvoReturn::Internal(t)) ==> b.size.x > 1,
        ensures
            r.wf(),
            r.range == range,
            r.every_node(|b: RangeZYX, t: SvoReturn<T>| call_ensures(*f, (b,), t)),
        decreases range.size.x,
    {
        let ghost rel = |b: RangeZYX, t: SvoReturn<T>| call_ensures(*f, (b,), t);
        match f(range) {
            SvoReturn::Leaf(value) => Svo { range, value, children: None },
            SvoReturn::Internal(value) => {
                assert(range.size.x > 1);
                let mut children: Vec<Svo<T>> = Vec::new();
                for k in 0usize..8
                    invariant
                        may_be_node(root, range),
                        range.size.x > 1,
                        forall|b: RangeZYX|
                            may_be_node(root, b) ==> #[trigger] call_requires(*f, (b,)),
                        forall|b: RangeZYX, t: T|
                            #[trigger] call_ensures(*f, (b,), SvoReturn::Internal(t)) ==> b.size.x
                                > 1,
                        rel == (|b: RangeZYX, t: SvoReturn<T>| call_ensures(*f, (b,), t)),
                        children@.len() == k,
                        forall|i: int|
                            0 <= i < k ==> (#[trigger] children@[i]).range == range.octant(i)
                                && children@[i].wf() && children@[i].every_node(rel),
                {
                    proof {
                        lemma_octant_is_node(root, range, k as int);
                    }
                    let part: RangeZYX = range.split(k);
                    let child: Svo<T> = Svo::build(part, f, Ghost(root));
                    children.push(child);
                }
                Svo { range, value, children: Some(children) }
            },
        }
    }

    /// Applies `f` to every value, children after their parent, and keeps the shape.
    pub fn into_map<U, F: Fn(T) -> U>(self, f: &F) -> (r: Svo<U>)
        requires
            self.wf(),
            self.can_map(*f),
        ensures
            self.mapped_to(*f, r),
            r.range == self.range,
            r.wf(),
        decreases self,
    {
        let ghost before = self;
        let range: RangeZYX = self.range;
        let value: U = f(self.value);
        match self.children {
            None => Svo { range, value, children: None },
            Some(cs) => {
                let ghost all = cs@;
                let mut rest: Vec<Svo<T>> = cs;
                let mut children: Vec<Svo<U>> = Vec::new();
                while rest.len() > 0
                    invariant
                        before == self,
                        before.wf(),
                        before.children == Some(cs),
                        all == cs@,
                        all.len() == 8,
                        children@.len() + rest@.len() == 8,
                        rest@ == all.skip(children@.len() as int),
                        before.can_map(*f),
                        forall|i: int|
                            0 <= i < children@.len() ==> (#[trigger] all[i]).mapped_to(
                                *f,
                                children@[i],
                            ) && children@[i].wf(),
                    decreases rest@.len(),
                {
                    let ghost n = children@.len() as int;
                    let child: Svo<T> = rest.remove(0);
                    assert(child == all[n]);
                    assert(all[n].wf());
                    assert(all[n].can_map(*f));
                    assert(decreases_to!(before => all[n]));
                    children.push(child.into_map(f));
                    assert(rest@ =~= all.skip(n + 1));
                }
                assert forall|i: int| 0 <= i < 8 implies (#[trigger] children@[i]).range
                    == before.range.octant(i) && children@[i].wf() by {
                    assert(all[i].mapped_to(*f, children@[i]));
                }
                Svo { range, value, children: Some(children) }
            },
        }
    }
}

impl<T: Copy> Svo<T> {
    /// The leaves of the tree, children in order.
    pub fn leaves(&self) -> (r: Vec<SvoLeaf<T>>)
        ensures
            r@ == self.leaf_seq(),
    {
        let mut out: Vec<SvoLeaf<T>> = Vec::new();
        self.push_leaves(&mut out);
        assert(out@ =~= self.leaf_seq());
        out
    }

    fn push_leaves(&self, out: &mut Vec<SvoLeaf<T>>)
        ensures
            final(out)@ == old(out)@ + self.leaf_seq(),
        decreases self,
    {
        match &self.children {
            None => {
                out.push(SvoLeaf { range: self.range, value: self.value });
                assert(out@ =~= old(out)@ + self.leaf_seq());
            },
            Some(cs) => {
                let n: usize = cs.len();
                let mut k: usize = 0;
                assert(out@ =~= old(out)@ + Self::leaf_seqs(cs@, 0));
                while k < n
                    invariant
                        self.children == Some(*cs),
                        n == cs@.len(),
                        k <= n,
                        out@ == old(out)@ + Self::leaf_seqs(cs@, k as nat),
                    decreases n - k,
                {
                    assert(decreases_to!(self => self.children->Some_0@[k as int]));
                    cs[k].push_leaves(out);
                    k = k + 1;
                    assert(out@ =~= old(out)@ + Self::leaf_seqs(cs@, k as nat));
                }
            },
        }
    }
}

/// The cube of side `extent` at `origin`.
pub open spec fn cube(origin: Point, extent: int) -> RangeZYX {
    RangeZYX {
        origin,
        size: crate::geometry::Vector { x: extent as i32, y: extent as i32, z: extent as i32 },
    }
}

/// An octant of a node that can be split is a node.
pub proof fn lemma_octant_is_node(root: RangeZYX, r: RangeZYX, k: int)
    requires
        may_be_node(root, r),
        r.size.x > 1,
        0 <= k < 8,
    ensures
        may_be_node(root, r.octant(k)),
        r.encloses(r.octant(k)),
        r.octant(k).size.x < r.size.x,
        r.octant(k).is_cube(r.size.x / 2),
{
    lemma_octant_offset(r.size.x as int / 2, k);
}

/// Every point of a box that can be split lies in exactly one octant of it.
pub proof fn lemma_octants_partition(r: RangeZYX, p: Point) -> (k: int)
    requires
        may_be_node(r, r),
        r.size.x > 1,
        r.has(p),
    ensures
        0 <= k < 8,
        r.octant(k).has(p),
        forall|j: int| 0 <= j < 8 && #[trigger] r.octant(j).has(p) ==> j == k,
{
    let half = r.size.x as int / 2;
    let bx: int = if p.x < r.origin.x + half { 0 } else { 1 };
    let by: int = if p.y < r.origin.y + half { 0 } else { 1 };
    let bz: int = if p.z < r.origin.z + half { 0 } else { 1 };
    let k = 4 * bx + 2 * by + bz;
    lemma_octant_offset(half, k);
    assert forall|j: int| 0 <= j < 8 && #[trigger] r.octant(j).has(p) implies j == k by {
        lemma_octant_offset(half, j);
        let o = corner_offset(j);
        assert(o.x == bx && o.y == by && o.z == bz);
    }
    k
}

/// What relates every node of a tree to its box relates every leaf to its box.
pub proof fn lemma_leaves_of_every_node<T>(t: Svo<T>, rel: spec_fn(RangeZYX, SvoReturn<T>) -> bool)
    requires
        t.every_node(rel),
    ensures
        forall|i: int|
            0 <= i < t.leaf_seq().len() ==> rel(
                (#[trigger] t.leaf_seq()[i]).range,
                SvoReturn::Leaf(t.leaf_seq()[i].value),
            ),
    decreases t, 0nat,
{
    match t.children {
        None => {
            assert(rel(t.range, SvoReturn::Leaf(t.value)));
            assert(t.leaf_seq()[0] == SvoLeaf { range: t.range, value: t.value });
        },
        Some(cs) => {
            lemma_leaves_of_every_node_upto(cs@, cs@.len(), rel);
            assert(t.leaf_seq() == Svo::leaf_seqs(cs@, cs@.len()));
        },
    }
}

proof fn lemma_leaves_of_every_node_upto<T>(
    cs: Seq<Svo<T>>,
    k: nat,
    rel: spec_fn(RangeZYX, SvoReturn<T>) -> bool,
)
    requires
        k <= cs.len(),
        forall|c: int| 0 <= c < cs.len() ==> (#[trigger] cs[c]).every_node(rel),
    ensures
        forall|i: int|
            0 <= i < Svo::leaf_seqs(cs, k).len() ==> rel(
                (#[trigger] Svo::leaf_seqs(cs, k)[i]).range,
                SvoReturn::Leaf(Svo::leaf_seqs(cs, k)[i].value),
            ),
    decreases cs, k,
{
    if k > 0 {
        lemma_leaves_of_every_node_upto(cs, (k - 1) as nat, rel);
        lemma_leaves_of_every_node(cs[k - 1], rel);
        let head = Svo::leaf_seqs(cs, (k - 1) as nat);
        let last = cs[k - 1].leaf_seq();
        assert forall|i: int| 0 <= i < Svo::leaf_seqs(cs, k).len() implies rel(
            (#[trigger] Svo::leaf_seqs(cs, k)[i]).range,
            SvoReturn::Leaf(Svo::leaf_seqs(cs, k)[i].value),
        ) by {
            if i < head.len() {
                assert(Svo::leaf_seqs(cs, k)[i] == head[i]);
            } else {
                assert(Svo::leaf_seqs(cs, k)[i] == last[i - head.len()]);
            }
        }
    }
}

/// A relation that holds of every node may be weakened.
pub proof fn lemma_every_node_weaken<T>(
    t: Svo<T>,
    strong: spec_fn(RangeZYX, SvoReturn<T>) -> bool,
    weak: spec_fn(RangeZYX, SvoReturn<T>) -> bool,
)
    requires
        t.every_node(strong),
        forall|b: RangeZYX, v: SvoReturn<T>| #[trigger] strong(b, v) ==> weak(b, v),
    ensures
        t.every_node(weak),
    decreases t,
{
    match t.children {
        None => {},
        Some(cs) => {
            assert forall|k: int| 0 <= k < cs@.len() implies (#[trigger] cs@[k]).every_node(
                weak,
            ) by {
                lemma_every_node_weaken(cs@[k], strong, weak);
            }
        },
    }
}

/// Every leaf is a node of the tree.
pub proof fn lemma_leaves_are_nodes<T>(t: Svo<T>, i: int)
    requires
        t.wf(),
        0 <= i < t.leaf_seq().len(),
    ensures
        may_be_node(t.range, t.leaf_seq()[i].range),
    decreases t, 0nat,
{
    match t.children {
        None => {},
        Some(cs) => {
            lemma_leaves_are_nodes_upto(t, cs@, cs@.len(), i);
        },
    }
}

/// Leaf `i` among the first `k` children is a leaf of child `c`, at place `j` there.
proof fn lemma_leaf_of_child<T>(cs: Seq<Svo<T>>, k: nat, i: int) -> (r: (int, int))
    requires
        k <= cs.len(),
        0 <= i < Svo::leaf_seqs(cs, k).len(),
    ensures
        0 <= r.0 < k,
        0 <= r.1 < cs[r.0].leaf_seq().len(),
        Svo::leaf_seqs(cs, k)[i] == cs[r.0].leaf_seq()[r.1],
        Svo::leaf_seqs(cs, r.0 as nat).len() + r.1 == i,
    decreases k,
{
    let head = Svo::leaf_seqs(cs, (k - 1) as nat);
    if i < head.len() {
        let r = lemma_leaf_of_child(cs, (k - 1) as nat, i);
        r
    } else {
        (k - 1, i - head.len())
    }
}

proof fn lemma_leaves_are_nodes_upto<T>(t: Svo<T>, cs: Seq<Svo<T>>, k: nat, i: int)
    requires
        t.wf(),
        t.children is Some,
        t.children->Some_0@ == cs,
        k == cs.len(),
        0 <= i < Svo::leaf_seqs(cs, k).len(),
    ensures
        may_be_node(t.range, Svo::leaf_seqs(cs, k)[i].range),
    decreases cs, k,
{
    let (c, j) = lemma_leaf_of_child(cs, k, i);
    lemma_leaves_are_nodes(cs[c], j);
    lemma_octant_is_node(t.range, t.range, c);
}

/// Leaf `j` of child `c` is a leaf of the tree, at the place that is returned.
proof fn lemma_child_leaf<T>(cs: Seq<Svo<T>>, k: nat, c: int, j: int) -> (i: int)
    requires
        k <= cs.len(),
        0 <= c < k,
        0 <= j < cs[c].leaf_seq().len(),
    ensures
        0 <= i < Svo::leaf_seqs(cs, k).len(),
        Svo::leaf_seqs(cs, k)[i] == cs[c].leaf_seq()[j],
    decreases k,
{
    let head = Svo::leaf_seqs(cs, (k - 1) as nat);
    if c == k - 1 {
        let i = head.len() + j;
        assert(Svo::leaf_seqs(cs, k)[i] == cs[c].leaf_seq()[j]);
        i
    } else {
        let i = lemma_child_leaf(cs, (k - 1) as nat, c, j);
        assert(Svo::leaf_seqs(cs, k)[i] == head[i]);
        i
    }
}

/// The leaves of a tree partition its box: every point of the box lies in exactly one leaf, and
/// no leaf holds a point outside of the box.
pub proof fn leaves_partition<T>(t: Svo<T>, p: Point)
    requires
        t.wf(),
    ensures
        t.range.has(p) <==> exists|i: int|
            0 <= i < t.leaf_seq().len() && (#[trigger] t.leaf_seq()[i]).range.has(p),
        forall|i: int, j: int|
            0 <= i < t.leaf_seq().len() && 0 <= j < t.leaf_seq().len() && (
            #[trigger] t.leaf_seq()[i]).range.has(p) && (#[trigger] t.leaf_seq()[j]).range.has(p)
                ==> i == j,
    decreases t,
{
    let s = t.leaf_seq();
    assert forall|i: int| 0 <= i < s.len() && (#[trigger] s[i]).range.has(p) implies t.range.has(
        p,
    ) by {
        lemma_leaves_are_nodes(t, i);
    }
    match t.children {
        None => {
            assert(s[0].range == t.range);
        },
        Some(cs) => {
            if t.range.has(p) {
                let c = lemma_octants_partition(t.range, p);
                assert(cs@[c].range == t.range.octant(c));
                leaves_partition(cs@[c], p);
                let j = choose|j: int|
                    0 <= j < cs@[c].leaf_seq().len() && (#[trigger] cs@[c].leaf_seq()[j]).range.has(
                        p,
                    );
                let i = lemma_child_leaf(cs@, cs@.len(), c, j);
                assert(s[i].range.has(p));
                assert forall|a: int, b: int|
                    0 <= a < s.len() && 0 <= b < s.len() && (#[trigger] s[a]).range.has(p) && (
                    #[trigger] s[b]).range.has(p) implies a == b by {
                    let (ca, ja) = lemma_leaf_of_child(cs@, cs@.len(), a);
                    let (cb, jb) = lemma_leaf_of_child(cs@, cs@.len(), b);
                    lemma_leaves_are_nodes(cs@[ca], ja);
                    lemma_leaves_are_nodes(cs@[cb], jb);
                    assert(t.range.octant(ca).has(p));
                    assert(t.range.octant(cb).has(p));
                    assert(ca == c && cb == c);
                }
            }
        },
    }
}

/// The leaves of the tree over `b` that the builder `g` gives, children in order.
pub open spec fn leaves_by<T>(b: RangeZYX, g: spec_fn(RangeZYX) -> SvoReturn<T>) -> Seq<SvoLeaf<T>>
    decreases b.size.x, 9nat,
{
    match g(b) {
        SvoReturn::Leaf(value) => seq![SvoLeaf { range: b, value }],
        SvoReturn::Internal(_) => octant_leaves_by(b, g, 8),
    }
}

/// The leaves of the trees over the first `k` octants of `b`.
pub open spec fn octant_leaves_by<T>(
    b: RangeZYX,
    g: spec_fn(RangeZYX) -> SvoReturn<T>,
    k: nat,
) -> Seq<SvoLeaf<T>>
    decreases b.size.x, k,
{
    if k == 0 || k > 8 || b.size.x <= 1 {
        seq![]
    } else {
        octant_leaves_by(b, g, (k - 1) as nat) + leaves_by(b.octant(k - 1), g)
    }
}

/// A tree whose nodes are those of a builder has the leaves that the builder gives.
pub proof fn lemma_leaves_by<T>(t: Svo<T>, g: spec_fn(RangeZYX) -> SvoReturn<T>)
    requires
        t.wf(),
        t.every_node(|b: RangeZYX, v: SvoReturn<T>| v == g(b)),
    ensures
        t.leaf_seq() == leaves_by(t.range, g),
    decreases t, 0nat,
{
    let rel = |b: RangeZYX, v: SvoReturn<T>| v == g(b);
    match t.children {
        None => {
            assert(rel(t.range, SvoReturn::Leaf(t.value)));
        },
        Some(cs) => {
            assert(rel(t.range, SvoReturn::Internal(t.value)));
            lemma_octant_leaves_by(t.range, cs@, g, 8);
        },
    }
}

proof fn lemma_octant_leaves_by<T>(
    b: RangeZYX,
    cs: Seq<Svo<T>>,
    g: spec_fn(RangeZYX) -> SvoReturn<T>,
    k: nat,
)
    requires
        b.size.x > 1,
        cs.len() == 8,
        k <= 8,
        forall|i: int|
            0 <= i < 8 ==> (#[trigger] cs[i]).range == b.octant(i) && cs[i].wf()
                && cs[i].every_node(|b: RangeZYX, v: SvoReturn<T>| v == g(b)),
    ensures
        Svo::leaf_seqs(cs, k) == octant_leaves_by(b, g, k),
    decreases cs, k,
{
    if k > 0 {
        lemma_octant_leaves_by(b, cs, g, (k - 1) as nat);
        assert(cs[k - 1].range == b.octant(k - 1));
        lemma_leaves_by(cs[k - 1], g);
    }
}

/// What relates the nodes of a tree to their boxes carries over to the mapped tree.
pub proof fn lemma_every_node_mapped<T, U, F: Fn(T) -> U>(
    t: Svo<T>,
    f: F,
    out: Svo<U>,
    rel: spec_fn(RangeZYX, SvoReturn<T>) -> bool,
    mapped: spec_fn(RangeZYX, SvoReturn<U>) -> bool,
)
    requires
        t.mapped_to(f, out),
        t.every_node(rel),
        forall|b: RangeZYX, v: T, u: U|
            #[trigger] rel(b, SvoReturn::Leaf(v)) && #[trigger] call_ensures(f, (v,), u) ==> mapped(
                b,
                SvoReturn::Leaf(u),
            ),
        forall|b: RangeZYX, v: T, u: U|
            #[trigger] rel(b, SvoReturn::Internal(v)) && #[trigger] call_ensures(f, (v,), u)
                ==> mapped(b, SvoReturn::Internal(u)),
    ensures
        out.every_node(mapped),
    decreases t,
{
    match (t.children, out.children) {
        (Some(cs), Some(ds)) => {
            assert forall|k: int| 0 <= k < ds@.len() implies (#[trigger] ds@[k]).every_node(
                mapped,
            ) by {
                assert(cs@[k].mapped_to(f, ds@[k]));
                lemma_every_node_mapped(cs@[k], f, ds@[k], rel, mapped);
            }
        },
        _ => {},
    }
}

/// A function may be applied to the values of a tree if it may be to those that its nodes can have.
pub proof fn lemma_can_map<T, U, F: Fn(T) -> U>(
    t: Svo<T>,
    rel: spec_fn(RangeZYX, SvoReturn<T>) -> bool,
    f: F,
)
    requires
        t.every_node(rel),
        forall|b: RangeZYX, v: T| #[trigger]
            rel(b, SvoReturn::Leaf(v)) ==> call_requires(f, (v,)),
        forall|b: RangeZYX, v: T| #[trigger]
            rel(b, SvoReturn::Internal(v)) ==> call_requires(f, (v,)),
    ensures
        t.can_map(f),
    decreases t,
{
    match t.children {
        None => {
            assert(rel(t.range, SvoReturn::Leaf(t.value)));
        },
        Some(cs) => {
            assert(rel(t.range, SvoReturn::Internal(t.value)));
            assert forall|k: int| 0 <= k < cs@.len() implies (#[trigger] cs@[k]).can_map(f) by {
                lemma_can_map(cs@[k], rel, f);
            }
        },
    }
}

/// Two trees over the same box are alike if of two nodes with the same box both are leaves or
/// neither is.
pub proof fn lemma_alike<T, U>(
    t: Svo<T>,
    u: Svo<U>,
    first: spec_fn(RangeZYX, SvoReturn<T>) -> bool,
    second: spec_fn(RangeZYX, SvoReturn<U>) -> bool,
    pair: spec_fn(T, U) -> bool,
)
    requires
        t.wf(),
        u.wf(),
        t.range == u.range,
        t.every_node(first),
        u.every_node(second),
        forall|b: RangeZYX, x: SvoReturn<T>, y: SvoReturn<U>|
            #[trigger] first(b, x) && #[trigger] second(b, y) ==> match (x, y) {
                (SvoReturn::Leaf(v), SvoReturn::Leaf(w)) => pair(v, w),
                (SvoReturn::Internal(v), SvoReturn::Internal(w)) => pair(v, w),
                _ => false,
            },
    ensures
        t.alike(u, pair),
    decreases t,
{
    let x = match t.children {
        None => SvoReturn::Leaf(t.value),
        Some(_) => SvoReturn::Internal(t.value),
    };
    let y = match u.children {
        None => SvoReturn::Leaf(u.value),
        Some(_) => SvoReturn::Internal(u.value),
    };
    assert(first(t.range, x) && second(t.range, y));
    if let (Some(cs), Some(ds)) = (t.children, u.children) {
        assert forall|k: int| 0 <= k < cs@.len() implies (#[trigger] cs@[k]).alike(
            ds@[k],
            pair,
        ) by {
            assert(ds@[k].range == u.range.octant(k));
            lemma_alike(cs@[k], ds@[k], first, second, pair);
        }
    }
}

} // verus!
