//! Placing and smoothing vertices by their neighbors.
use crate::geometry::{fill_neighbor, neighbor_step, Point};
use crate::offset::{all_inner, all_on_lattice, extends, Displacement, Encoded, Vertices};
use crate::point_map::PointMap;
use crate::probe::{agrees1, agrees2, agrees3};
use vstd::prelude::*;

verus! {

/// The vertices at the face neighbors of a grid corner, where they are placed.
#[derive(Clone, Copy, Debug, PartialEq, Eq, Structural)]
pub struct Neighborhood {
    pub plus_x: Option<Encoded>,
    pub minus_x: Option<Encoded>,
    pub plus_y: Option<Encoded>,
    pub minus_y: Option<Encoded>,
    pub plus_z: Option<Encoded>,
    pub minus_z: Option<Encoded>,
}

/// So many placed neighbors place a vertex.
pub const ENOUGH_NEIGHBORS: u32 = 2;

pub open spec fn one_if(b: bool) -> nat {
    if b {
        1
    } else {
        0
    }
}

fn one_if_placed(e: &Option<Encoded>) -> (n: u32)
    ensures
        n == one_if(e is Some),
{
    if e.is_some() {
        1
    } else {
        0
    }
}

impl Neighborhood {
    /// The number of placed neighbors.
    pub open spec fn placed(self) -> nat {
        one_if(self.plus_x is Some) + one_if(self.minus_x is Some) + one_if(self.plus_y is Some)
            + one_if(self.minus_y is Some) + one_if(self.plus_z is Some) + one_if(
            self.minus_z is Some,
        )
    }

    /// The number of placed neighbors.
    pub fn count(&self) -> (n: u32)
        ensures
            n == self.placed(),
    {
        one_if_placed(&self.plus_x) + one_if_placed(&self.minus_x) + one_if_placed(&self.plus_y)
            + one_if_placed(&self.minus_y) + one_if_placed(&self.plus_z) + one_if_placed(
            &self.minus_z,
        )
    }
}

/// The vertex at neighbor `k` of `p`.
pub open spec fn vertex_beside(v: Vertices, p: Point, k: int) -> Option<Encoded> {
    let q = p.shifted(fill_neighbor(k));
    if v.contains_key(q) {
        Some(v[q])
    } else {
        None
    }
}

/// The vertices around `p`.
pub open spec fn neighborhood(v: Vertices, p: Point) -> Neighborhood {
    Neighborhood {
        plus_x: vertex_beside(v, p, 0),
        minus_x: vertex_beside(v, p, 1),
        plus_y: vertex_beside(v, p, 2),
        minus_y: vertex_beside(v, p, 3),
        plus_z: vertex_beside(v, p, 4),
        minus_z: vertex_beside(v, p, 5),
    }
}

fn beside(vertices: &PointMap<Encoded>, p: Point, k: usize) -> (r: Option<Encoded>)
    requires
        vertices.wf(),
        p.inner(),
        k < 6,
    ensures
        r == vertex_beside(vertices@, p, k as int),
{
    match vertices.get(p.shift(neighbor_step(k))) {
        Some(e) => Some(*e),
        None => None,
    }
}

/// The vertices around `p`.
pub fn gather_neighbors(vertices: &PointMap<Encoded>, p: Point) -> (n: Neighborhood)
    requires
        vertices.wf(),
        p.inner(),
    ensures
        n == neighborhood(vertices@, p),
{
    Neighborhood {
        plus_x: beside(vertices, p, 0),
        minus_x: beside(vertices, p, 1),
        plus_y: beside(vertices, p, 2),
        minus_y: beside(vertices, p, 3),
        plus_z: beside(vertices, p, 4),
        minus_z: beside(vertices, p, 5),
    }
}

/// There are enough placed vertices around `p` to place one there.
pub open spec fn can_average(v: Vertices, p: Point) -> bool {
    neighborhood(v, p).placed() >= ENOUGH_NEIGHBORS
}

/// The offset of `p` that its placed neighbors give, if there are enough of them.
pub open spec fn averaged(
    v: Vertices,
    p: Point,
    average: spec_fn(Point, Neighborhood) -> Displacement,
) -> Option<Encoded> {
    if can_average(v, p) {
        Some(average(p, neighborhood(v, p)).rounded())
    } else {
        None
    }
}

/// The mean position of the neighbors of `p` may be asked for, where enough are placed.
pub open spec fn can_ask_average<A: Fn(Point, Neighborhood) -> Displacement>(
    average: A,
    p: Point,
) -> bool {
    forall|n: Neighborhood|
        n.placed() >= ENOUGH_NEIGHBORS ==> #[trigger] call_requires(average, (p, n))
}

/// The offset of `p` that its placed neighbors give. `average` is the displacement from `p` to
/// the mean position of the placed neighbors.
pub fn neighbor_average<A: Fn(Point, Neighborhood) -> Displacement>(
    vertices: &PointMap<Encoded>,
    p: Point,
    average: &A,
) -> (r: Option<Encoded>)
    requires
        vertices.wf(),
        p.inner(),
        can_ask_average(*average, p),
    ensures
        r is Some <==> can_average(vertices@, p),
        r matches Some(e) ==> e.on_lattice(),
        forall|a: spec_fn(Point, Neighborhood) -> Displacement| #[trigger]
            agrees2(*average, a) ==> r == averaged(vertices@, p, a),
{
    let around: Neighborhood = gather_neighbors(vertices, p);
    if around.count() >= ENOUGH_NEIGHBORS {
        Some(average(p, around).to_full_offset())
    } else {
        None
    }
}

/// The vertices after one pass over the first `k` of the unset points, and the points that are
/// still unset. A vertex that a pass places counts for the points that follow.
pub open spec fn snap_pass(
    v: Vertices,
    unset: Seq<Point>,
    average: spec_fn(Point, Neighborhood) -> Displacement,
    k: nat,
) -> (Vertices, Seq<Point>)
    decreases k,
{
    if k == 0 || k > unset.len() {
        (v, seq![])
    } else {
        let (w, rest) = snap_pass(v, unset, average, (k - 1) as nat);
        let p = unset[k - 1];
        match averaged(w, p, average) {
            Some(e) => (w.insert(p, e), rest),
            None => (w, rest.push(p)),
        }
    }
}

/// The vertices after passes over the unset points until none places a vertex, and the points
/// that are still unset.
pub open spec fn snap_rounds(
    v: Vertices,
    unset: Seq<Point>,
    average: spec_fn(Point, Neighborhood) -> Displacement,
) -> (Vertices, Seq<Point>)
    decreases unset.len(),
{
    let (w, rest) = snap_pass(v, unset, average, unset.len());
    if rest.len() < unset.len() {
        snap_rounds(w, rest, average)
    } else {
        (w, rest)
    }
}

/// The vertices, and one more for each of the points, as `closest` places it.
pub open spec fn projected(
    v: Vertices,
    points: Seq<Point>,
    closest: spec_fn(Point) -> Displacement,
) -> Vertices {
    v.union_prefer_right(
        Map::new(|p: Point| points.contains(p), |p: Point| closest(p).rounded()),
    )
}

/// The vertices, with all unset points placed: by their neighbors as far as that goes, the rest
/// on the surface.
pub open spec fn snapped(
    v: Vertices,
    unset: Seq<Point>,
    average: spec_fn(Point, Neighborhood) -> Displacement,
    closest: spec_fn(Point) -> Displacement,
) -> Vertices {
    let (w, rest) = snap_rounds(v, unset, average);
    projected(w, rest, closest)
}

/// None of the points is placed yet or given twice, and all have neighbors.
pub open spec fn all_unset(v: Vertices, points: Seq<Point>) -> bool {
    &&& points.no_duplicates()
    &&& forall|i: int| 0 <= i < points.len() ==> !v.contains_key(#[trigger] points[i])
    &&& forall|i: int| 0 <= i < points.len() ==> (#[trigger] points[i]).inner()
}

/// `b` extends `a` by points of `points` only, and all new offsets lie on the lattice.
pub open spec fn placed_among(a: Vertices, b: Vertices, points: Seq<Point>) -> bool {
    &&& extends(a, b)
    &&& forall|p: Point| #[trigger]
        b.contains_key(p) && !a.contains_key(p) ==> points.contains(p) && b[p].on_lattice()
}

/// One pass over the unset points; returns those that it left unset.
fn snap_once<A: Fn(Point, Neighborhood) -> Displacement>(
    vertices: &mut PointMap<Encoded>,
    unset: &Vec<Point>,
    average: &A,
) -> (rest: Vec<Point>)
    requires
        old(vertices).wf(),
        all_unset(old(vertices)@, unset@),
        forall|p: Point| #[trigger] unset@.contains(p) ==> can_ask_average(*average, p),
    ensures
        final(vertices).wf(),
        placed_among(old(vertices)@, final(vertices)@, unset@),
        all_unset(final(vertices)@, rest@),
        rest@.len() <= unset@.len(),
        forall|p: Point| #[trigger]
            unset@.contains(p) ==> rest@.contains(p) || final(vertices)@.contains_key(p),
        forall|p: Point| #[trigger] rest@.contains(p) ==> unset@.contains(p),
        forall|a: spec_fn(Point, Neighborhood) -> Displacement| #[trigger]
            agrees2(*average, a) ==> (final(vertices)@, rest@) == snap_pass(
                old(vertices)@,
                unset@,
                a,
                unset@.len(),
            ),
{
    let ghost start = vertices@;
    let mut rest: Vec<Point> = Vec::new();
    let mut i: usize = 0;
    while i < unset.len()
        invariant
            i <= unset@.len(),
            vertices.wf(),
            all_unset(start, unset@),
            forall|p: Point| #[trigger] unset@.contains(p) ==> can_ask_average(*average, p),
            placed_among(start, vertices@, unset@),
            forall|j: int|
                i <= j < unset@.len() ==> !vertices@.contains_key(#[trigger] unset@[j]),
            all_unset(vertices@, rest@),
            rest@.len() <= i,
            forall|j: int|
                0 <= j < i ==> rest@.contains(#[trigger] unset@[j]) || vertices@.contains_key(
                    unset@[j],
                ),
            forall|j: int|
                0 <= j < rest@.len() ==> exists|l: int|
                    0 <= l < i && #[trigger] unset@[l] == #[trigger] rest@[j],
            forall|a: spec_fn(Point, Neighborhood) -> Displacement| #[trigger]
                agrees2(*average, a) ==> (vertices@, rest@) == snap_pass(
                    start,
                    unset@,
                    a,
                    i as nat,
                ),
        decreases unset@.len() - i,
    {
        let p: Point = unset[i];
        assert(unset@.contains(p));
        let ghost before = (vertices@, rest@);
        match neighbor_average(vertices, p, average) {
            Some(e) => {
                vertices.insert(p, e);
                assert forall|j: int| 0 <= j < rest@.len() implies !vertices@.contains_key(
                    #[trigger] rest@[j],
                ) by {
                    let l = choose|l: int| 0 <= l < i && #[trigger] unset@[l] == rest@[j];
                    assert(unset@[l] != unset@[i as int]);
                }
            },
            None => {
                rest.push(p);
                assert forall|j: int| 0 <= j < rest@.len() implies exists|l: int|
                    0 <= l < i + 1 && #[trigger] unset@[l] == #[trigger] rest@[j] by {
                    if j == rest@.len() - 1 {
                        assert(unset@[i as int] == rest@[j]);
                    } else {
                        assert(rest@[j] == before.1[j]);
                    }
                }
                assert(rest@.no_duplicates()) by {
                    assert forall|j: int, k: int|
                        0 <= j < rest@.len() && 0 <= k < rest@.len() && j != k implies rest@[j]
                        != rest@[k] by {
                        let n = rest@.len() - 1;
                        let other = if j == n {
                            k
                        } else {
                            j
                        };
                        if j == n || k == n {
                            assert(rest@[other] == before.1[other]);
                            let l = choose|l: int|
                                0 <= l < i && #[trigger] unset@[l] == before.1[other];
                            assert(unset@[l] != unset@[i as int]);
                        } else {
                            assert(rest@[j] == before.1[j]);
                            assert(rest@[k] == before.1[k]);
                        }
                    }
                }
                assert forall|j: int| 0 <= j < i + 1 implies rest@.contains(#[trigger] unset@[j])
                    || vertices@.contains_key(unset@[j]) by {
                    if j == i {
                        assert(rest@[rest@.len() - 1] == p);
                    } else if before.1.contains(unset@[j]) {
                        let l = choose|l: int| 0 <= l < before.1.len() && before.1[l] == unset@[j];
                        assert(rest@[l] == unset@[j]);
                    }
                }
            },
        }
        i = i + 1;
    }
    assert forall|p: Point| #[trigger] unset@.contains(p) implies rest@.contains(p)
        || vertices@.contains_key(p) by {
        let j = choose|j: int| 0 <= j < unset@.len() && unset@[j] == p;
        assert(unset@[j] == p);
    }
    assert forall|p: Point| #[trigger] rest@.contains(p) implies unset@.contains(p) by {
        let j = choose|j: int| 0 <= j < rest@.len() && rest@[j] == p;
        assert(rest@[j] == p);
    }
    rest
}

/// Places all unset points, in passes over them in the order given: a point with enough placed
/// neighbors is placed by them, and what no pass places ends up on the surface. `closest` is the
/// displacement from a grid corner to the nearest point of the surface.
pub fn snap_in_order<A: Fn(Point, Neighborhood) -> Displacement, C: Fn(Point) -> Displacement>(
    vertices: &mut PointMap<Encoded>,
    unset: Vec<Point>,
    average: &A,
    closest: &C,
)
    requires
        old(vertices).wf(),
        all_unset(old(vertices)@, unset@),
        forall|p: Point| #[trigger]
            unset@.contains(p) ==> can_ask_average(*average, p) && call_requires(*closest, (p,)),
    ensures
        final(vertices).wf(),
        placed_among(old(vertices)@, final(vertices)@, unset@),
        forall|p: Point| #[trigger] unset@.contains(p) ==> final(vertices)@.contains_key(p),
        forall|
            a: spec_fn(Point, Neighborhood) -> Displacement,
            c: spec_fn(Point) -> Displacement,
        |
            #[trigger] agrees2(*average, a) && #[trigger] agrees1(*closest, c) ==> final(vertices)@
                == snapped(old(vertices)@, unset@, a, c),
{
    let ghost start = vertices@;
    let ghost all = unset@;
    let mut pending: Vec<Point> = unset;
    loop
        invariant_except_break
            forall|a: spec_fn(Point, Neighborhood) -> Displacement| #[trigger]
                agrees2(*average, a) ==> snap_rounds(start, all, a) == snap_rounds(
                    vertices@,
                    pending@,
                    a,
                ),
        invariant
            vertices.wf(),
            all_unset(vertices@, pending@),
            forall|p: Point| #[trigger] all.contains(p) ==> can_ask_average(*average, p),
            placed_among(start, vertices@, all),
            forall|p: Point| #[trigger]
                all.contains(p) ==> pending@.contains(p) || vertices@.contains_key(p),
            forall|p: Point| #[trigger] pending@.contains(p) ==> all.contains(p),
        ensures
            forall|a: spec_fn(Point, Neighborhood) -> Displacement| #[trigger]
                agrees2(*average, a) ==> snap_rounds(start, all, a) == (vertices@, pending@),
        decreases pending@.len(),
    {
        let rest: Vec<Point> = snap_once(vertices, &pending, average);
        let placed_none: bool = rest.len() == pending.len();
        pending = rest;
        if placed_none {
            break ;
        }
    }
    let ghost grown = vertices@;
    let mut i: usize = 0;
    assert forall|c: spec_fn(Point) -> Displacement| #[trigger]
        agrees1(*closest, c) implies vertices@ == projected(grown, pending@.take(0), c) by {
        assert(vertices@ =~= projected(grown, pending@.take(0), c));
    }
    while i < pending.len()
        invariant
            i <= pending@.len(),
            vertices.wf(),
            forall|p: Point| #[trigger] all.contains(p) ==> call_requires(*closest, (p,)),
            all_unset(grown, pending@),
            placed_among(start, grown, all),
            placed_among(start, vertices@, all),
            forall|p: Point| #[trigger]
                grown.contains_key(p) ==> vertices@.contains_key(p),
            forall|j: int| 0 <= j < i ==> vertices@.contains_key(#[trigger] pending@[j]),
            forall|p: Point| #[trigger] pending@.contains(p) ==> all.contains(p),
            forall|c: spec_fn(Point) -> Displacement| #[trigger]
                agrees1(*closest, c) ==> vertices@ == projected(
                    grown,
                    pending@.take(i as int),
                    c,
                ),
        decreases pending@.len() - i,
    {
        let p: Point = pending[i];
        assert(pending@.contains(p));
        let ghost before = vertices@;
        let d: Displacement = closest(p);
        vertices.insert(p, d.to_full_offset());
        proof {
            let t = pending@.take(i as int);
            let u = pending@.take(i + 1);
            assert(u =~= t.push(p));
            assert forall|c: spec_fn(Point) -> Displacement| #[trigger]
                agrees1(*closest, c) implies vertices@ == projected(grown, u, c) by {
                assert forall|q: Point| u.contains(q) <==> t.contains(q) || q == p by {
                    if t.contains(q) {
                        let j = choose|j: int| 0 <= j < t.len() && t[j] == q;
                        assert(u[j] == q);
                    }
                    assert(u[i as int] == p);
                }
                assert(vertices@ =~= projected(grown, u, c));
            }
            assert(!grown.contains_key(p));
            assert(!start.contains_key(p));
        }
        i = i + 1;
    }
    assert(pending@.take(pending@.len() as int) =~= pending@);
    assert forall|p: Point| #[trigger] all.contains(p) implies vertices@.contains_key(p) by {
        if pending@.contains(p) {
            let j = choose|j: int| 0 <= j < pending@.len() && pending@[j] == p;
            assert(vertices@.contains_key(pending@[j]));
        }
    }
}

/// The vertices after one step of relaxation: a vertex with a placed neighbor moves where
/// `relaxed` says, as its neighbors stood before the step.
pub open spec fn relaxed_once(
    v: Vertices,
    relaxed: spec_fn(Point, Encoded, Neighborhood) -> Displacement,
) -> Vertices {
    Map::new(
        |p: Point| v.contains_key(p),
        |p: Point|
            if neighborhood(v, p).placed() == 0 {
                v[p]
            } else {
                relaxed(p, v[p], neighborhood(v, p)).rounded()
            },
    )
}

/// The vertices after `n` steps of relaxation.
pub open spec fn relaxed_times(
    v: Vertices,
    relaxed: spec_fn(Point, Encoded, Neighborhood) -> Displacement,
    n: nat,
) -> Vertices
    decreases n,
{
    if n == 0 {
        v
    } else {
        relaxed_once(relaxed_times(v, relaxed, (n - 1) as nat), relaxed)
    }
}

/// Where the vertex of `p` is relaxed to may be asked, where a neighbor is placed.
pub open spec fn can_ask_relaxed<R: Fn(Point, Encoded, Neighborhood) -> Displacement>(
    relaxed: R,
    p: Point,
) -> bool {
    forall|e: Encoded, n: Neighborhood|
        n.placed() > 0 ==> #[trigger] call_requires(relaxed, (p, e, n))
}

/// One step of relaxation.
fn relax_once<R: Fn(Point, Encoded, Neighborhood) -> Displacement>(
    vertices: &PointMap<Encoded>,
    relaxed: &R,
) -> (next: PointMap<Encoded>)
    requires
        vertices.wf(),
        all_inner(vertices@),
        forall|p: Point| #[trigger] vertices@.contains_key(p) ==> can_ask_relaxed(*relaxed, p),
    ensures
        next.wf(),
        next@.dom() == vertices@.dom(),
        forall|p: Point| #[trigger]
            next@.contains_key(p) ==> next@[p] == vertices@[p] || next@[p].on_lattice(),
        forall|r: spec_fn(Point, Encoded, Neighborhood) -> Displacement| #[trigger]
            agrees3(*relaxed, r) ==> next@ == relaxed_once(vertices@, r),
{
    let mut next: PointMap<Encoded> = PointMap::new();
    let n: usize = vertices.len();
    let ghost keys = vertices.keys();
    proof {
        vertices.lemma_keys();
    }
    let mut i: usize = 0;
    while i < n
        invariant
            i <= n,
            n == keys.len(),
            keys == vertices.keys(),
            keys.no_duplicates(),
            vertices.wf(),
            all_inner(vertices@),
            forall|p: Point| #[trigger]
                vertices@.contains_key(p) ==> can_ask_relaxed(*relaxed, p),
            next.wf(),
            forall|j: int| 0 <= j < i ==> next@.contains_key(#[trigger] keys[j]),
            forall|p: Point| #[trigger] next@.contains_key(p) ==> vertices@.contains_key(p),
            forall|p: Point| #[trigger]
                next@.contains_key(p) ==> next@[p] == vertices@[p] || next@[p].on_lattice(),
            forall|r: spec_fn(Point, Encoded, Neighborhood) -> Displacement, p: Point|
                #[trigger] agrees3(*relaxed, r) && #[trigger] next@.contains_key(p) ==> next@[p]
                    == relaxed_once(vertices@, r)[p],
        decreases n - i,
    {
        let (p, e): (Point, &Encoded) = vertices.entry(i);
        let around: Neighborhood = gather_neighbors(vertices, p);
        let moved: Encoded = if around.count() == 0 {
            *e
        } else {
            relaxed(p, *e, around).to_full_offset()
        };
        next.insert(p, moved);
        i = i + 1;
    }
    assert(next@.dom() =~= vertices@.dom()) by {
        assert forall|p: Point| #[trigger] vertices@.contains_key(p) implies next@.contains_key(
            p,
        ) by {
            assert(keys.contains(p));
            let j = choose|j: int| 0 <= j < keys.len() && keys[j] == p;
            assert(next@.contains_key(keys[j]));
        }
    }
    assert forall|r: spec_fn(Point, Encoded, Neighborhood) -> Displacement| #[trigger]
        agrees3(*relaxed, r) implies next@ == relaxed_once(vertices@, r) by {
        assert(next@ =~= relaxed_once(vertices@, r));
    }
    next
}

/// Moves every vertex with a placed neighbor, `iterations` times over. `relaxed` is the
/// displacement from a grid corner to the point of the surface that is nearest to the middle
/// between its vertex and the mean of the placed neighbors.
pub fn relax_surface_vertices<R: Fn(Point, Encoded, Neighborhood) -> Displacement>(
    vertices: &mut PointMap<Encoded>,
    relaxed: &R,
    iterations: u32,
)
    requires
        old(vertices).wf(),
        iterations > 0 ==> all_inner(old(vertices)@),
        iterations > 0 ==> forall|p: Point| #[trigger]
            old(vertices)@.contains_key(p) ==> can_ask_relaxed(*relaxed, p),
    ensures
        final(vertices).wf(),
        final(vertices)@.dom() == old(vertices)@.dom(),
        all_on_lattice(old(vertices)@) ==> all_on_lattice(final(vertices)@),
        iterations == 0 ==> final(vertices)@ == old(vertices)@,
        forall|r: spec_fn(Point, Encoded, Neighborhood) -> Displacement| #[trigger]
            agrees3(*relaxed, r) ==> final(vertices)@ == relaxed_times(
                old(vertices)@,
                r,
                iterations as nat,
            ),
{
    let ghost start = vertices@;
    let mut n: u32 = 0;
    while n < iterations
        invariant
            n <= iterations,
            vertices.wf(),
            iterations > 0 ==> all_inner(vertices@),
            iterations > 0 ==> forall|p: Point| #[trigger]
                vertices@.contains_key(p) ==> can_ask_relaxed(*relaxed, p),
            vertices@.dom() == start.dom(),
            all_on_lattice(start) ==> all_on_lattice(vertices@),
            n == 0 ==> vertices@ == start,
            forall|r: spec_fn(Point, Encoded, Neighborhood) -> Displacement| #[trigger]
                agrees3(*relaxed, r) ==> vertices@ == relaxed_times(start, r, n as nat),
        decreases iterations - n,
    {
        let ghost before = vertices@;
        let next: PointMap<Encoded> = relax_once(vertices, relaxed);
        *vertices = next;
        proof {
            assert forall|p: Point| #[trigger] vertices@.contains_key(p) implies p.inner()
                && can_ask_relaxed(*relaxed, p) by {
                assert(before.dom().contains(p));
                assert(before.contains_key(p));
            }
            if all_on_lattice(start) {
                assert forall|p: Point| #[trigger]
                    vertices@.contains_key(p) implies vertices@[p].on_lattice() by {
                    assert(before.dom().contains(p));
                    assert(before.contains_key(p));
                }
            }
        }
        n = n + 1;
    }
}

/// More vertices never make a point lack neighbors.
proof fn lemma_can_average_grows(v: Vertices, w: Vertices, p: Point)
    requires
        forall|q: Point| #[trigger] v.contains_key(q) ==> w.contains_key(q),
        can_average(v, p),
    ensures
        can_average(w, p),
{
    assert forall|k: int| #[trigger] vertex_beside(v, p, k) is Some implies vertex_beside(
        w,
        p,
        k,
    ) is Some by {
        assert(v.contains_key(p.shifted(fill_neighbor(k))));
    }
    assert(vertex_beside(v, p, 0) is Some ==> vertex_beside(w, p, 0) is Some);
    assert(vertex_beside(v, p, 1) is Some ==> vertex_beside(w, p, 1) is Some);
    assert(vertex_beside(v, p, 2) is Some ==> vertex_beside(w, p, 2) is Some);
    assert(vertex_beside(v, p, 3) is Some ==> vertex_beside(w, p, 3) is Some);
    assert(vertex_beside(v, p, 4) is Some ==> vertex_beside(w, p, 4) is Some);
    assert(vertex_beside(v, p, 5) is Some ==> vertex_beside(w, p, 5) is Some);
}

/// No point of `points` is without a vertex in `w` and has neighbors enough for one.
pub open spec fn settled(w: Vertices, points: Seq<Point>) -> bool {
    forall|i: int|
        0 <= i < points.len() && !w.contains_key(#[trigger] points[i]) ==> !can_average(
            w,
            points[i],
        )
}

/// A pass places the points of `unset` or leaves them, and what it places, any settled set of
/// vertices has.
pub(crate) proof fn lemma_pass(
    v: Vertices,
    unset: Seq<Point>,
    average: spec_fn(Point, Neighborhood) -> Displacement,
    k: nat,
)
    requires
        all_unset(v, unset),
        k <= unset.len(),
    ensures
        ({
            let (w, rest) = snap_pass(v, unset, average, k);
            &&& rest.len() <= k
            &&& extends(v, w)
            &&& all_unset(w, rest)
            &&& forall|i: int| k <= i < unset.len() ==> !w.contains_key(#[trigger] unset[i])
            &&& forall|i: int|
                0 <= i < k ==> w.contains_key(#[trigger] unset[i]) || rest.contains(unset[i])
            &&& forall|j: int|
                0 <= j < rest.len() ==> exists|i: int|
                    0 <= i < k && #[trigger] unset[i] == #[trigger] rest[j]
            &&& rest.len() == k ==> {
                &&& w == v
                &&& rest == unset.take(k as int)
                &&& forall|i: int| 0 <= i < k ==> !can_average(v, #[trigger] unset[i])
            }
            &&& forall|c: Vertices|
                #![trigger settled(c, unset)]
                settled(c, unset) && (forall|q: Point| #[trigger]
                    v.contains_key(q) ==> c.contains_key(q)) ==> (forall|q: Point| #[trigger]
                    w.contains_key(q) ==> c.contains_key(q))
        }),
    decreases k,
{
    if k == 0 {
        assert(unset.take(0) =~= Seq::<Point>::empty());
    } else {
        lemma_pass(v, unset, average, (k - 1) as nat);
        let (u, head) = snap_pass(v, unset, average, (k - 1) as nat);
        let (w, rest) = snap_pass(v, unset, average, k);
        let p = unset[k - 1];
        if can_average(u, p) {
            assert(w == u.insert(p, average(p, neighborhood(u, p)).rounded()));
            assert(rest == head);
            assert forall|j: int| 0 <= j < rest.len() implies !w.contains_key(
                #[trigger] rest[j],
            ) by {
                let i = choose|i: int| 0 <= i < k - 1 && #[trigger] unset[i] == head[j];
                assert(unset[i] != unset[k - 1]);
            }
            assert forall|c: Vertices|
                #![trigger settled(c, unset)]
                settled(c, unset) && (forall|q: Point| #[trigger]
                    v.contains_key(q) ==> c.contains_key(q)) implies (forall|q: Point| #[trigger]
                w.contains_key(q) ==> c.contains_key(q)) by {
                lemma_can_average_grows(u, c, p);
                assert(c.contains_key(unset[k - 1]));
            }
        } else {
            assert(w == u);
            assert(rest == head.push(p));
            assert forall|j: int| 0 <= j < rest.len() implies exists|i: int|
                0 <= i < k && #[trigger] unset[i] == #[trigger] rest[j] by {
                if j < head.len() {
                    assert(rest[j] == head[j]);
                } else {
                    assert(unset[k - 1] == rest[j]);
                }
            }
            assert forall|a: int, b: int|
                0 <= a < rest.len() && 0 <= b < rest.len() && a != b implies rest[a] != rest[b] by {
                let n = head.len() as int;
                if a < n && b < n {
                    assert(head[a] != head[b]);
                } else {
                    let o = if a < n {
                        a
                    } else {
                        b
                    };
                    assert(rest[o] == head[o]);
                    let i = choose|i: int| 0 <= i < k - 1 && #[trigger] unset[i] == head[o];
                    assert(unset[i] != unset[k - 1]);
                }
            }
            assert forall|i: int| 0 <= i < k implies w.contains_key(#[trigger] unset[i])
                || rest.contains(unset[i]) by {
                if i == k - 1 {
                    assert(rest[rest.len() - 1] == p);
                } else if head.contains(unset[i]) {
                    let j = choose|j: int| 0 <= j < head.len() && head[j] == unset[i];
                    assert(rest[j] == unset[i]);
                }
            }
            if rest.len() == k {
                assert(rest =~= unset.take(k as int));
            }
        }
    }
}

/// Neighbors place vertices as far as they can, and no further. What is placed stays, and points
/// of `unset` are added until no point that is left has neighbors enough. Every set of vertices
/// that holds the old ones and is settled in this way has all of the new ones, so they are the
/// least such set; exactly the points that are not among them are left for the surface, and each
/// of those lies where `closest` says.
pub proof fn neighbors_place_the_least_settled_set(
    v: Vertices,
    unset: Seq<Point>,
    average: spec_fn(Point, Neighborhood) -> Displacement,
    closest: spec_fn(Point) -> Displacement,
)
    requires
        all_unset(v, unset),
    ensures
        ({
            let (w, rest) = snap_rounds(v, unset, average);
            &&& extends(v, w)
            &&& settled(w, unset)
            &&& forall|p: Point| #[trigger]
                w.contains_key(p) ==> v.contains_key(p) || unset.contains(p)
            &&& forall|c: Vertices|
                #![trigger settled(c, unset)]
                settled(c, unset) && (forall|q: Point| #[trigger]
                    v.contains_key(q) ==> c.contains_key(q)) ==> (forall|q: Point| #[trigger]
                    w.contains_key(q) ==> c.contains_key(q))
            &&& forall|p: Point| #[trigger]
                rest.contains(p) <==> unset.contains(p) && !w.contains_key(p)
            &&& extends(w, snapped(v, unset, average, closest))
            &&& forall|p: Point| #[trigger]
                rest.contains(p) ==> snapped(v, unset, average, closest)[p] == closest(p).rounded()
        }),
{
    lemma_rounds(v, unset, average);
    let (w, rest) = snap_rounds(v, unset, average);
    let full = v.union_prefer_right(
        Map::new(|p: Point| unset.contains(p), |p: Point| closest(p).rounded()),
    );
    assert(settled(full, unset)) by {
        assert forall|i: int|
            0 <= i < unset.len() && !full.contains_key(#[trigger] unset[i]) implies !can_average(
            full,
            unset[i],
        ) by {
            assert(unset.contains(unset[i]));
        }
    }
    assert forall|p: Point| #[trigger] w.contains_key(p) implies v.contains_key(p)
        || unset.contains(p) by {
        assert(full.contains_key(p));
    }
    assert forall|p: Point| #[trigger] w.contains_key(p) implies !rest.contains(p) by {}
}

/// The passes place the points of `unset` or leave them; the vertices are settled in the end,
/// and every settled set of vertices has them.
proof fn lemma_rounds(
    v: Vertices,
    unset: Seq<Point>,
    average: spec_fn(Point, Neighborhood) -> Displacement,
)
    requires
        all_unset(v, unset),
    ensures
        ({
            let (w, rest) = snap_rounds(v, unset, average);
            &&& extends(v, w)
            &&& settled(w, unset)
            &&& forall|p: Point| #[trigger]
                rest.contains(p) <==> unset.contains(p) && !w.contains_key(p)
            &&& forall|c: Vertices|
                #![trigger settled(c, unset)]
                settled(c, unset) && (forall|q: Point| #[trigger]
                    v.contains_key(q) ==> c.contains_key(q)) ==> (forall|q: Point| #[trigger]
                    w.contains_key(q) ==> c.contains_key(q))
        }),
    decreases unset.len(),
{
    let n = unset.len();
    lemma_pass(v, unset, average, n);
    let (u, head) = snap_pass(v, unset, average, n);
    let (w, rest) = snap_rounds(v, unset, average);
    if head.len() < n {
        lemma_rounds(u, head, average);
        assert forall|i: int|
            0 <= i < n && !w.contains_key(#[trigger] unset[i]) implies !can_average(
            w,
            unset[i],
        ) by {
            assert(!u.contains_key(unset[i]));
            assert(head.contains(unset[i]));
            let j = choose|j: int| 0 <= j < head.len() && head[j] == unset[i];
            assert(!w.contains_key(head[j]));
        }
        assert forall|p: Point| #[trigger] rest.contains(p) <==> unset.contains(p)
            && !w.contains_key(p) by {
            if head.contains(p) {
                let j = choose|j: int| 0 <= j < head.len() && head[j] == p;
                let i = choose|i: int| 0 <= i < n && #[trigger] unset[i] == head[j];
                assert(unset.contains(p));
            }
            if unset.contains(p) && !w.contains_key(p) {
                let i = choose|i: int| 0 <= i < n && unset[i] == p;
                assert(!u.contains_key(unset[i]));
                assert(head.contains(unset[i]));
            }
        }
        assert forall|c: Vertices|
            #![trigger settled(c, unset)]
            settled(c, unset) && (forall|q: Point| #[trigger]
                v.contains_key(q) ==> c.contains_key(q)) implies (forall|q: Point| #[trigger]
            w.contains_key(q) ==> c.contains_key(q)) by {
            assert(settled(c, head)) by {
                assert forall|j: int|
                    0 <= j < head.len() && !c.contains_key(
                        #[trigger] head[j],
                    ) implies !can_average(c, head[j]) by {
                    let i = choose|i: int| 0 <= i < n && #[trigger] unset[i] == head[j];
                    assert(!c.contains_key(unset[i]));
                }
            }
        }
    } else {
        assert(head =~= unset);
        assert forall|p: Point| #[trigger] rest.contains(p) <==> unset.contains(p)
            && !w.contains_key(p) by {
            if unset.contains(p) {
                let i = choose|i: int| 0 <= i < n && unset[i] == p;
                assert(!v.contains_key(unset[i]));
            }
        }
    }
}

/// Which points are placed by their neighbors and which end up on the surface does not depend on
/// the order in which the unset points are visited, nor on where the vertices are placed.
pub proof fn snapping_order_is_immaterial(
    v: Vertices,
    unset1: Seq<Point>,
    unset2: Seq<Point>,
    average1: spec_fn(Point, Neighborhood) -> Displacement,
    average2: spec_fn(Point, Neighborhood) -> Displacement,
)
    requires
        all_unset(v, unset1),
        all_unset(v, unset2),
        forall|p: Point| #[trigger] unset1.contains(p) <==> unset2.contains(p),
    ensures
        forall|p: Point| #[trigger]
            snap_rounds(v, unset1, average1).1.contains(p) <==> snap_rounds(
                v,
                unset2,
                average2,
            ).1.contains(p),
{
    lemma_rounds(v, unset1, average1);
    lemma_rounds(v, unset2, average2);
    let w1 = snap_rounds(v, unset1, average1).0;
    let w2 = snap_rounds(v, unset2, average2).0;
    assert(settled(w2, unset1)) by {
        assert forall|i: int|
            0 <= i < unset1.len() && !w2.contains_key(#[trigger] unset1[i]) implies !can_average(
            w2,
            unset1[i],
        ) by {
            assert(unset1.contains(unset1[i]));
            assert(unset2.contains(unset1[i]));
            let j = choose|j: int| 0 <= j < unset2.len() && unset2[j] == unset1[i];
            assert(!w2.contains_key(unset2[j]));
        }
    }
    assert(settled(w1, unset2)) by {
        assert forall|i: int|
            0 <= i < unset2.len() && !w1.contains_key(#[trigger] unset2[i]) implies !can_average(
            w1,
            unset2[i],
        ) by {
            assert(unset2.contains(unset2[i]));
            assert(unset1.contains(unset2[i]));
            let j = choose|j: int| 0 <= j < unset1.len() && unset1[j] == unset2[i];
            assert(!w1.contains_key(unset1[j]));
        }
    }
    assert forall|p: Point| w1.contains_key(p) <==> w2.contains_key(p) by {}
}

/// Relaxation moves vertices, but neither adds nor removes any.
pub proof fn relaxation_keeps_corners(
    v: Vertices,
    relaxed: spec_fn(Point, Encoded, Neighborhood) -> Displacement,
    n: nat,
)
    ensures
        relaxed_times(v, relaxed, n).dom() == v.dom(),
    decreases n,
{
    if n > 0 {
        relaxation_keeps_corners(v, relaxed, (n - 1) as nat);
        assert(relaxed_times(v, relaxed, n).dom() =~= v.dom());
    }
}

/// Snapping keeps the vertices that are placed, and adds one for each of the unset points.
pub proof fn snapping_places_the_unset_points(
    v: Vertices,
    unset: Seq<Point>,
    average: spec_fn(Point, Neighborhood) -> Displacement,
    closest: spec_fn(Point) -> Displacement,
)
    requires
        all_unset(v, unset),
    ensures
        extends(v, snapped(v, unset, average, closest)),
        forall|p: Point| #[trigger]
            snapped(v, unset, average, closest).contains_key(p) <==> v.contains_key(p)
                || unset.contains(p),
{
    neighbors_place_the_least_settled_set(v, unset, average, closest);
    let (w, rest) = snap_rounds(v, unset, average);
    let s = snapped(v, unset, average, closest);
    assert forall|p: Point| #[trigger] s.contains_key(p) <==> v.contains_key(p) || unset.contains(
        p,
    ) by {
        if unset.contains(p) && !w.contains_key(p) {
            assert(rest.contains(p));
        }
    }
    assert forall|p: Point| #[trigger] v.contains_key(p) implies s.contains_key(p) && s[p]
        == v[p] by {
        assert(w.contains_key(p));
        assert(!rest.contains(p));
    }
}

} // verus!
