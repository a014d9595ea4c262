//! What neighbors do to a vertex, by where they lie.
use crate::geometry::{fill_neighbor, Point, Vector};
use crate::laws::cells::{is_step, neighbors_are_one_step_away};
use crate::neighbors::{
    all_unset, averaged, can_average, lemma_pass, neighborhood, relaxed_once, relaxed_times,
    snap_pass, snap_rounds, vertex_beside, Neighborhood,
};
use crate::offset::{Displacement, Encoded, Vertices};
use vstd::prelude::*;

verus! {

/// The vertex at the given coordinates.
pub open spec fn vertex_at(v: Vertices, x: int, y: int, z: int) -> Option<Encoded> {
    let q = Point { x: x as i32, y: y as i32, z: z as i32 };
    if v.contains_key(q) {
        Some(v[q])
    } else {
        None
    }
}

/// A vertex is placed one step from `p`.
pub open spec fn has_neighbor(v: Vertices, p: Point) -> bool {
    exists|u: Vector| #[trigger] is_step(u) && v.contains_key(p.shifted(u))
}

/// Two vertices are placed one step from `p`.
pub open spec fn has_two_neighbors(v: Vertices, p: Point) -> bool {
    exists|u: Vector, w: Vector|
        #[trigger] is_step(u) && #[trigger] is_step(w) && u != w && v.contains_key(p.shifted(u))
            && v.contains_key(p.shifted(w))
}

/// The neighborhood of a point holds the vertices one step up and down each axis.
pub proof fn neighbors_are_beside(v: Vertices, p: Point)
    requires
        p.inner(),
    ensures
        neighborhood(v, p).plus_x == vertex_at(v, p.x + 1, p.y as int, p.z as int),
        neighborhood(v, p).minus_x == vertex_at(v, p.x - 1, p.y as int, p.z as int),
        neighborhood(v, p).plus_y == vertex_at(v, p.x as int, p.y + 1, p.z as int),
        neighborhood(v, p).minus_y == vertex_at(v, p.x as int, p.y - 1, p.z as int),
        neighborhood(v, p).plus_z == vertex_at(v, p.x as int, p.y as int, p.z + 1),
        neighborhood(v, p).minus_z == vertex_at(v, p.x as int, p.y as int, p.z - 1),
{
}

/// Every placed neighbor counts for one.
pub proof fn every_neighbor_counts(n: Neighborhood)
    ensures
        n.plus_x is None && n.minus_x is None && n.plus_y is None && n.minus_y is None
            && n.plus_z is None && n.minus_z is None ==> n.placed() == 0,
        n.plus_x is Some ==> n.placed() == (Neighborhood { plus_x: None, ..n }).placed() + 1,
        n.minus_x is Some ==> n.placed() == (Neighborhood { minus_x: None, ..n }).placed() + 1,
        n.plus_y is Some ==> n.placed() == (Neighborhood { plus_y: None, ..n }).placed() + 1,
        n.minus_y is Some ==> n.placed() == (Neighborhood { minus_y: None, ..n }).placed() + 1,
        n.plus_z is Some ==> n.placed() == (Neighborhood { plus_z: None, ..n }).placed() + 1,
        n.minus_z is Some ==> n.placed() == (Neighborhood { minus_z: None, ..n }).placed() + 1,
{
}

/// The placed neighbors of a point are the vertices one step from it.
pub proof fn neighbors_are_one_step_from_a_point(v: Vertices, p: Point)
    ensures
        has_neighbor(v, p) <==> neighborhood(v, p).placed() > 0,
        has_two_neighbors(v, p) <==> neighborhood(v, p).placed() >= 2,
{
    let at = |k: int| v.contains_key(p.shifted(fill_neighbor(k)));
    assert forall|k: int| 0 <= k < 6 implies #[trigger] at(k) == (vertex_beside(
        v,
        p,
        k,
    ) is Some) by {}
    let n = neighborhood(v, p);
    assert(at(0) == (n.plus_x is Some) && at(1) == (n.minus_x is Some));
    assert(at(2) == (n.plus_y is Some) && at(3) == (n.minus_y is Some));
    assert(at(4) == (n.plus_z is Some) && at(5) == (n.minus_z is Some));
    neighbors_are_one_step_away(fill_neighbor(0));
    if has_neighbor(v, p) {
        let u = choose|u: Vector| #[trigger] is_step(u) && v.contains_key(p.shifted(u));
        neighbors_are_one_step_away(u);
        let j = choose|j: int| 0 <= j < 6 && u == #[trigger] fill_neighbor(j);
        assert(at(j));
    }
    if has_two_neighbors(v, p) {
        let (u, w) = choose|u: Vector, w: Vector|
            #[trigger] is_step(u) && #[trigger] is_step(w) && u != w && v.contains_key(p.shifted(u))
                && v.contains_key(p.shifted(w));
        neighbors_are_one_step_away(u);
        neighbors_are_one_step_away(w);
        let j = choose|j: int| 0 <= j < 6 && u == #[trigger] fill_neighbor(j);
        let k = choose|k: int| 0 <= k < 6 && w == #[trigger] fill_neighbor(k);
        assert(at(j) && at(k) && j != k);
    }
    if n.placed() > 0 {
        let j: int = if at(0) {
            0
        } else if at(1) {
            1
        } else if at(2) {
            2
        } else if at(3) {
            3
        } else if at(4) {
            4
        } else {
            5
        };
        assert(at(j));
        neighbors_are_one_step_away(fill_neighbor(j));
        assert(is_step(fill_neighbor(j)));
        if n.placed() >= 2 {
            let k: int = if j < 1 && at(1) {
                1
            } else if j < 2 && at(2) {
                2
            } else if j < 3 && at(3) {
                3
            } else if j < 4 && at(4) {
                4
            } else {
                5
            };
            assert(at(k) && k != j);
            neighbors_are_one_step_away(fill_neighbor(k));
            assert(is_step(fill_neighbor(k)));
        }
    }
}

/// A point is placed by its neighbors where at least two of the six are placed, at the mean that
/// `average` gives for them.
pub proof fn two_neighbors_place_a_point(
    v: Vertices,
    p: Point,
    average: spec_fn(Point, Neighborhood) -> Displacement,
)
    ensures
        can_average(v, p) <==> has_two_neighbors(v, p),
        has_two_neighbors(v, p) ==> averaged(v, p, average) == Some(
            average(p, neighborhood(v, p)).rounded(),
        ),
        !has_two_neighbors(v, p) ==> averaged(v, p, average) is None,
{
    neighbors_are_one_step_from_a_point(v, p);
}

/// What a pass has seen when it comes to point `i`: the vertices from before it, and those that it
/// has placed at earlier points.
pub open spec fn seen_before(v: Vertices, w: Vertices, unset: Seq<Point>, i: int) -> Vertices {
    Map::new(
        |p: Point| v.contains_key(p) || (w.contains_key(p) && unset.take(i).contains(p)),
        |p: Point| w[p],
    )
}

proof fn lemma_prefix_of_pass(
    v: Vertices,
    unset: Seq<Point>,
    average: spec_fn(Point, Neighborhood) -> Displacement,
    i: nat,
    n: nat,
)
    requires
        all_unset(v, unset),
        i <= n <= unset.len(),
    ensures
        ({
            let u = snap_pass(v, unset, average, i).0;
            let w = snap_pass(v, unset, average, n).0;
            &&& forall|p: Point| #[trigger] u.contains_key(p) ==> w.contains_key(p) && w[p] == u[p]
            &&& forall|p: Point| #[trigger]
                w.contains_key(p) && !u.contains_key(p) ==> exists|j: int|
                    i <= j < n && p == #[trigger] unset[j]
        }),
    decreases n,
{
    if i < n {
        lemma_prefix_of_pass(v, unset, average, i, (n - 1) as nat);
        lemma_pass(v, unset, average, (n - 1) as nat);
        let u = snap_pass(v, unset, average, i).0;
        let m = snap_pass(v, unset, average, (n - 1) as nat).0;
        let w = snap_pass(v, unset, average, n).0;
        assert(!m.contains_key(unset[n - 1]));
        assert forall|p: Point| #[trigger] w.contains_key(p) && !u.contains_key(p) implies exists|
            j: int,
        |
            i <= j < n && p == #[trigger] unset[j] by {
            if m.contains_key(p) {
                let j = choose|j: int| i <= j < n - 1 && p == #[trigger] unset[j];
                assert(i <= j < n && p == unset[j]);
            } else {
                assert(p == unset[n - 1]);
            }
        }
    }
}

/// A pass comes to the points in order, and places each that has two placed neighbors by then,
/// those counting that it has just placed; the others it leaves.
pub proof fn a_pass_counts_what_it_has_placed(
    v: Vertices,
    unset: Seq<Point>,
    average: spec_fn(Point, Neighborhood) -> Displacement,
    i: int,
)
    requires
        all_unset(v, unset),
        0 <= i < unset.len(),
    ensures
        ({
            let (w, rest) = snap_pass(v, unset, average, unset.len());
            let p = unset[i];
            let u = seen_before(v, w, unset, i);
            &&& w.contains_key(p) <==> has_two_neighbors(u, p)
            &&& w.contains_key(p) ==> w[p] == average(p, neighborhood(u, p)).rounded()
            &&& rest.contains(p) <==> !w.contains_key(p)
            &&& forall|q: Point| #[trigger]
                v.contains_key(q) ==> w.contains_key(q) && w[q] == v[q]
            &&& forall|q: Point| #[trigger]
                w.contains_key(q) ==> v.contains_key(q) || unset.contains(q)
        }),
{
    let n = unset.len();
    let p = unset[i];
    let (w, rest) = snap_pass(v, unset, average, n);
    let x = snap_pass(v, unset, average, i as nat).0;
    let y = snap_pass(v, unset, average, (i + 1) as nat).0;
    lemma_prefix_of_pass(v, unset, average, 0, i as nat);
    lemma_prefix_of_pass(v, unset, average, i as nat, n);
    lemma_prefix_of_pass(v, unset, average, (i + 1) as nat, n);
    lemma_prefix_of_pass(v, unset, average, 0, n);
    lemma_pass(v, unset, average, i as nat);
    lemma_pass(v, unset, average, n);
    let u = seen_before(v, w, unset, i);
    assert forall|q: Point| #[trigger] x.contains_key(q) <==> u.contains_key(q) by {
        if x.contains_key(q) && !v.contains_key(q) {
            let j = choose|j: int| 0 <= j < i && q == #[trigger] unset[j];
            assert(unset.take(i)[j] == q);
        }
        if u.contains_key(q) && !v.contains_key(q) && !x.contains_key(q) {
            let j = choose|j: int| 0 <= j < i && unset.take(i)[j] == q;
            let m = choose|m: int| i <= m < n && q == #[trigger] unset[m];
            assert(unset[j] == unset[m]);
        }
    }
    assert(x =~= u);
    two_neighbors_place_a_point(u, p, average);
    assert(!x.contains_key(p));
    if has_two_neighbors(u, p) {
        assert(y == x.insert(p, average(p, neighborhood(u, p)).rounded()));
        assert(y.contains_key(p) && w[p] == y[p]);
    } else {
        assert(y == x);
    }
    if w.contains_key(p) && !y.contains_key(p) {
        let m = choose|m: int| i + 1 <= m < n && p == #[trigger] unset[m];
        assert(unset[m] != unset[i]);
    }
    assert(w.contains_key(unset[i]) || rest.contains(unset[i]));
    if rest.contains(p) {
        let j = choose|j: int| 0 <= j < rest.len() && rest[j] == p;
        assert(!w.contains_key(rest[j]));
    }
    assert forall|q: Point| #[trigger] w.contains_key(q) implies v.contains_key(q)
        || unset.contains(q) by {
        if !v.contains_key(q) {
            let j = choose|j: int| 0 <= j < n && q == #[trigger] unset[j];
            assert(unset.contains(q));
        }
    }
}

/// Passes are repeated over what is left until one places nothing.
pub proof fn passes_are_repeated(
    v: Vertices,
    unset: Seq<Point>,
    average: spec_fn(Point, Neighborhood) -> Displacement,
)
    requires
        all_unset(v, unset),
    ensures
        ({
            let (w, rest) = snap_pass(v, unset, average, unset.len());
            &&& w != v ==> snap_rounds(v, unset, average) == snap_rounds(w, rest, average)
            &&& w == v ==> snap_rounds(v, unset, average) == (v, unset)
        }),
{
    let n = unset.len();
    lemma_pass(v, unset, average, n);
    let (w, rest) = snap_pass(v, unset, average, n);
    if rest.len() == n {
        assert(rest =~= unset);
    } else {
        if w == v {
            assert forall|i: int| 0 <= i < n implies rest.contains(#[trigger] unset[i]) by {
                assert(!v.contains_key(unset[i]));
            }
            lemma_all_kept(unset, rest);
        }
    }
}

/// A list that holds all of `n` different points has at least `n` entries.
proof fn lemma_all_kept(all: Seq<Point>, rest: Seq<Point>)
    requires
        all.no_duplicates(),
        forall|i: int| 0 <= i < all.len() ==> rest.contains(#[trigger] all[i]),
    ensures
        rest.len() >= all.len(),
{
    all.unique_seq_to_set();
    rest.lemma_cardinality_of_set();
    assert(all.to_set().subset_of(rest.to_set()));
    vstd::set_lib::lemma_len_subset(all.to_set(), rest.to_set());
}

/// One step of relaxation moves every vertex with a neighbor to where `relaxed` says for the
/// vertices as they stood, and no other. Steps follow each other.
pub proof fn relaxation_moves_vertices_with_neighbors(
    v: Vertices,
    relaxed: spec_fn(Point, Encoded, Neighborhood) -> Displacement,
    n: nat,
    p: Point,
)
    ensures
        ({
            let w = relaxed_once(v, relaxed);
            &&& w.contains_key(p) <==> v.contains_key(p)
            &&& v.contains_key(p) && !has_neighbor(v, p) ==> w[p] == v[p]
            &&& v.contains_key(p) && has_neighbor(v, p) ==> w[p] == relaxed(
                p,
                v[p],
                neighborhood(v, p),
            ).rounded()
        }),
        relaxed_times(v, relaxed, 0) == v,
        relaxed_times(v, relaxed, 1) == relaxed_once(v, relaxed),
        relaxed_times(v, relaxed, n + 1) == relaxed_once(relaxed_times(v, relaxed, n), relaxed),
{
    neighbors_are_one_step_from_a_point(v, p);
    reveal_with_fuel(relaxed_times, 3);
}

} // verus!
