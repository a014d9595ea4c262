//! How a vertex is snapped to the features of the nearest triangle.
use crate::offset::{Displacement, Encoded};
use crate::probe::{agrees1, agrees2, agrees3, agrees_on_contents};
use crate::scalar::Scalar;
use vstd::prelude::*;

verus! {

/// 84, the lattice steps in the side of a cell: a feature at this distance is out of reach.
pub const REACH: u64 = 0x4055_0000_0000_0000;

/// 1e-6: a triangle of no larger area is degenerate.
pub const DEGENERATE_AREA: u64 = 0x3eb0_c6f7_a0b5_ed8d;

/// 0.1: a start that is nearer to the end gives no direction to walk along.
pub const SHORTEST_WALK: u64 = 0x3fb9_9999_9999_999a;

/// The largest finite number: an error has to be below it.
pub const WORST_ERROR: u64 = 0x7fef_ffff_ffff_ffff;

/// Three features of a triangle of one kind: how far each is from the anchor, and how far from
/// the corner that is to be moved.
#[derive(Clone, Copy, Debug)]
pub struct Features {
    pub distance: [Scalar; 3],
    pub reach: [Scalar; 3],
}

/// The features of a triangle that a vertex may be snapped to.
#[derive(Clone, Copy, Debug)]
pub struct Facet {
    pub vertices: Features,
    pub edges: Features,
    pub area: Scalar,
}

/// What a vertex is snapped to.
#[derive(Clone, Copy, Debug, PartialEq, Eq, Structural)]
pub enum SnapTarget {
    /// A vertex of the triangle.
    Vertex(usize),
    /// An edge of the triangle.
    Edge(usize),
    /// The projection onto a degenerate triangle.
    Degenerate,
    /// The face of the triangle.
    Face,
}

/// A point of the lattice that vertex offsets lie on.
#[derive(Clone, Copy, Debug, PartialEq, Eq, Structural)]
pub struct LatticePoint {
    pub x: i64,
    pub y: i64,
    pub z: i64,
}

/// All three are numbers.
pub open spec fn numbers(d: [Scalar; 3]) -> bool {
    !d@[0].nan() && !d@[1].nan() && !d@[2].nan()
}

/// The first of the least of three.
pub open spec fn first_least(d: [Scalar; 3]) -> int {
    if d@[0].at_most(d@[1]) && d@[0].at_most(d@[2]) {
        0
    } else if d@[1].at_most(d@[2]) {
        1
    } else {
        2
    }
}

/// The nearest feature is within reach.
pub open spec fn in_reach(f: Features) -> bool {
    f.reach@[first_least(f.distance)].below(Scalar { bits: REACH })
}

/// The distances that are compared are numbers: those of the vertices, and those of the edges
/// where no vertex is within reach.
pub open spec fn comparable(f: Facet) -> bool {
    &&& numbers(f.vertices.distance)
    &&& !in_reach(f.vertices) ==> numbers(f.edges.distance)
}

/// The nearest vertex if it is within reach, else the nearest edge if it is within reach, else
/// the face.
pub open spec fn snap_target(f: Facet) -> SnapTarget {
    if in_reach(f.vertices) {
        SnapTarget::Vertex(first_least(f.vertices.distance) as usize)
    } else if in_reach(f.edges) {
        SnapTarget::Edge(first_least(f.edges.distance) as usize)
    } else if f.area.at_most(Scalar { bits: DEGENERATE_AREA }) {
        SnapTarget::Degenerate
    } else {
        SnapTarget::Face
    }
}

/// The first of the least of three numbers.
pub fn closest(d: &[Scalar; 3]) -> (k: usize)
    requires
        numbers(*d),
    ensures
        k < 3,
        k == first_least(*d),
        forall|j: int| 0 <= j < 3 ==> d@[k as int].at_most(#[trigger] d@[j]),
        forall|j: int| 0 <= j < k ==> d@[k as int].below(#[trigger] d@[j]),
{
    let (a, b, c): (Scalar, Scalar, Scalar) = (d[0], d[1], d[2]);
    if a.le(b) && a.le(c) {
        0
    } else if b.le(c) {
        1
    } else {
        2
    }
}

/// Chooses the feature that a vertex is snapped to. Distances that are compared have to be
/// numbers; those of the edges are compared only where no vertex is within reach.
pub fn choose_target(facet: &Facet) -> (t: SnapTarget)
    requires
        comparable(*facet),
    ensures
        t == snap_target(*facet),
{
    let reach: Scalar = Scalar::from_bits(REACH);
    let v: usize = closest(&facet.vertices.distance);
    if facet.vertices.reach[v].lt(reach) {
        return SnapTarget::Vertex(v);
    }
    let e: usize = closest(&facet.edges.distance);
    if facet.edges.reach[e].lt(reach) {
        return SnapTarget::Edge(e);
    }
    if facet.area.le(Scalar::from_bits(DEGENERATE_AREA)) {
        SnapTarget::Degenerate
    } else {
        SnapTarget::Face
    }
}

/// The lattice points on the walks from the first `k` starts, but for the starts that are too
/// near to the end.
pub open spec fn candidates(
    gap: spec_fn(usize) -> Scalar,
    walk: spec_fn(usize) -> Seq<LatticePoint>,
    k: nat,
) -> Seq<LatticePoint>
    decreases k,
{
    if k == 0 {
        seq![]
    } else {
        candidates(gap, walk, (k - 1) as nat) + if gap((k - 1) as usize).below(
            Scalar { bits: SHORTEST_WALK },
        ) {
            seq![]
        } else {
            walk((k - 1) as usize)
        }
    }
}

/// `best` is the first candidate of the least error; there is none where no error is below the
/// worst one.
pub open spec fn is_best(
    c: Seq<LatticePoint>,
    error: spec_fn(LatticePoint) -> Scalar,
    best: Option<LatticePoint>,
) -> bool {
    match best {
        None => forall|j: int|
            0 <= j < c.len() ==> !error(#[trigger] c[j]).below(Scalar { bits: WORST_ERROR }),
        Some(p) => exists|i: int|
            {
                &&& 0 <= i < c.len()
                &&& #[trigger] c[i] == p
                &&& error(p).below(Scalar { bits: WORST_ERROR })
                &&& forall|j: int| 0 <= j < c.len() ==> !error(#[trigger] c[j]).below(error(p))
                &&& forall|j: int|
                    0 <= j < i ==> error(#[trigger] c[j]).nan() || error(p).below(error(c[j]))
            },
    }
}

/// The error that a candidate has to be below to be better than `best`.
spec fn bar(error: spec_fn(LatticePoint) -> Scalar, best: Option<LatticePoint>) -> Scalar {
    match best {
        None => Scalar { bits: WORST_ERROR },
        Some(p) => error(p),
    }
}

proof fn lemma_next_candidate(
    c: Seq<LatticePoint>,
    error: spec_fn(LatticePoint) -> Scalar,
    best: Option<LatticePoint>,
    q: LatticePoint,
)
    requires
        is_best(c, error, best),
    ensures
        is_best(
            c.push(q),
            error,
            if error(q).below(bar(error, best)) {
                Some(q)
            } else {
                best
            },
        ),
{
    let d = c.push(q);
    let n = c.len() as int;
    assert(d[n] == q);
    assert forall|j: int| 0 <= j < n implies d[j] == c[j] by {}
    if error(q).below(bar(error, best)) {
        assert forall|j: int| 0 <= j < n implies !error(#[trigger] c[j]).below(error(q)) && (error(
            c[j],
        ).nan() || error(q).below(error(c[j]))) by {
            assert(!error(c[j]).below(bar(error, best)));
        }
        assert forall|j: int| 0 <= j < d.len() implies !error(#[trigger] d[j]).below(error(q)) by {
            if j < n {
                assert(d[j] == c[j]);
            }
        }
        assert forall|j: int| 0 <= j < n implies error(#[trigger] d[j]).nan() || error(q).below(
            error(d[j]),
        ) by {
            assert(d[j] == c[j]);
        }
    } else {
        match best {
            None => {},
            Some(p) => {
                let i = choose|i: int|
                    {
                        &&& 0 <= i < c.len()
                        &&& #[trigger] c[i] == p
                        &&& error(p).below(Scalar { bits: WORST_ERROR })
                        &&& forall|j: int|
                            0 <= j < c.len() ==> !error(#[trigger] c[j]).below(error(p))
                        &&& forall|j: int|
                            0 <= j < i ==> error(#[trigger] c[j]).nan() || error(p).below(
                                error(c[j]),
                            )
                    };
                assert(d[i] == p);
                assert forall|j: int| 0 <= j < d.len() implies !error(#[trigger] d[j]).below(
                    error(p),
                ) by {
                    if j < n {
                        assert(d[j] == c[j]);
                    }
                }
                assert forall|j: int| 0 <= j < i implies error(#[trigger] d[j]).nan() || error(
                    p,
                ).below(error(d[j])) by {
                    assert(d[j] == c[j]);
                }
            },
        }
    }
}

/// A walk from one of the first `starts` starts leads past `q`.
pub open spec fn is_on_walk<W: Fn(usize) -> Vec<LatticePoint>>(
    walk: W,
    starts: usize,
    q: LatticePoint,
) -> bool {
    exists|k: usize, w: Vec<LatticePoint>, j: int|
        k < starts && #[trigger] call_ensures(walk, (k,), w) && 0 <= j < w@.len()
            && #[trigger] w@[j] == q
}

/// Finds the lattice point near the end of the walks that lies nearest to the surface.
///
/// In game voxels operate on a discrete grid, so the best solutions are ones that minimize the
/// error when going from the model surface to the in game voxel surface. `gap` is the distance of
/// a start from the end, `walk` the lattice points along the line through both near the end, and
/// `error` the distance of a lattice point from the surface. Where nothing is found the end
/// itself is the best that is known.
pub fn lowest_error_point_on_surface<
    G: Fn(usize) -> Scalar,
    W: Fn(usize) -> Vec<LatticePoint>,
    E: Fn(LatticePoint) -> Scalar,
>(starts: usize, gap: &G, walk: &W, error: &E) -> (best: Option<LatticePoint>)
    requires
        forall|k: usize| k < starts ==> #[trigger] call_requires(*gap, (k,)),
        forall|k: usize, d: Scalar|
            k < starts && #[trigger] call_ensures(*gap, (k,), d) && !d.below(
                Scalar { bits: SHORTEST_WALK },
            ) ==> call_requires(*walk, (k,)),
        forall|k: usize, w: Vec<LatticePoint>, j: int|
            k < starts && #[trigger] call_ensures(*walk, (k,), w) && 0 <= j < w@.len()
                ==> call_requires(*error, (#[trigger] w@[j],)),
    ensures
        best matches Some(q) ==> is_on_walk(*walk, starts, q),
        forall|
            g: spec_fn(usize) -> Scalar,
            w: spec_fn(usize) -> Seq<LatticePoint>,
            e: spec_fn(LatticePoint) -> Scalar,
        |
            #[trigger] agrees1(*gap, g) && #[trigger] agrees_on_contents(*walk, w)
                && #[trigger] agrees1(*error, e) ==> is_best(
                candidates(g, w, starts as nat),
                e,
                best,
            ),
{
    let mut best: Option<LatticePoint> = None;
    let mut lowest: Scalar = Scalar::from_bits(WORST_ERROR);
    let mut i: usize = 0;
    while i < starts
        invariant
            i <= starts,
            forall|k: usize| k < starts ==> #[trigger] call_requires(*gap, (k,)),
            forall|k: usize, d: Scalar|
                k < starts && #[trigger] call_ensures(*gap, (k,), d) && !d.below(
                    Scalar { bits: SHORTEST_WALK },
                ) ==> call_requires(*walk, (k,)),
            forall|k: usize, w: Vec<LatticePoint>, j: int|
                k < starts && #[trigger] call_ensures(*walk, (k,), w) && 0 <= j < w@.len()
                    ==> call_requires(*error, (#[trigger] w@[j],)),
            best matches Some(q) ==> is_on_walk(*walk, starts, q),
            forall|
                g: spec_fn(usize) -> Scalar,
                w: spec_fn(usize) -> Seq<LatticePoint>,
                e: spec_fn(LatticePoint) -> Scalar,
            |
                #[trigger] agrees1(*gap, g) && #[trigger] agrees_on_contents(*walk, w)
                    && #[trigger] agrees1(*error, e) ==> is_best(
                    candidates(g, w, i as nat),
                    e,
                    best,
                ) && lowest == bar(e, best),
        decreases starts - i,
    {
        let near: bool = gap(i).lt(Scalar::from_bits(SHORTEST_WALK));
        if near {
            assert forall|
                g: spec_fn(usize) -> Scalar,
                w: spec_fn(usize) -> Seq<LatticePoint>,
                e: spec_fn(LatticePoint) -> Scalar,
            |
                #[trigger] agrees1(*gap, g) && #[trigger] agrees_on_contents(*walk, w)
                    && #[trigger] agrees1(*error, e) implies is_best(
                candidates(g, w, (i + 1) as nat),
                e,
                best,
            ) by {
                assert(candidates(g, w, (i + 1) as nat) =~= candidates(g, w, i as nat));
            }
            i = i + 1;
            continue ;
        }
        let steps: Vec<LatticePoint> = walk(i);
        let mut j: usize = 0;
        assert forall|
            g: spec_fn(usize) -> Scalar,
            w: spec_fn(usize) -> Seq<LatticePoint>,
            e: spec_fn(LatticePoint) -> Scalar,
        |
            #[trigger] agrees1(*gap, g) && #[trigger] agrees_on_contents(*walk, w)
                && #[trigger] agrees1(*error, e) implies is_best(
            candidates(g, w, i as nat) + steps@.take(0),
            e,
            best,
        ) by {
            assert(candidates(g, w, i as nat) + steps@.take(0) =~= candidates(g, w, i as nat));
        }
        while j < steps.len()
            invariant
                j <= steps@.len(),
                i < starts,
                call_ensures(*walk, (i,), steps),
                forall|k: usize, w: Vec<LatticePoint>, j: int|
                    k < starts && #[trigger] call_ensures(*walk, (k,), w) && 0 <= j < w@.len()
                        ==> call_requires(*error, (#[trigger] w@[j],)),
                best matches Some(q) ==> is_on_walk(*walk, starts, q),
                forall|
                    g: spec_fn(usize) -> Scalar,
                    w: spec_fn(usize) -> Seq<LatticePoint>,
                    e: spec_fn(LatticePoint) -> Scalar,
                |
                    #[trigger] agrees1(*gap, g) && #[trigger] agrees_on_contents(*walk, w)
                        && #[trigger] agrees1(*error, e) ==> is_best(
                        candidates(g, w, i as nat) + steps@.take(j as int),
                        e,
                        best,
                    ) && lowest == bar(e, best),
            decreases steps@.len() - j,
        {
            let q: LatticePoint = steps[j];
            let ghost prior = best;
            let off: Scalar = error(q);
            if off.lt(lowest) {
                lowest = off;
                best = Some(q);
            }
            assert forall|
                g: spec_fn(usize) -> Scalar,
                w: spec_fn(usize) -> Seq<LatticePoint>,
                e: spec_fn(LatticePoint) -> Scalar,
            |
                #[trigger] agrees1(*gap, g) && #[trigger] agrees_on_contents(*walk, w)
                    && #[trigger] agrees1(*error, e) implies is_best(
                candidates(g, w, i as nat) + steps@.take(j + 1),
                e,
                best,
            ) && lowest == bar(e, best) by {
                let c = candidates(g, w, i as nat) + steps@.take(j as int);
                assert(candidates(g, w, i as nat) + steps@.take(j + 1) =~= c.push(q));
                lemma_next_candidate(c, e, prior, q);
            }
            j = j + 1;
        }
        assert forall|
            g: spec_fn(usize) -> Scalar,
            w: spec_fn(usize) -> Seq<LatticePoint>,
            e: spec_fn(LatticePoint) -> Scalar,
        |
            #[trigger] agrees1(*gap, g) && #[trigger] agrees_on_contents(*walk, w)
                && #[trigger] agrees1(*error, e) implies is_best(
            candidates(g, w, (i + 1) as nat),
            e,
            best,
        ) by {
            assert(steps@.take(steps@.len() as int) =~= steps@);
            assert(candidates(g, w, (i + 1) as nat) =~= candidates(g, w, i as nat) + steps@);
        }
        i = i + 1;
    }
    best
}

/// From how many points walks lead to the feature: the start of an edge, the three vertices of
/// a face.
pub open spec fn walks_to(t: SnapTarget) -> nat {
    match t {
        SnapTarget::Edge(_) => 1,
        SnapTarget::Face => 3,
        _ => 0,
    }
}

/// The best candidate; there is exactly one.
pub open spec fn best_of(
    c: Seq<LatticePoint>,
    error: spec_fn(LatticePoint) -> Scalar,
) -> Option<LatticePoint> {
    choose|best: Option<LatticePoint>| is_best(c, error, best)
}

/// The lattice point that a vertex is snapped to, where walks lead to the feature `t` of the
/// triangle `g` and find one.
pub open spec fn nearest_to_feature<T>(
    g: T,
    t: SnapTarget,
    gap: spec_fn(T, SnapTarget, usize) -> Scalar,
    walk: spec_fn(T, SnapTarget, usize) -> Seq<LatticePoint>,
    error: spec_fn(T, SnapTarget, LatticePoint) -> Scalar,
) -> Option<LatticePoint> {
    best_of(
        candidates(|k: usize| gap(g, t, k), |k: usize| walk(g, t, k), walks_to(t)),
        |q: LatticePoint| error(g, t, q),
    )
}

/// The offset to the lattice point that is nearest to the feature `t` of the triangle `g`, where
/// walks lead to it and find one, else to the point of the feature that is nearest to the anchor.
pub open spec fn snapped_offset<T>(
    g: T,
    t: SnapTarget,
    gap: spec_fn(T, SnapTarget, usize) -> Scalar,
    walk: spec_fn(T, SnapTarget, usize) -> Seq<LatticePoint>,
    error: spec_fn(T, SnapTarget, LatticePoint) -> Scalar,
    at_feature: spec_fn(T, SnapTarget) -> Displacement,
    at_lattice: spec_fn(T, LatticePoint) -> Displacement,
) -> Encoded {
    match nearest_to_feature(g, t, gap, walk, error) {
        Some(q) => at_lattice(g, q).truncated(),
        None => at_feature(g, t).truncated(),
    }
}

/// Every list that `f` answers has the contents that `g` gives.
pub open spec fn walks_as<T, W: Fn(T, SnapTarget, usize) -> Vec<LatticePoint>>(
    f: W,
    g: spec_fn(T, SnapTarget, usize) -> Seq<LatticePoint>,
) -> bool {
    forall|a: T, t: SnapTarget, k: usize, r: Vec<LatticePoint>| #[trigger]
        call_ensures(f, (a, t, k), r) ==> r@ == g(a, t, k)
}

/// What has to be known of the feature `t` of the triangle `g` to snap a vertex to it may be
/// asked: the walks that lead to it from far enough, and of a lattice point on one of these how
/// far it is from the feature and where it lies.
pub open spec fn can_snap<
    T,
    G: Fn(T, SnapTarget, usize) -> Scalar,
    W: Fn(T, SnapTarget, usize) -> Vec<LatticePoint>,
    E: Fn(T, SnapTarget, LatticePoint) -> Scalar,
    F: Fn(T, SnapTarget) -> Displacement,
    L: Fn(T, LatticePoint) -> Displacement,
>(g: T, t: SnapTarget, gap: G, walk: W, error: E, at_feature: F, at_lattice: L) -> bool {
    &&& forall|k: usize| k < walks_to(t) ==> #[trigger] call_requires(gap, (g, t, k))
    &&& forall|k: usize, d: Scalar|
        k < walks_to(t) && #[trigger] call_ensures(gap, (g, t, k), d) && !d.below(
            Scalar { bits: SHORTEST_WALK },
        ) ==> call_requires(walk, (g, t, k))
    &&& forall|k: usize, w: Vec<LatticePoint>, j: int|
        k < walks_to(t) && #[trigger] call_ensures(walk, (g, t, k), w) && 0 <= j < w@.len()
            ==> call_requires(error, (g, t, #[trigger] w@[j])) && call_requires(
            at_lattice,
            (g, w@[j]),
        )
    &&& call_requires(at_feature, (g, t))
}

/// Finds the offset of a vertex that is snapped to the triangle `triangle` with the features
/// `facet`: tries the nearest vertex, then the nearest edge, then the face.
///
/// Results in some artifacts in game where too many voxels snap to a vertex or an edge and as a
/// result you get some weird shadows on flat surfaces, but this otherwise preserves the model
/// features. `gap`, `walk` and `error` are as in `lowest_error_point_on_surface`, for a feature;
/// `at_feature` and `at_lattice` are the displacements from the low end of the lattice to the
/// point of a feature that is nearest to the anchor and to a lattice point.
pub fn calculate_vertex_offset<
    T: Copy,
    G: Fn(T, SnapTarget, usize) -> Scalar,
    W: Fn(T, SnapTarget, usize) -> Vec<LatticePoint>,
    E: Fn(T, SnapTarget, LatticePoint) -> Scalar,
    F: Fn(T, SnapTarget) -> Displacement,
    L: Fn(T, LatticePoint) -> Displacement,
>(
    triangle: T,
    facet: &Facet,
    gap: &G,
    walk: &W,
    error: &E,
    at_feature: &F,
    at_lattice: &L,
) -> (r: Encoded)
    requires
        comparable(*facet),
        can_snap(triangle, snap_target(*facet), *gap, *walk, *error, *at_feature, *at_lattice),
    ensures
        r.on_lattice(),
        forall|
            g: spec_fn(T, SnapTarget, usize) -> Scalar,
            w: spec_fn(T, SnapTarget, usize) -> Seq<LatticePoint>,
            e: spec_fn(T, SnapTarget, LatticePoint) -> Scalar,
            f: spec_fn(T, SnapTarget) -> Displacement,
            l: spec_fn(T, LatticePoint) -> Displacement,
        |
            #[trigger] agrees3(*gap, g) && #[trigger] walks_as(*walk, w) && #[trigger] agrees3(
                *error,
                e,
            ) && #[trigger] agrees2(*at_feature, f) && #[trigger] agrees2(*at_lattice, l) ==> r
                == snapped_offset(triangle, snap_target(*facet), g, w, e, f, l),
{
    let t: SnapTarget = choose_target(facet);
    let starts: usize = match t {
        SnapTarget::Edge(_) => 1,
        SnapTarget::Face => 3,
        _ => 0,
    };
    let ghost may_gap = |k: usize| call_requires(*gap, (triangle, t, k));
    let ghost may_walk = |k: usize| call_requires(*walk, (triangle, t, k));
    let ghost may_err = |q: LatticePoint| call_requires(*error, (triangle, t, q));
    let gap_to = |k: usize| -> (r: Scalar)
        requires
            may_gap(k),
        ensures
            call_ensures(*gap, (triangle, t, k), r),
        { gap(triangle, t, k) };
    let walk_to = |k: usize| -> (r: Vec<LatticePoint>)
        requires
            may_walk(k),
        ensures
            call_ensures(*walk, (triangle, t, k), r),
        { walk(triangle, t, k) };
    let error_from = |q: LatticePoint| -> (r: Scalar)
        requires
            may_err(q),
        ensures
            call_ensures(*error, (triangle, t, q), r),
        { error(triangle, t, q) };
    let best: Option<LatticePoint> = lowest_error_point_on_surface(
        starts,
        &gap_to,
        &walk_to,
        &error_from,
    );
    let d: Displacement = match best {
        Some(q) => at_lattice(triangle, q),
        None => at_feature(triangle, t),
    };
    proof {
        assert forall|
            g: spec_fn(T, SnapTarget, usize) -> Scalar,
            w: spec_fn(T, SnapTarget, usize) -> Seq<LatticePoint>,
            e: spec_fn(T, SnapTarget, LatticePoint) -> Scalar,
            f: spec_fn(T, SnapTarget) -> Displacement,
            l: spec_fn(T, LatticePoint) -> Displacement,
        |
            #[trigger] agrees3(*gap, g) && #[trigger] walks_as(*walk, w) && #[trigger] agrees3(
                *error,
                e,
            ) && #[trigger] agrees2(*at_feature, f) && #[trigger] agrees2(
                *at_lattice,
                l,
            ) implies d.truncated() == snapped_offset(triangle, t, g, w, e, f, l) by {
            let g1 = |k: usize| g(triangle, t, k);
            let w1 = |k: usize| w(triangle, t, k);
            let e1 = |q: LatticePoint| e(triangle, t, q);
            assert(agrees1(gap_to, g1));
            assert(agrees_on_contents(walk_to, w1));
            assert(agrees1(error_from, e1));
            best_candidate_is_unique(candidates(g1, w1, walks_to(t)), e1, best);
            assert(nearest_to_feature(triangle, t, g, w, e) == best);
        }
    }
    d.to_voxel_offset()
}

/// Among any candidates there is exactly one best one, or none at all.
pub proof fn best_candidate_is_unique(
    c: Seq<LatticePoint>,
    error: spec_fn(LatticePoint) -> Scalar,
    x: Option<LatticePoint>,
)
    ensures
        is_best(c, error, best_of(c, error)),
        is_best(c, error, x) <==> x == best_of(c, error),
{
    lemma_best_exists(c, error);
    let y = best_of(c, error);
    if is_best(c, error, x) {
        lemma_best_is_unique(c, error, x, y);
    }
}

proof fn lemma_best_exists(
    c: Seq<LatticePoint>,
    error: spec_fn(LatticePoint) -> Scalar,
) -> (best: Option<LatticePoint>)
    ensures
        is_best(c, error, best),
    decreases c.len(),
{
    if c.len() == 0 {
        None
    } else {
        let prior = lemma_best_exists(c.drop_last(), error);
        lemma_next_candidate(c.drop_last(), error, prior, c.last());
        assert(c.drop_last().push(c.last()) =~= c);
        if error(c.last()).below(bar(error, prior)) {
            Some(c.last())
        } else {
            prior
        }
    }
}

proof fn lemma_best_is_unique(
    c: Seq<LatticePoint>,
    error: spec_fn(LatticePoint) -> Scalar,
    x: Option<LatticePoint>,
    y: Option<LatticePoint>,
)
    requires
        is_best(c, error, x),
        is_best(c, error, y),
    ensures
        x == y,
{
    match (x, y) {
        (Some(p), Some(q)) => {
            let i = lemma_place_of_best(c, error, p);
            let j = lemma_place_of_best(c, error, q);
            if i < j {
                assert(!error(c[i]).nan());
                assert(error(q).below(error(c[i])));
                assert(!error(c[j]).below(error(p)));
            } else if j < i {
                assert(!error(c[j]).nan());
                assert(error(p).below(error(c[j])));
                assert(!error(c[i]).below(error(q)));
            }
        },
        (Some(p), None) => {
            let i = lemma_place_of_best(c, error, p);
            assert(!error(c[i]).below(Scalar { bits: WORST_ERROR }));
        },
        (None, Some(q)) => {
            let j = lemma_place_of_best(c, error, q);
            assert(!error(c[j]).below(Scalar { bits: WORST_ERROR }));
        },
        _ => {},
    }
}

pub(crate) proof fn lemma_place_of_best(
    c: Seq<LatticePoint>,
    error: spec_fn(LatticePoint) -> Scalar,
    p: LatticePoint,
) -> (i: int)
    requires
        is_best(c, error, Some(p)),
    ensures
        0 <= i < c.len(),
        c[i] == p,
        error(p).below(Scalar { bits: WORST_ERROR }),
        forall|j: int| 0 <= j < c.len() ==> !error(#[trigger] c[j]).below(error(p)),
        forall|j: int| 0 <= j < i ==> error(#[trigger] c[j]).nan() || error(p).below(error(c[j])),
{
    choose|i: int|
        {
            &&& 0 <= i < c.len()
            &&& #[trigger] c[i] == p
            &&& error(p).below(Scalar { bits: WORST_ERROR })
            &&& forall|j: int| 0 <= j < c.len() ==> !error(#[trigger] c[j]).below(error(p))
            &&& forall|j: int|
                0 <= j < i ==> error(#[trigger] c[j]).nan() || error(p).below(error(c[j]))
        }
}

/// Further starts never make the error larger: what fewer starts find, more starts find or better.
/// Starts that are all too near to the end change nothing. Something is found as soon as one start
/// is far enough and leads past a lattice point whose error is below the worst one.
pub proof fn further_starts_never_hurt(
    gap: spec_fn(usize) -> Scalar,
    walk: spec_fn(usize) -> Seq<LatticePoint>,
    error: spec_fn(LatticePoint) -> Scalar,
    fewer: usize,
    more: usize,
)
    requires
        fewer <= more,
    ensures
        ({
            let few = best_of(candidates(gap, walk, fewer as nat), error);
            let many = best_of(candidates(gap, walk, more as nat), error);
            &&& few matches Some(p) ==> many matches Some(q) && error(q).at_most(error(p))
            &&& (forall|k: usize|
                fewer <= k < more ==> (#[trigger] gap(k)).below(Scalar { bits: SHORTEST_WALK }))
                ==> many == few
            &&& few is Some <==> exists|k: usize, j: int|
                k < fewer && !gap(k).below(Scalar { bits: SHORTEST_WALK }) && 0 <= j < walk(k).len()
                    && error(#[trigger] walk(k)[j]).below(Scalar { bits: WORST_ERROR })
        }),
{
    let c = candidates(gap, walk, fewer as nat);
    let d = candidates(gap, walk, more as nat);
    let few = best_of(c, error);
    let many = best_of(d, error);
    best_candidate_is_unique(c, error, few);
    best_candidate_is_unique(d, error, many);
    lemma_more_candidates(gap, walk, fewer as nat, more as nat);
    if let Some(p) = few {
        let i = lemma_place_of_best(c, error, p);
        assert(d[i] == p);
        if let Some(q) = many {
            let j = lemma_place_of_best(d, error, q);
            assert(!error(d[i]).below(error(q)));
        } else {
            assert(!error(d[i]).below(Scalar { bits: WORST_ERROR }));
        }
        let (k, j) = lemma_walk_of_candidate(gap, walk, fewer as nat, i);
        assert(error(walk(k)[j]).below(Scalar { bits: WORST_ERROR }));
    }
    if exists|k: usize, j: int|
        k < fewer && !gap(k).below(Scalar { bits: SHORTEST_WALK }) && 0 <= j < walk(k).len()
            && error(#[trigger] walk(k)[j]).below(Scalar { bits: WORST_ERROR }) {
        let (k, j) = choose|k: usize, j: int|
            k < fewer && !gap(k).below(Scalar { bits: SHORTEST_WALK }) && 0 <= j < walk(k).len()
                && error(#[trigger] walk(k)[j]).below(Scalar { bits: WORST_ERROR });
        let i = lemma_candidate_of_walk(gap, walk, fewer as nat, k, j);
        assert(error(c[i]).below(Scalar { bits: WORST_ERROR }));
    }
}

/// The candidates of more starts begin with those of fewer, and are the same if the further
/// starts are all too near.
pub(crate) proof fn lemma_more_candidates(
    gap: spec_fn(usize) -> Scalar,
    walk: spec_fn(usize) -> Seq<LatticePoint>,
    fewer: nat,
    more: nat,
)
    requires
        fewer <= more <= usize::MAX,
    ensures
        ({
            let c = candidates(gap, walk, fewer);
            let d = candidates(gap, walk, more);
            &&& c.len() <= d.len()
            &&& forall|i: int| 0 <= i < c.len() ==> #[trigger] d[i] == c[i]
            &&& (forall|k: usize|
                fewer <= k < more ==> (#[trigger] gap(k)).below(Scalar { bits: SHORTEST_WALK }))
                ==> d == c
        }),
    decreases more,
{
    if fewer < more {
        lemma_more_candidates(gap, walk, fewer, (more - 1) as nat);
        let c = candidates(gap, walk, (more - 1) as nat);
        let d = candidates(gap, walk, more);
        assert forall|i: int| 0 <= i < c.len() implies #[trigger] d[i] == c[i] by {}
        if gap((more - 1) as usize).below(Scalar { bits: SHORTEST_WALK }) {
            assert(d =~= c);
        }
    }
}

/// Candidate `i` lies on the walk that is returned, at the place that is returned.
pub(crate) proof fn lemma_walk_of_candidate(
    gap: spec_fn(usize) -> Scalar,
    walk: spec_fn(usize) -> Seq<LatticePoint>,
    n: nat,
    i: int,
) -> (r: (usize, int))
    requires
        n <= usize::MAX,
        0 <= i < candidates(gap, walk, n).len(),
    ensures
        r.0 < n,
        !gap(r.0).below(Scalar { bits: SHORTEST_WALK }),
        0 <= r.1 < walk(r.0).len(),
        walk(r.0)[r.1] == candidates(gap, walk, n)[i],
        i == candidates(gap, walk, r.0 as nat).len() + r.1,
    decreases n,
{
    let c = candidates(gap, walk, (n - 1) as nat);
    if i < c.len() {
        let r = lemma_walk_of_candidate(gap, walk, (n - 1) as nat, i);
        r
    } else {
        ((n - 1) as usize, i - c.len())
    }
}

/// A lattice point on a walk from far enough is a candidate, at the place that is returned.
pub(crate) proof fn lemma_candidate_of_walk(
    gap: spec_fn(usize) -> Scalar,
    walk: spec_fn(usize) -> Seq<LatticePoint>,
    n: nat,
    k: usize,
    j: int,
) -> (i: int)
    requires
        k < n <= usize::MAX,
        !gap(k).below(Scalar { bits: SHORTEST_WALK }),
        0 <= j < walk(k).len(),
    ensures
        0 <= i < candidates(gap, walk, n).len(),
        candidates(gap, walk, n)[i] == walk(k)[j],
        i == candidates(gap, walk, k as nat).len() + j,
    decreases n,
{
    let c = candidates(gap, walk, (n - 1) as nat);
    if k == n - 1 {
        c.len() + j
    } else {
        let i = lemma_candidate_of_walk(gap, walk, (n - 1) as nat, k, j);
        assert(candidates(gap, walk, n)[i] == c[i]);
        i
    }
}

} // verus!
