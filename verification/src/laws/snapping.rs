//! Where a corner is snapped to, by distances.
use crate::laws::bytes::number;
use crate::offset::Displacement;
use crate::scalar::{magnitude_units, one, Scalar};
use crate::snap::{
    best_candidate_is_unique, best_of, candidates, is_best, lemma_candidate_of_walk,
    lemma_more_candidates, lemma_place_of_best, lemma_walk_of_candidate, nearest_to_feature,
    snap_target, snapped_offset, Facet, Features, LatticePoint, SnapTarget,
};
use vstd::arithmetic::power2::{lemma2_to64_rest, lemma_pow2_adds, lemma_pow2_pos, pow2};
use vstd::prelude::*;

verus! {

/// Feature `k` is nearest to the anchor, the first one if several are, and that same feature is
/// less than 84 lattice steps from the corner.
pub open spec fn is_nearest_in_reach(f: Features, k: int) -> bool {
    &&& 0 <= k < 3
    &&& forall|j: int| 0 <= j < 3 ==> f.distance@[k].units() <= (#[trigger] f.distance@[j]).units()
    &&& forall|j: int| 0 <= j < k ==> f.distance@[k].units() < (#[trigger] f.distance@[j]).units()
    &&& !f.reach@[k].nan()
    &&& f.reach@[k].units() < 84 * one()
}

/// The nearest feature is not within reach.
pub open spec fn none_in_reach(f: Features) -> bool {
    forall|k: int| !is_nearest_in_reach(f, k)
}

/// None of the three distances is missing.
pub open spec fn all_numbers(d: [Scalar; 3]) -> bool {
    forall|j: int| 0 <= j < 3 ==> !(#[trigger] d@[j]).nan()
}

proof fn lemma_reach()
    ensures
        number(0x4055_0000_0000_0000).units() == 84 * one(),
        !number(0x4055_0000_0000_0000).nan(),
        one() > 0,
{
    lemma2_to64_rest();
    lemma_pow2_pos(1074);
    lemma_pow2_adds(1028, 46);
    let b = pow2(1028) as int;
    assert((0x10_0000_0000_0000 + 0x5_0000_0000_0000) * b == 84 * (b * 0x4000_0000_0000))
        by (nonlinear_arith);
    assert(number(0x4055_0000_0000_0000).units() == magnitude_units(
        0x4055_0000_0000_0000,
    ));
}

/// A corner is snapped to the vertex that is nearest to the anchor, if that one is within reach;
/// else to the nearest edge, if that one is within reach; else to the face, or to what there is
/// of it where its area is no larger than a millionth.
pub proof fn corners_snap_to_the_nearest_feature(f: Facet)
    requires
        all_numbers(f.vertices.distance),
        none_in_reach(f.vertices) ==> all_numbers(f.edges.distance),
    ensures
        forall|k: usize|
            snap_target(f) == SnapTarget::Vertex(k) <==> #[trigger] is_nearest_in_reach(
                f.vertices,
                k as int,
            ),
        forall|k: usize|
            snap_target(f) == SnapTarget::Edge(k) <==> none_in_reach(f.vertices)
                && #[trigger] is_nearest_in_reach(f.edges, k as int),
        none_in_reach(f.vertices) && none_in_reach(f.edges) && !f.area.nan() && f.area.units()
            <= number(0x3eb0_c6f7_a0b5_ed8d).units() ==> snap_target(f) == SnapTarget::Degenerate,
        none_in_reach(f.vertices) && none_in_reach(f.edges) && (f.area.nan() || f.area.units()
            > number(0x3eb0_c6f7_a0b5_ed8d).units()) ==> snap_target(f) == SnapTarget::Face,
{
    lemma_reach();
    lemma_nearest(f.vertices);
    if none_in_reach(f.vertices) {
        lemma_nearest(f.edges);
    }
    let v = crate::snap::first_least(f.vertices.distance);
    let e = crate::snap::first_least(f.edges.distance);
    assert(crate::snap::in_reach(f.vertices) <==> is_nearest_in_reach(f.vertices, v));
    if none_in_reach(f.vertices) {
        assert(crate::snap::in_reach(f.edges) <==> is_nearest_in_reach(f.edges, e));
    }
}

/// The first of the least is the only nearest one.
proof fn lemma_nearest(f: Features)
    requires
        all_numbers(f.distance),
    ensures
        ({
            let k = crate::snap::first_least(f.distance);
            &&& 0 <= k < 3
            &&& is_nearest_in_reach(f, k) <==> !f.reach@[k].nan() && f.reach@[k].units() < 84
                * one()
            &&& forall|j: int| #[trigger] is_nearest_in_reach(f, j) ==> j == k
        }),
{
    let d = f.distance@;
    let k = crate::snap::first_least(f.distance);
    assert(!d[0].nan() && !d[1].nan() && !d[2].nan());
    assert forall|j: int| 0 <= j < 3 implies d[k].units() <= (#[trigger] d[j]).units() && (j < k
        ==> d[k].units() < d[j].units()) by {}
    assert forall|j: int| #[trigger] is_nearest_in_reach(f, j) implies j == k by {
        assert(d[j].units() <= d[k].units());
        assert(d[k].units() <= d[j].units());
    }
}

/// The start is at least a tenth of a step from the end.
pub open spec fn is_far(d: Scalar) -> bool {
    d.nan() || d.units() >= number(0x3fb9_9999_9999_999a).units()
}

/// `p` is met on a walk from a far start, and no lattice point on any such walk has a smaller
/// error; those that are met before it, start by start, have a larger one or none at all.
pub open spec fn is_first_of_least_error(
    gap: spec_fn(usize) -> Scalar,
    walk: spec_fn(usize) -> Seq<LatticePoint>,
    error: spec_fn(LatticePoint) -> Scalar,
    starts: usize,
    p: LatticePoint,
) -> bool {
    exists|k: usize, j: int|
        {
            &&& k < starts && is_far(gap(k)) && 0 <= j < walk(k).len()
            &&& #[trigger] walk(k)[j] == p
            &&& !error(p).nan()
            &&& forall|m: usize, i: int|
                m < starts && is_far(gap(m)) && 0 <= i < walk(m).len() && !error(
                    #[trigger] walk(m)[i],
                ).nan() ==> error(p).units() <= error(walk(m)[i]).units()
            &&& forall|m: usize, i: int|
                m < starts && is_far(gap(m)) && 0 <= i < walk(m).len() && (m < k || (m == k && i
                    < j)) && !error(#[trigger] walk(m)[i]).nan() ==> error(p).units() < error(
                    walk(m)[i],
                ).units()
        }
}

/// Whatever point is found is the first of least error on the walks from far starts; nothing is
/// found only where no such walk meets a point whose error is below the largest number.
pub proof fn the_least_error_is_found(
    gap: spec_fn(usize) -> Scalar,
    walk: spec_fn(usize) -> Seq<LatticePoint>,
    error: spec_fn(LatticePoint) -> Scalar,
    starts: usize,
    best: Option<LatticePoint>,
)
    requires
        is_best(candidates(gap, walk, starts as nat), error, best),
    ensures
        best matches Some(p) ==> is_first_of_least_error(gap, walk, error, starts, p),
        best is None <==> forall|m: usize, i: int|
            m < starts && is_far(gap(m)) && 0 <= i < walk(m).len() ==> error(
                #[trigger] walk(m)[i],
            ).nan() || error(walk(m)[i]).units() >= number(0x7fef_ffff_ffff_ffff).units(),
{
    let c = candidates(gap, walk, starts as nat);
    let worst = number(0x7fef_ffff_ffff_ffff);
    let short = number(0x3fb9_9999_9999_999a);
    assert(!worst.nan() && !short.nan());
    assert forall|d: Scalar| is_far(d) <==> !#[trigger] d.below(short) by {}
    if let Some(p) = best {
        let n = lemma_place_of_best(c, error, p);
        let (k, j) = lemma_walk_of_candidate(gap, walk, starts as nat, n);
        assert(walk(k)[j] == p);
        assert forall|m: usize, i: int|
            m < starts && is_far(gap(m)) && 0 <= i < walk(m).len() && !error(
                #[trigger] walk(m)[i],
            ).nan() implies error(p).units() <= error(walk(m)[i]).units() && (m < k || (m == k && i
            < j) ==> error(p).units() < error(walk(m)[i]).units()) by {
            assert(!gap(m).below(short));
            let at = lemma_candidate_of_walk(gap, walk, starts as nat, m, i);
            assert(!error(c[at]).below(error(p)));
            if m < k {
                lemma_more_candidates(gap, walk, (m + 1) as nat, k as nat);
                assert(candidates(gap, walk, (m + 1) as nat).len() == candidates(
                    gap,
                    walk,
                    m as nat,
                ).len() + walk(m).len());
                assert(at < n);
            }
            if at < n {
                assert(error(c[at]).nan() || error(p).below(error(c[at])));
            }
        }
        assert(is_far(gap(k)));
        assert(error(walk(k)[j]).below(worst));
    } else {
        assert forall|m: usize, i: int|
            m < starts && is_far(gap(m)) && 0 <= i < walk(m).len() implies error(
            #[trigger] walk(m)[i],
        ).nan() || error(walk(m)[i]).units() >= worst.units() by {
            assert(!gap(m).below(short));
            let at = lemma_candidate_of_walk(gap, walk, starts as nat, m, i);
            assert(!error(c[at]).below(worst));
        }
    }
}

/// How many walks lead to a feature: one to an edge, three to a face.
pub open spec fn walks(t: SnapTarget) -> usize {
    match t {
        SnapTarget::Vertex(_) => 0,
        SnapTarget::Edge(_) => 1,
        SnapTarget::Degenerate => 0,
        SnapTarget::Face => 3,
    }
}

/// The answers about one triangle and one feature of it.
pub open spec fn about<T, K, R>(
    g: T,
    t: SnapTarget,
    f: spec_fn(T, SnapTarget, K) -> R,
) -> spec_fn(K) -> R {
    |k: K| f(g, t, k)
}

/// A walk from a far start meets a lattice point whose error is below the largest number.
pub open spec fn finds_something(
    gap: spec_fn(usize) -> Scalar,
    walk: spec_fn(usize) -> Seq<LatticePoint>,
    error: spec_fn(LatticePoint) -> Scalar,
    starts: usize,
) -> bool {
    exists|m: usize, i: int|
        m < starts && is_far(gap(m)) && 0 <= i < walk(m).len() && !error(
            #[trigger] walk(m)[i],
        ).nan() && error(walk(m)[i]).units() < number(0x7fef_ffff_ffff_ffff).units()
}

/// A vertex and a degenerate triangle are snapped to as they are. An edge is searched along one
/// walk and a face along three; what is found there wins over the feature itself.
pub proof fn offsets_lead_to_the_target<T>(
    g: T,
    t: SnapTarget,
    gap: spec_fn(T, SnapTarget, usize) -> Scalar,
    walk: spec_fn(T, SnapTarget, usize) -> Seq<LatticePoint>,
    error: spec_fn(T, SnapTarget, LatticePoint) -> Scalar,
    at_feature: spec_fn(T, SnapTarget) -> Displacement,
    at_lattice: spec_fn(T, LatticePoint) -> Displacement,
)
    ensures
        ({
            let e = snapped_offset(g, t, gap, walk, error, at_feature, at_lattice);
            let n = walks(t);
            let (d, w, f) = (about(g, t, gap), about(g, t, walk), about(g, t, error));
            &&& !finds_something(d, w, f, n) ==> e == at_feature(g, t).truncated()
            &&& finds_something(d, w, f, n) ==> exists|q: LatticePoint|
                #[trigger] is_first_of_least_error(d, w, f, n, q) && e == at_lattice(
                    g,
                    q,
                ).truncated()
        }),
{
    let n = walks(t);
    let (d, w, f) = (about(g, t, gap), about(g, t, walk), about(g, t, error));
    let c = candidates(d, w, n as nat);
    let best = best_of(c, f);
    best_candidate_is_unique(c, f, best);
    the_least_error_is_found(d, w, f, n, best);
    assert(d =~= (|k: usize| gap(g, t, k)));
    assert(w =~= (|k: usize| walk(g, t, k)));
    assert(f =~= (|q: LatticePoint| error(g, t, q)));
    assert(nearest_to_feature(g, t, gap, walk, error) == best);
    if let Some(q) = best {
        assert(is_first_of_least_error(d, w, f, n, q));
    }
}

} // verus!
