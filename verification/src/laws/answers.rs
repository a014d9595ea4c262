//! When a surface answers as mathematical functions do.
use crate::geometry::{Point, RangeZYX, Vector};
use crate::neighbors::Neighborhood;
use crate::offset::{Displacement, Encoded};
use crate::probe::{agrees1, agrees2, agrees3, agrees_on_contents, agrees_on_lists};
use crate::scalar::Scalar;
use crate::snap::{walks_as, Facet, LatticePoint, SnapTarget};
use crate::surface::{Answers, Surface};
use vstd::prelude::*;

verus! {

/// A function answers as `g` does if every answer that it gives is that of `g`.
pub proof fn one_question_is_answered_alike<A, R, F: Fn(A) -> R>(f: F, g: spec_fn(A) -> R)
    ensures
        agrees1(f, g) <==> forall|a: A, r: R| #[trigger] call_ensures(f, (a,), r) ==> r == g(a),
{
}

/// The same of a question about two things.
pub proof fn two_questions_are_answered_alike<A, B, R, F: Fn(A, B) -> R>(
    f: F,
    g: spec_fn(A, B) -> R,
)
    ensures
        agrees2(f, g) <==> forall|a: A, b: B, r: R| #[trigger]
            call_ensures(f, (a, b), r) ==> r == g(a, b),
{
}

/// The same of a question about three things.
pub proof fn three_questions_are_answered_alike<A, B, C, R, F: Fn(A, B, C) -> R>(
    f: F,
    g: spec_fn(A, B, C) -> R,
)
    ensures
        agrees3(f, g) <==> forall|a: A, b: B, c: C, r: R| #[trigger]
            call_ensures(f, (a, b, c), r) ==> r == g(a, b, c),
{
}

/// The same where a list is asked about, and where one is answered.
pub proof fn lists_are_answered_alike<
    A,
    T,
    R,
    F: Fn(A, &Vec<T>) -> R,
    L: Fn(A) -> Vec<T>,
    W: Fn(A, SnapTarget, usize) -> Vec<LatticePoint>,
>(
    f: F,
    g: spec_fn(A, Seq<T>) -> R,
    l: L,
    m: spec_fn(A) -> Seq<T>,
    w: W,
    v: spec_fn(A, SnapTarget, usize) -> Seq<LatticePoint>,
)
    ensures
        agrees_on_lists(f, g) <==> forall|a: A, b: &Vec<T>, r: R| #[trigger]
            call_ensures(f, (a, b), r) ==> r == g(a, b@),
        agrees_on_contents(l, m) <==> forall|a: A, r: Vec<T>| #[trigger]
            call_ensures(l, (a,), r) ==> r@ == m(a),
        walks_as(w, v) <==> forall|a: A, t: SnapTarget, k: usize, r: Vec<LatticePoint>| #[trigger]
            call_ensures(w, (a, t, k), r) ==> r@ == v(a, t, k),
{
}

/// A surface answers as given functions do if each of its nineteen questions is answered so.
pub proof fn surfaces_answer_question_by_question<
    N: Copy,
    P: Copy,
    T: Copy,
    H: Fn(RangeZYX) -> bool,
    S: Fn(RangeZYX, usize) -> bool,
    C: Fn(Point) -> bool,
    K: Fn(Point) -> Displacement,
    FT: Fn(Point, &Vec<Point>) -> T,
    FF: Fn(T) -> Facet,
    G: Fn(T, SnapTarget, usize) -> Scalar,
    W: Fn(T, SnapTarget, usize) -> Vec<LatticePoint>,
    E: Fn(T, SnapTarget, LatticePoint) -> Scalar,
    AF: Fn(T, SnapTarget) -> Displacement,
    AL: Fn(T, LatticePoint) -> Displacement,
    NC: Fn(Point) -> Option<N>,
    NV: Fn(Point) -> Option<N>,
    F: Fn(N, Vector) -> Scalar,
    L: Fn(N, N) -> Scalar,
    PL: Fn(Point) -> Option<P>,
    ON: Fn(P, Point) -> Displacement,
    AV: Fn(Point, Neighborhood) -> Displacement,
    R: Fn(Point, Encoded, Neighborhood) -> Displacement,
>(
    s: Surface<H, S, C, K, FT, FF, G, W, E, AF, AL, NC, NV, F, L, PL, ON, AV, R>,
    o: Answers<N, P, T>,
)
    requires
        agrees1(s.intersects, o.intersects),
        agrees2(s.sample_inside, o.sample_inside),
        agrees1(s.corner_inside, o.corner_inside),
        agrees1(s.closest, o.closest),
        agrees_on_lists(s.facet, o.facet),
        agrees1(s.features, o.features),
        agrees3(s.gap, o.gap),
        walks_as(s.walk, o.walk),
        agrees3(s.error, o.error),
        agrees2(s.at_feature, o.at_feature),
        agrees2(s.at_lattice, o.at_lattice),
        agrees1(s.cell_normal, o.cell_normal),
        agrees1(s.corner_normal, o.corner_normal),
        agrees2(s.facing, o.facing),
        agrees2(s.alignment, o.alignment),
        agrees1(s.plane, o.plane),
        agrees2(s.onto_plane, o.onto_plane),
        agrees2(s.average, o.average),
        agrees3(s.relaxed, o.relaxed),
    ensures
        s.answers_as(o),
{
}

} // verus!
