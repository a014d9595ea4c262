//! Questions about the surface, asked through functions that the caller hands in.
//!
//! The contracts of the library say what comes out for every way in which such a function may
//! answer: where it answers as the mathematical function `g` does, the result is the one that
//! `g` gives.
use vstd::prelude::*;

verus! {

/// Every answer of `f` is that of `g`.
pub open spec fn agrees1<A, R, F: Fn(A) -> R>(f: F, g: spec_fn(A) -> R) -> bool {
    forall|a: A, r: R| #[trigger] call_ensures(f, (a,), r) ==> r == g(a)
}

/// Every answer of `f` is that of `g`.
pub open spec fn agrees2<A, B, R, F: Fn(A, B) -> R>(f: F, g: spec_fn(A, B) -> R) -> bool {
    forall|a: A, b: B, r: R| #[trigger] call_ensures(f, (a, b), r) ==> r == g(a, b)
}

/// Every answer of `f` is that of `g`.
pub open spec fn agrees3<A, B, C, R, F: Fn(A, B, C) -> R>(
    f: F,
    g: spec_fn(A, B, C) -> R,
) -> bool {
    forall|a: A, b: B, c: C, r: R| #[trigger]
        call_ensures(f, (a, b, c), r) ==> r == g(a, b, c)
}

/// Every answer of `f` is that of `g` on the contents of the list.
pub open spec fn agrees_on_lists<A, T, R, F: Fn(A, &Vec<T>) -> R>(
    f: F,
    g: spec_fn(A, Seq<T>) -> R,
) -> bool {
    forall|a: A, b: &Vec<T>, r: R| #[trigger] call_ensures(f, (a, b), r) ==> r == g(a, b@)
}

/// Every list that `f` answers has the contents that `g` gives.
pub open spec fn agrees_on_contents<A, T, F: Fn(A) -> Vec<T>>(
    f: F,
    g: spec_fn(A) -> Seq<T>,
) -> bool {
    forall|a: A, r: Vec<T>| #[trigger] call_ensures(f, (a,), r) ==> r@ == g(a)
}

} // verus!
