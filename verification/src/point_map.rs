//! Maps keyed by grid points, which remember the order in which their keys came in.
use crate::geometry::Point;
use std::collections::HashMap;
use vstd::prelude::*;

verus! {

/// One step along an axis, as a weight in packed keys.
const AXIS: u128 = 0x1_0000_0000;

/// The coordinates of a point as the digits of one number.
#[verifier::opaque]
spec fn packed(p: Point) -> u128 {
    (((p.x + 0x8000_0000) * 0x1_0000_0000 + (p.y + 0x8000_0000)) * 0x1_0000_0000 + (p.z
        + 0x8000_0000)) as u128
}

fn digit(v: i32) -> (r: u128)
    ensures
        r == v + 0x8000_0000,
{
    (v as i64 + 0x8000_0000) as u128
}

fn pack(p: Point) -> (r: u128)
    ensures
        r == packed(p),
{
    reveal(packed);
    (digit(p.x) * AXIS + digit(p.y)) * AXIS + digit(p.z)
}

proof fn lemma_packed_injective(p: Point, q: Point)
    ensures
        packed(p) == packed(q) ==> p == q,
{
    reveal(packed);
}

/// A map from grid points to values.
pub struct PointMap<V> {
    entries: Vec<(Point, V)>,
    index: HashMap<u128, usize>,
}

/// A set of grid points.
pub type PointSet = PointMap<()>;

impl<V> View for PointMap<V> {
    type V = Map<Point, V>;

    closed spec fn view(&self) -> Map<Point, V> {
        Map::new(
            |p: Point| self.index@.contains_key(packed(p)),
            |p: Point| self.entries@[self.index@[packed(p)] as int].1,
        )
    }
}

impl<V> PointMap<V> {
    /// The index finds every entry, and nothing else.
    pub closed spec fn wf(self) -> bool {
        &&& forall|i: int|
            0 <= i < self.entries@.len() ==> self.index@.contains_key(
                packed((#[trigger] self.entries@[i]).0),
            ) && self.index@[packed(self.entries@[i].0)] == i
        &&& forall|k: u128| #[trigger]
            self.index@.contains_key(k) ==> self.index@[k] < self.entries@.len() && packed(
                self.entries@[self.index@[k] as int].0,
            ) == k
    }

    /// The keys, in the order in which they came in.
    pub closed spec fn keys(self) -> Seq<Point> {
        self.entries@.map_values(|e: (Point, V)| e.0)
    }

    /// The keys are those of the map, each once.
    pub proof fn lemma_keys(self)
        requires
            self.wf(),
        ensures
            self.keys().no_duplicates(),
            forall|p: Point| #[trigger] self@.contains_key(p) <==> self.keys().contains(p),
            forall|i: int|
                0 <= i < self.keys().len() ==> self@.contains_key(#[trigger] self.keys()[i]),
    {
        let ks = self.keys();
        assert forall|i: int| 0 <= i < ks.len() implies self@.contains_key(#[trigger] ks[i]) by {
            assert(ks[i] == self.entries@[i].0);
        }
        assert forall|p: Point| #[trigger] self@.contains_key(p) implies ks.contains(p) by {
            let i = self.index@[packed(p)] as int;
            assert(packed(self.entries@[i].0) == packed(p));
            lemma_packed_injective(p, self.entries@[i].0);
            assert(ks[i] == p);
        }
        assert forall|i: int, j: int| 0 <= i < ks.len() && 0 <= j < ks.len() && i != j implies ks[i]
            != ks[j] by {
            assert(ks[i] == self.entries@[i].0);
            assert(ks[j] == self.entries@[j].0);
        }
    }

    pub fn new() -> (m: PointMap<V>)
        ensures
            m.wf(),
            m@ == Map::<Point, V>::empty(),
            m.keys() == Seq::<Point>::empty(),
    {
        broadcast use vstd::std_specs::hash::group_hash_axioms;

        let m: PointMap<V> = PointMap { entries: Vec::new(), index: HashMap::new() };
        assert(m@ =~= Map::<Point, V>::empty());
        assert(m.keys() =~= Seq::<Point>::empty());
        m
    }

    /// The number of keys.
    pub fn len(&self) -> (n: usize)
        ensures
            n == self.keys().len(),
    {
        self.entries.len()
    }

    pub fn is_empty(&self) -> (b: bool)
        requires
            self.wf(),
        ensures
            b == (self@ == Map::<Point, V>::empty()),
    {
        proof {
            self.lemma_keys();
            if self.entries@.len() == 0 {
                assert(self@ =~= Map::<Point, V>::empty()) by {
                    assert forall|p: Point| !#[trigger] self@.contains_key(p) by {}
                }
            } else {
                assert(self@.contains_key(self.keys()[0]));
            }
        }
        self.entries.len() == 0
    }

    /// Entry `i`, in the order in which the keys came in.
    pub fn entry(&self, i: usize) -> (e: (Point, &V))
        requires
            self.wf(),
            i < self.keys().len(),
        ensures
            e.0 == self.keys()[i as int],
            self@.contains_key(e.0),
            *e.1 == self@[e.0],
    {
        assert(self.keys()[i as int] == self.entries@[i as int].0);
        (self.entries[i].0, &self.entries[i].1)
    }

    /// The keys, in the order in which they came in.
    pub fn key_list(&self) -> (r: Vec<Point>)
        ensures
            r@ == self.keys(),
    {
        let mut r: Vec<Point> = Vec::new();
        let mut i: usize = 0;
        while i < self.entries.len()
            invariant
                i <= self.entries@.len(),
                r@ == self.keys().take(i as int),
            decreases self.entries@.len() - i,
        {
            r.push(self.entries[i].0);
            i = i + 1;
            assert(r@ =~= self.keys().take(i as int));
        }
        assert(r@ =~= self.keys());
        r
    }

    /// The place of `p` among the keys.
    fn find(&self, p: Point) -> (r: Option<usize>)
        requires
            self.wf(),
        ensures
            r is Some <==> self@.contains_key(p),
            r matches Some(i) ==> i < self.entries@.len() && self.entries@[i as int].0 == p
                && self@[p] == self.entries@[i as int].1,
    {
        broadcast use vstd::std_specs::hash::group_hash_axioms;

        let k: u128 = pack(p);
        match self.index.get(&k) {
            Some(i) => {
                proof {
                    lemma_packed_injective(p, self.entries@[*i as int].0);
                }
                Some(*i)
            },
            None => None,
        }
    }

    pub fn contains(&self, p: Point) -> (b: bool)
        requires
            self.wf(),
        ensures
            b == self@.contains_key(p),
    {
        self.find(p).is_some()
    }

    pub fn get(&self, p: Point) -> (r: Option<&V>)
        requires
            self.wf(),
        ensures
            r == if self@.contains_key(p) {
                Some(&self@[p])
            } else {
                None
            },
    {
        match self.find(p) {
            Some(i) => Some(&self.entries[i].1),
            None => None,
        }
    }

    /// Gives `p` the value `v`; a new key comes last.
    pub fn insert(&mut self, p: Point, v: V)
        requires
            old(self).wf(),
        ensures
            final(self).wf(),
            final(self)@ == old(self)@.insert(p, v),
            final(self).keys() == if old(self)@.contains_key(p) {
                old(self).keys()
            } else {
                old(self).keys().push(p)
            },
    {
        broadcast use vstd::std_specs::hash::group_hash_axioms;

        match self.find(p) {
            Some(i) => {
                self.entries[i] = (p, v);
                proof {
                    lemma_replaced(*old(self), *self, p, i as int, v);
                }
            },
            None => {
                let n: usize = self.entries.len();
                self.entries.push((p, v));
                self.index.insert(pack(p), n);
                proof {
                    lemma_added(*old(self), *self, p, v);
                }
            },
        }
    }
}

proof fn lemma_replaced<V>(a: PointMap<V>, b: PointMap<V>, p: Point, i: int, v: V)
    requires
        a.wf(),
        0 <= i < a.entries@.len(),
        a.entries@[i].0 == p,
        b.entries@ == a.entries@.update(i, (p, v)),
        b.index@ == a.index@,
    ensures
        b.wf(),
        b@ == a@.insert(p, v),
        b.keys() == a.keys(),
{
    assert forall|j: int| 0 <= j < b.entries@.len() implies b.index@.contains_key(
        packed((#[trigger] b.entries@[j]).0),
    ) && b.index@[packed(b.entries@[j].0)] == j by {
        assert(b.entries@[j].0 == a.entries@[j].0);
    }
    assert(b.keys() =~= a.keys());
    assert forall|q: Point| q != p && #[trigger] a@.contains_key(q) implies b@[q] == a@[q] by {
        lemma_packed_injective(p, q);
        let j = a.index@[packed(q)] as int;
        assert(packed(a.entries@[j].0) == packed(q));
    }
    assert(a.index@[packed(a.entries@[i].0)] == i);
    let want = a@.insert(p, v);
    assert forall|q: Point| #[trigger] b@.contains_key(q) <==> want.contains_key(q) by {}
    assert forall|q: Point| #[trigger] b@.contains_key(q) implies b@[q] == want[q] by {
        if q != p {
            assert(a@.contains_key(q));
        }
    }
    assert(b@ =~= want);
}

proof fn lemma_added<V>(a: PointMap<V>, b: PointMap<V>, p: Point, v: V)
    requires
        a.wf(),
        !a@.contains_key(p),
        a.entries@.len() <= usize::MAX,
        b.entries@ == a.entries@.push((p, v)),
        b.index@ == a.index@.insert(packed(p), a.entries@.len() as usize),
    ensures
        b.wf(),
        b@ == a@.insert(p, v),
        b.keys() == a.keys().push(p),
{
    let n = a.entries@.len() as int;
    assert forall|j: int| 0 <= j < b.entries@.len() implies b.index@.contains_key(
        packed((#[trigger] b.entries@[j]).0),
    ) && b.index@[packed(b.entries@[j].0)] == j by {
        if j < n {
            assert(b.entries@[j] == a.entries@[j]);
        }
    }
    assert(b.keys() =~= a.keys().push(p));
    assert forall|q: Point| q != p && #[trigger] a@.contains_key(q) implies b@.contains_key(q)
        && b@[q] == a@[q] by {
        lemma_packed_injective(p, q);
    }
    assert forall|q: Point| #[trigger] b@.contains_key(q) implies q == p || a@.contains_key(q) by {
        lemma_packed_injective(p, q);
    }
    assert(b@ =~= a@.insert(p, v));
}

/// The lists of a map, by their contents.
pub open spec fn lists<T>(m: Map<Point, Vec<T>>) -> Map<Point, Seq<T>> {
    m.map_values(|v: Vec<T>| v@)
}

/// The lists with `item` added at the end of the list of `p`.
pub open spec fn appended<T>(m: Map<Point, Seq<T>>, p: Point, item: T) -> Map<Point, Seq<T>> {
    m.insert(
        p,
        if m.contains_key(p) {
            m[p].push(item)
        } else {
            seq![item]
        },
    )
}

impl<T> PointMap<Vec<T>> {
    /// Adds `item` at the end of the list of `p`; a new key starts with an empty list.
    pub fn append(&mut self, p: Point, item: T)
        requires
            old(self).wf(),
        ensures
            final(self).wf(),
            lists(final(self)@) == appended(lists(old(self)@), p, item),
            final(self).keys() == if old(self)@.contains_key(p) {
                old(self).keys()
            } else {
                old(self).keys().push(p)
            },
    {
        match self.find(p) {
            Some(i) => {
                self.entries[i].1.push(item);
                proof {
                    lemma_replaced(*old(self), *self, p, i as int, self.entries@[i as int].1);
                    assert(lists(self@) =~= appended(lists(old(self)@), p, item));
                }
            },
            None => {
                let mut list: Vec<T> = Vec::new();
                list.push(item);
                assert(list@ =~= seq![item]);
                self.insert(p, list);
                assert(lists(self@) =~= appended(lists(old(self)@), p, item));
            },
        }
    }
}

} // verus!
