//! A set of values, stored as the keys of a `VecMap` whose values are `()`.
use crate::{
    any_match, first_match, keys_of, lemma_entries_map_len, lemma_first_match, lemma_key_probe,
    probe_matches, Keys, VecMap,
};
use vstd::laws_eq::obeys_concrete_eq;
use vstd::pervasive::strictly_cloned;
use vstd::prelude::*;
use vstd::std_specs::cmp::PartialEqSpec;

verus! {

/// `probe` compares equal to some element of `s`.
pub open spec fn probe_hits<T, Q: PartialEq<T>>(s: Set<T>, probe: &Q) -> bool {
    exists|x: T| s.contains(x) && probe_matches(probe, x)
}

/// The elements of `a` that are not in `b`, in the order of `a`.
pub open spec fn seq_difference<T>(a: Seq<T>, b: Set<T>) -> Seq<T> {
    a.filter(|x: T| !b.contains(x))
}

/// The elements of `a` that are in `b`, in the order of `a`.
pub open spec fn seq_intersection<T>(a: Seq<T>, b: Set<T>) -> Seq<T> {
    a.filter(|x: T| b.contains(x))
}

/// With an element type whose `==` is equality, a probe by value hits a set
/// exactly when the set holds that value.
pub proof fn lemma_probe_hits<T: PartialEq>(s: Set<T>, v: T)
    requires
        obeys_concrete_eq::<T>(),
    ensures
        <T as PartialEqSpec<T>>::obeys_eq_spec(),
        probe_hits(s, &v) <==> s.contains(v),
{
    lemma_key_probe(Seq::<(T, ())>::empty(), v);
    if s.contains(v) {
        assert(probe_matches(&v, v));
    }
}

/// Dropping the first element of `s` drops it from the front of a filter
/// of `s`, if it passes.
proof fn lemma_filter_first<T>(s: Seq<T>, p: spec_fn(T) -> bool)
    requires
        s.len() > 0,
    ensures
        s.filter(p) == (if p(s[0]) {
            seq![s[0]]
        } else {
            Seq::empty()
        }) + s.drop_first().filter(p),
{
    assert(s =~= seq![s[0]] + s.drop_first());
    s.drop_first().lemma_filter_prepend(s[0], p);
}

/// `a` holds every element of `b`.
pub open spec fn superset_of<T>(a: Set<T>, b: Set<T>) -> bool {
    b.subset_of(a)
}

/// The elements of a concatenation are those of its two parts.
pub proof fn lemma_concat_to_set<T>(a: Seq<T>, b: Seq<T>)
    ensures
        (a + b).to_set() == a.to_set().union(b.to_set()),
{
    assert forall|x: T| (a + b).contains(x) <==> a.contains(x) || b.contains(x) by {
        if (a + b).contains(x) {
            let i = choose|i: int| 0 <= i < (a + b).len() && (a + b)[i] == x;
            if i >= a.len() {
                assert(b[i - a.len()] == x);
            }
        }
        if a.contains(x) {
            let i = choose|i: int| 0 <= i < a.len() && a[i] == x;
            assert((a + b)[i] == x);
        }
        if b.contains(x) {
            let i = choose|i: int| 0 <= i < b.len() && b[i] == x;
            assert((a + b)[i + a.len()] == x);
        }
    }
    assert((a + b).to_set() =~= a.to_set().union(b.to_set()));
}

/// The elements of `seq_difference` are those of the set difference.
pub proof fn lemma_difference_set<T>(a: Seq<T>, b: Set<T>)
    ensures
        seq_difference(a, b).to_set() == a.to_set().difference(b),
{
    let p = |x: T| !b.contains(x);
    assert forall|x: T| seq_difference(a, b).to_set().contains(x) <==> a.to_set().difference(
        b,
    ).contains(x) by {
        if a.contains(x) && p(x) {
            let i = choose|i: int| 0 <= i < a.len() && a[i] == x;
            a.lemma_filter_contains(p, i);
        }
        if a.filter(p).contains(x) {
            let i = choose|i: int| 0 <= i < a.filter(p).len() && a.filter(p)[i] == x;
            a.lemma_filter_pred(p, i);
            a.lemma_filter_contains_rev(p, x);
        }
    }
    assert(seq_difference(a, b).to_set() =~= a.to_set().difference(b));
}

/// The elements of `seq_intersection` are those of the set intersection.
pub proof fn lemma_intersection_set<T>(a: Seq<T>, b: Set<T>)
    ensures
        seq_intersection(a, b).to_set() == a.to_set().intersect(b),
{
    let p = |x: T| b.contains(x);
    assert forall|x: T| seq_intersection(a, b).to_set().contains(x) <==> a.to_set().intersect(
        b,
    ).contains(x) by {
        if a.contains(x) && p(x) {
            let i = choose|i: int| 0 <= i < a.len() && a[i] == x;
            a.lemma_filter_contains(p, i);
        }
        if a.filter(p).contains(x) {
            let i = choose|i: int| 0 <= i < a.filter(p).len() && a.filter(p)[i] == x;
            a.lemma_filter_pred(p, i);
            a.lemma_filter_contains_rev(p, x);
        }
    }
    assert(seq_intersection(a, b).to_set() =~= a.to_set().intersect(b));
}

/// Cloning a `T` gives a value equal to the original.
pub open spec fn clone_is_exact<T: Clone>() -> bool {
    forall|a: T, b: T| #[trigger] strictly_cloned(a, b) ==> a == b
}

/// A set stored as a vector of distinct elements, in no particular order.
///
/// Lookups scan the vector, so most operations take O(n).
#[derive(Clone, Debug)]
pub struct VecSet<T: PartialEq> {
    map: VecMap<T, ()>,
}

impl<T: PartialEq> View for VecSet<T> {
    type V = Set<T>;

    open spec fn view(&self) -> Set<T> {
        self.elements().to_set()
    }
}

/// Facts on the keys of a well-formed map of `()` values.
proof fn lemma_unit_map<T: PartialEq>(m: VecMap<T, ()>)
    requires
        m.wf(),
    ensures
        keys_of(m.entries()).no_duplicates(),
        keys_of(m.entries()).len() == m.spec_len(),
        keys_of(m.entries()).to_set() == m@.dom(),
        m@.dom().finite(),
        m@.dom().len() == m.spec_len(),
{
    lemma_entries_map_len(m.entries());
    let ks = keys_of(m.entries());
    assert forall|a: int, b: int| 0 <= a < ks.len() && 0 <= b < ks.len() && a != b implies ks[a]
        != ks[b] by {
        assert(ks[a] == m.entries()[a].0 && ks[b] == m.entries()[b].0);
    }
}

impl<T: PartialEq> VecSet<T> {
    /// The elements, in storage order.
    pub closed spec fn elements(&self) -> Seq<T> {
        keys_of(self.map.entries())
    }

    /// The set is well formed: its elements are distinct.
    pub closed spec fn wf(&self) -> bool {
        self.map.wf()
    }

    /// Facts on the elements of a well-formed set.
    pub proof fn lemma_elements(&self)
        requires
            self.wf(),
        ensures
            self.elements().no_duplicates(),
            self@.finite(),
            self@.len() == self.elements().len(),
    {
        lemma_unit_map(self.map);
    }

    /// An empty set.
    pub fn new() -> (r: VecSet<T>)
        ensures
            r.wf(),
            r.elements() == Seq::<T>::empty(),
            r@ == Set::<T>::empty(),
    {
        let r = VecSet { map: VecMap::new() };
        assert(r.elements() =~= Seq::<T>::empty());
        assert(r@ =~= Set::<T>::empty());
        r
    }

    /// An empty set with room for at least `capacity` elements.
    pub fn with_capacity(capacity: usize) -> (r: VecSet<T>)
        ensures
            r.wf(),
            r.elements() == Seq::<T>::empty(),
            r@ == Set::<T>::empty(),
    {
        let r = VecSet { map: VecMap::with_capacity(capacity) };
        assert(r.elements() =~= Seq::<T>::empty());
        assert(r@ =~= Set::<T>::empty());
        r
    }

    /// How many elements fit before the backing vector grows.
    pub fn capacity(&self) -> (r: usize)
        ensures
            r >= self.elements().len(),
    {
        self.map.capacity()
    }

    /// Makes room for at least `additional` more elements.
    pub fn reserve(&mut self, additional: usize)
        ensures
            final(self).wf() == old(self).wf(),
            final(self).elements() == old(self).elements(),
    {
        self.map.reserve(additional)
    }

    /// Gives back as much unused room as the allocator allows.
    pub fn shrink_to_fit(&mut self)
        ensures
            final(self).wf() == old(self).wf(),
            final(self).elements() == old(self).elements(),
    {
        self.map.shrink_to_fit()
    }

    /// The elements, in storage order.
    pub fn iter(&self) -> (r: Iter<'_, T>)
        ensures
            r@ == self.elements(),
            r.done() == Seq::<T>::empty(),
    {
        Iter { keys: self.map.keys() }
    }

    /// The number of elements.
    pub fn len(&self) -> (r: usize)
        ensures
            r == self.elements().len(),
            self.wf() ==> r == self@.len(),
    {
        proof {
            if self.wf() {
                lemma_unit_map(self.map);
            }
        }
        self.map.len()
    }

    /// Whether the set has no element.
    pub fn is_empty(&self) -> (r: bool)
        ensures
            r == (self.elements().len() == 0),
            self.wf() ==> r == (self@.len() == 0),
    {
        proof {
            if self.wf() {
                lemma_unit_map(self.map);
            }
        }
        self.map.is_empty()
    }

    /// Removes every element.
    pub fn clear(&mut self)
        ensures
            final(self).wf(),
            final(self).elements() == Seq::<T>::empty(),
            final(self)@ == Set::<T>::empty(),
    {
        self.map.clear();
        assert(self.elements() =~= Seq::<T>::empty());
        assert(self@ =~= Set::<T>::empty());
    }

    /// Whether some element compares equal to `value`.
    pub fn contains<Q: PartialEq<T>>(&self, value: &Q) -> (r: bool)
        requires
            <Q as PartialEqSpec<T>>::obeys_eq_spec(),
        ensures
            r == probe_hits(self@, value),
    {
        let r = self.map.contains_key(value);
        proof {
            let s = self.map.entries();
            let ks = keys_of(s);
            if r {
                let i = choose|i: int| 0 <= i < s.len() && probe_matches(value, #[trigger] s[i].0);
                assert(ks[i] == s[i].0);
                assert(self@.contains(s[i].0));
            }
            if probe_hits(self@, value) {
                let x = choose|x: T| self@.contains(x) && probe_matches(value, x);
                let i = choose|i: int| 0 <= i < ks.len() && ks[i] == x;
                assert(s[i].0 == x);
            }
        }
        r
    }

    /// Adds `value`. Returns whether it was new.
    pub fn insert(&mut self, value: T) -> (r: bool)
        requires
            old(self).wf(),
            obeys_concrete_eq::<T>(),
        ensures
            final(self).wf(),
            final(self)@ == old(self)@.insert(value),
            r == !old(self)@.contains(value),
            final(self).elements().len() == old(self).elements().len() + if r {
                1int
            } else {
                0int
            },
    {
        proof {
            lemma_unit_map(self.map);
        }
        let r = self.map.insert(value, ()).is_none();
        proof {
            lemma_unit_map(self.map);
            assert(self.map@.dom() =~= old(self).map@.dom().insert(value));
        }
        r
    }

    /// Removes the first element that compares equal to `value`. Returns
    /// whether there was one.
    pub fn remove<Q: PartialEq<T>>(&mut self, value: &Q) -> (r: bool)
        requires
            old(self).wf(),
            <Q as PartialEqSpec<T>>::obeys_eq_spec(),
        ensures
            final(self).wf(),
            r == probe_hits(old(self)@, value),
            r ==> exists|x: T|
                old(self)@.contains(x) && probe_matches(value, x) && final(self)@ == old(
                    self,
                )@.remove(x),
            !r ==> final(self)@ == old(self)@,
            final(self).elements().len() == old(self).elements().len() - if r {
                1int
            } else {
                0int
            },
    {
        proof {
            lemma_unit_map(self.map);
            let s = self.map.entries();
            let ks = keys_of(s);
            if any_match(s, value) {
                let i = choose|i: int| 0 <= i < s.len() && probe_matches(value, #[trigger] s[i].0);
                assert(ks[i] == s[i].0);
                assert(self@.contains(s[i].0));
            }
            if probe_hits(self@, value) {
                let x = choose|x: T| self@.contains(x) && probe_matches(value, x);
                let i = choose|i: int| 0 <= i < ks.len() && ks[i] == x;
                assert(s[i].0 == x);
            }
        }
        let ghost old_map = self.map;
        let r = self.map.remove(value).is_some();
        proof {
            lemma_unit_map(self.map);
            lemma_unit_map(old_map);
            if r {
                let s = old_map.entries();
                let x = s[first_match(s, value)].0;
                lemma_first_match(s, value);
                assert(keys_of(s)[first_match(s, value)] == x);
                assert(self.map@.dom() =~= old_map@.dom().remove(x));
            }
        }
        r
    }

    /// The elements of `self` that are not in `other`, lazily.
    pub fn difference<'a>(&'a self, other: &'a VecSet<T>) -> (r: Difference<'a, T>)
        requires
            obeys_concrete_eq::<T>(),
        ensures
            r@ == seq_difference(self.elements(), other@),
            r@.to_set() == self@.difference(other@),
    {
        proof {
            lemma_difference_set(self.elements(), other@);
        }
        Difference { iter: self.iter(), other }
    }

    /// The elements that are in exactly one of `self` and `other`, lazily:
    /// first those of `self`, then those of `other`.
    pub fn symmetric_difference<'a>(&'a self, other: &'a VecSet<T>) -> (r: SymmetricDifference<
        'a,
        T,
    >)
        requires
            obeys_concrete_eq::<T>(),
        ensures
            r@ == seq_difference(self.elements(), other@) + seq_difference(other.elements(), self@),
            r@.to_set() == self@.difference(other@).union(other@.difference(self@)),
    {
        proof {
            lemma_concat_to_set(
                seq_difference(self.elements(), other@),
                seq_difference(other.elements(), self@),
            );
            lemma_difference_set(self.elements(), other@);
            lemma_difference_set(other.elements(), self@);
        }
        SymmetricDifference { first: self.difference(other), second: other.difference(self) }
    }

    /// The elements of `self` that are also in `other`, lazily.
    pub fn intersection<'a>(&'a self, other: &'a VecSet<T>) -> (r: Intersection<'a, T>)
        requires
            obeys_concrete_eq::<T>(),
        ensures
            r@ == seq_intersection(self.elements(), other@),
            r@.to_set() == self@.intersect(other@),
    {
        proof {
            lemma_intersection_set(self.elements(), other@);
        }
        Intersection { iter: self.iter(), other }
    }

    /// All elements of `self`, then those of `other` that `self` lacks, lazily.
    pub fn union<'a>(&'a self, other: &'a VecSet<T>) -> (r: Union<'a, T>)
        requires
            obeys_concrete_eq::<T>(),
        ensures
            r@ == self.elements() + seq_difference(other.elements(), self@),
            r@.to_set() == self@.union(other@),
    {
        proof {
            lemma_concat_to_set(self.elements(), seq_difference(other.elements(), self@));
            lemma_difference_set(other.elements(), self@);
            assert(self@.union(other@.difference(self@)) =~= self@.union(other@));
        }
        Union { first: self.iter(), second: other.difference(self) }
    }

    /// Whether no element of `self` is in `other`.
    pub fn is_disjoint(&self, other: &VecSet<T>) -> (r: bool)
        requires
            obeys_concrete_eq::<T>(),
        ensures
            r == self@.disjoint(other@),
    {
        let mut it = self.iter();
        loop
            invariant
                obeys_concrete_eq::<T>(),
                self.elements() == it.done() + it@,
                forall|i: int| 0 <= i < it.done().len() ==> !other@.contains(#[trigger] it.done()[i]),
            decreases it@.len(),
        {
            let ghost d = it.done();
            match it.next() {
                Some(x) => {
                    proof {
                        lemma_probe_hits(other@, *x);
                    }
                    if other.contains(x) {
                        proof {
                            assert(self.elements()[d.len() as int] == *x);
                        }
                        return false;
                    }
                },
                None => {
                    proof {
                        assert forall|x: T| self@.contains(x) implies !other@.contains(x) by {
                            let i = choose|i: int| 0 <= i < self.elements().len() && self.elements()[i] == x;
                            assert(it.done()[i] == x);
                        }
                    }
                    return true;
                },
            }
        }
    }

    /// Whether every element of `self` is in `other`.
    pub fn is_subset(&self, other: &VecSet<T>) -> (r: bool)
        requires
            obeys_concrete_eq::<T>(),
        ensures
            r == self@.subset_of(other@),
    {
        let mut it = self.iter();
        loop
            invariant
                obeys_concrete_eq::<T>(),
                self.elements() == it.done() + it@,
                forall|i: int| 0 <= i < it.done().len() ==> other@.contains(#[trigger] it.done()[i]),
            decreases it@.len(),
        {
            let ghost d = it.done();
            match it.next() {
                Some(x) => {
                    proof {
                        lemma_probe_hits(other@, *x);
                    }
                    if !other.contains(x) {
                        proof {
                            assert(self.elements()[d.len() as int] == *x);
                        }
                        return false;
                    }
                },
                None => {
                    proof {
                        assert forall|x: T| self@.contains(x) implies other@.contains(x) by {
                            let i = choose|i: int| 0 <= i < self.elements().len() && self.elements()[i] == x;
                            assert(it.done()[i] == x);
                        }
                    }
                    return true;
                },
            }
        }
    }

    /// Whether every element of `other` is in `self`.
    pub fn is_superset(&self, other: &VecSet<T>) -> (r: bool)
        requires
            obeys_concrete_eq::<T>(),
        ensures
            r == superset_of(self@, other@),
    {
        other.is_subset(self)
    }

    /// The set of the elements of `items`: a later duplicate is dropped.
    pub fn from_iter(items: Vec<T>) -> (r: VecSet<T>)
        requires
            obeys_concrete_eq::<T>(),
        ensures
            r.wf(),
            r@ == items@.to_set(),
    {
        let mut set = VecSet::with_capacity(items.len());
        set.extend(items);
        assert(set@ =~= items@.to_set());
        set
    }

    /// Adds each element of `items`.
    pub fn extend(&mut self, items: Vec<T>)
        requires
            old(self).wf(),
            obeys_concrete_eq::<T>(),
        ensures
            final(self).wf(),
            final(self)@ == old(self)@.union(items@.to_set()),
    {
        let ghost start = self@;
        assert(items@.take(items@.len() as int) =~= items@);
        for x in it: items
            invariant
                items@.take(items@.len() as int) == items@,
                obeys_concrete_eq::<T>(),
                it.seq() == items@,
                self.wf(),
                self@ == start.union(it.seq().take(it.index() as int).to_set()),
            ensures
                self.wf(),
                self@ == start.union(items@.to_set()),
        {
            proof {
                let done = it.seq().take(it.index() as int);
                assert(it.seq().take(it.index() + 1) =~= done.push(x));
                assert(done.push(x).to_set() =~= done.to_set().insert(x));
                assert(start.union(done.push(x).to_set()) =~= start.union(done.to_set()).insert(x));
            }
            self.insert(x);
        }
    }

    /// Empties the set and hands out its elements.
    pub fn drain(&mut self) -> (r: Drain<T>)
        ensures
            r@ == old(self).elements(),
            final(self).wf(),
            final(self)@ == Set::<T>::empty(),
    {
        let mut taken = VecSet::new();
        std::mem::swap(self, &mut taken);
        Drain { rest: taken.into_back_to_front() }
    }

    /// Hands out the elements by value.
    pub fn into_iter(self) -> (r: IntoIter<T>)
        ensures
            r@ == self.elements(),
    {
        IntoIter { rest: self.into_back_to_front() }
    }

    /// The elements, last first.
    fn into_back_to_front(self) -> (r: Vec<T>)
        ensures
            back_to_front(r@) == self.elements(),
    {
        let ghost m = self.map;
        let mut entries: Vec<(T, ())> = Vec::from(self.map);
        proof {
            crate::lemma_from_vec(entries, m);
        }
        let ghost n = entries@.len();
        let mut out: Vec<T> = Vec::with_capacity(entries.len());
        while entries.len() > 0
            invariant
                n == m.entries().len(),
                out@.len() + entries@.len() == n,
                entries@ == m.entries().take(entries@.len() as int),
                forall|j: int| 0 <= j < out@.len() ==> #[trigger] out@[j] == m.entries()[n - 1 - j].0,
            decreases entries@.len(),
        {
            let ghost before = entries@;
            match entries.pop() {
                Some(e) => {
                    proof {
                        assert(entries@ =~= m.entries().take(entries@.len() as int));
                    }
                    out.push(e.0);
                },
                None => {},
            }
        }
        proof {
            assert(back_to_front(out@) =~= self.elements());
        }
        out
    }

    /// Keeps only the elements for which `f` returns true.
    pub fn retain<F: Fn(&T) -> bool>(&mut self, f: F)
        requires
            old(self).wf(),
            forall|x: &T| #[trigger] f.requires((x,)),
        ensures
            final(self).wf(),
            final(self)@.subset_of(old(self)@),
            forall|x: T|
                #[trigger] old(self)@.contains(x) ==> if final(self)@.contains(x) {
                    f.ensures((&x,), true)
                } else {
                    f.ensures((&x,), false)
                },
    {
        let ghost start = self@;
        proof {
            lemma_unit_map(self.map);
        }
        let mut taken = VecSet::new();
        std::mem::swap(self, &mut taken);
        let ghost m = taken.map;
        let entries: Vec<(T, ())> = Vec::from(taken.map);
        proof {
            crate::lemma_from_vec(entries, m);
        }
        let ghost mut n: int = 0;
        for e in it: entries
            invariant
                forall|x: &T| #[trigger] f.requires((x,)),
                m.wf(),
                it.seq() == m.entries(),
                n == it.index(),
                self.wf(),
                self@.subset_of(keys_of(m.entries().take(n)).to_set()),
                forall|i: int|
                    0 <= i < n ==> if self@.contains(#[trigger] m.entries()[i].0) {
                        f.ensures((&m.entries()[i].0,), true)
                    } else {
                        f.ensures((&m.entries()[i].0,), false)
                    },
            ensures
                n == m.entries().len(),
                self.wf(),
                self@.subset_of(keys_of(m.entries().take(n)).to_set()),
                forall|i: int|
                    0 <= i < n ==> if self@.contains(#[trigger] m.entries()[i].0) {
                        f.ensures((&m.entries()[i].0,), true)
                    } else {
                        f.ensures((&m.entries()[i].0,), false)
                    },
        {
            let ghost idx = n;
            let ghost done = m.entries().take(idx);
            proof {
                assert(m.entries().take(idx + 1) =~= done.push(e));
                assert(keys_of(done.push(e)) =~= keys_of(done).push(e.0));
                keys_of(done).lemma_push_to_set_commute(e.0);
                // The key of `e` differs from every key already seen.
                if self@.contains(e.0) {
                    let j = choose|j: int| 0 <= j < keys_of(done).len() && keys_of(done)[j] == e.0;
                    assert(m.entries()[j].0 == m.entries()[idx].0);
                }
            }
            let ghost before = self@;
            proof {
                lemma_unit_map(self.map);
            }
            let (x, u) = e;
            if f(&x) {
                self.map.push_insert(x, u);
                proof {
                    lemma_unit_map(self.map);
                    assert(self.map@.dom() =~= before.insert(x));
                }
            }
            proof {
                assert forall|i: int| 0 <= i < idx + 1 implies if self@.contains(
                    #[trigger] m.entries()[i].0,
                ) {
                    f.ensures((&m.entries()[i].0,), true)
                } else {
                    f.ensures((&m.entries()[i].0,), false)
                } by {
                    if i < idx {
                        assert(m.entries()[i].0 != x);
                        assert(self@.contains(m.entries()[i].0) == before.contains(m.entries()[i].0));
                    }
                }
                n = idx + 1;
            }
        }
        proof {
            assert(m.entries().take(n) =~= m.entries());
            assert forall|x: T| #[trigger] start.contains(x) implies if self@.contains(x) {
                f.ensures((&x,), true)
            } else {
                f.ensures((&x,), false)
            } by {
                let ks = keys_of(m.entries());
                let i = choose|i: int| 0 <= i < ks.len() && ks[i] == x;
                assert(m.entries()[i].0 == x);
            }
        }
    }
}

impl<T: PartialEq + Clone> VecSet<T> {
    /// A new set of the elements of `self` and of `rhs` (`|`).
    pub fn bitor(&self, rhs: &VecSet<T>) -> (r: VecSet<T>)
        requires
            obeys_concrete_eq::<T>(),
            clone_is_exact::<T>(),
        ensures
            r.wf(),
            r@ == self@.union(rhs@),
    {
        let mut out = VecSet::new();
        let mut it = self.union(rhs);
        let ghost whole = it@;
        let ghost mut seen = Seq::<T>::empty();
        loop
            invariant
                obeys_concrete_eq::<T>(),
                clone_is_exact::<T>(),
                out.wf(),
                whole == seen + it@,
                out@ == seen.to_set(),
            ensures
                out.wf(),
                out@ == whole.to_set(),
            decreases it@.len(),
        {
            match it.next() {
                Some(x) => {
                    let c = x.clone();
                    proof {
                        assert(strictly_cloned(*x, c));
                        assert(whole =~= seen.push(*x) + it@);
                        seen.lemma_push_to_set_commute(*x);
                        seen = seen.push(*x);
                    }
                    out.insert(c);
                },
                None => {
                    proof {
                        assert(whole =~= seen);
                    }
                    break;
                },
            }
        }
        proof {
            lemma_concat_to_set(self.elements(), seq_difference(rhs.elements(), self@));
            lemma_difference_set(rhs.elements(), self@);
            assert(whole.to_set() =~= self@.union(rhs@));
        }
        out
    }

    /// A new set of the elements of `self` that are also in `rhs` (`&`).
    pub fn bitand(&self, rhs: &VecSet<T>) -> (r: VecSet<T>)
        requires
            obeys_concrete_eq::<T>(),
            clone_is_exact::<T>(),
        ensures
            r.wf(),
            r@ == self@.intersect(rhs@),
    {
        let mut out = VecSet::new();
        let mut it = self.intersection(rhs);
        let ghost whole = it@;
        let ghost mut seen = Seq::<T>::empty();
        loop
            invariant
                obeys_concrete_eq::<T>(),
                clone_is_exact::<T>(),
                out.wf(),
                whole == seen + it@,
                out@ == seen.to_set(),
            ensures
                out.wf(),
                out@ == whole.to_set(),
            decreases it@.len(),
        {
            match it.next() {
                Some(x) => {
                    let c = x.clone();
                    proof {
                        assert(strictly_cloned(*x, c));
                        assert(whole =~= seen.push(*x) + it@);
                        seen.lemma_push_to_set_commute(*x);
                        seen = seen.push(*x);
                    }
                    out.insert(c);
                },
                None => {
                    proof {
                        assert(whole =~= seen);
                    }
                    break;
                },
            }
        }
        proof {
            lemma_intersection_set(self.elements(), rhs@);
        }
        out
    }

    /// A new set of the elements that are in exactly one of `self` and `rhs` (`^`).
    pub fn bitxor(&self, rhs: &VecSet<T>) -> (r: VecSet<T>)
        requires
            obeys_concrete_eq::<T>(),
            clone_is_exact::<T>(),
        ensures
            r.wf(),
            r@ == self@.difference(rhs@).union(rhs@.difference(self@)),
    {
        let mut out = VecSet::new();
        let mut it = self.symmetric_difference(rhs);
        let ghost whole = it@;
        let ghost mut seen = Seq::<T>::empty();
        loop
            invariant
                obeys_concrete_eq::<T>(),
                clone_is_exact::<T>(),
                out.wf(),
                whole == seen + it@,
                out@ == seen.to_set(),
            ensures
                out.wf(),
                out@ == whole.to_set(),
            decreases it@.len(),
        {
            match it.next() {
                Some(x) => {
                    let c = x.clone();
                    proof {
                        assert(strictly_cloned(*x, c));
                        assert(whole =~= seen.push(*x) + it@);
                        seen.lemma_push_to_set_commute(*x);
                        seen = seen.push(*x);
                    }
                    out.insert(c);
                },
                None => {
                    proof {
                        assert(whole =~= seen);
                    }
                    break;
                },
            }
        }
        proof {
            lemma_concat_to_set(
                seq_difference(self.elements(), rhs@),
                seq_difference(rhs.elements(), self@),
            );
            lemma_difference_set(self.elements(), rhs@);
            lemma_difference_set(rhs.elements(), self@);
        }
        out
    }

    /// A new set of the elements of `self` that are not in `rhs` (`-`).
    pub fn sub(&self, rhs: &VecSet<T>) -> (r: VecSet<T>)
        requires
            obeys_concrete_eq::<T>(),
            clone_is_exact::<T>(),
        ensures
            r.wf(),
            r@ == self@.difference(rhs@),
    {
        let mut out = VecSet::new();
        let mut it = self.difference(rhs);
        let ghost whole = it@;
        let ghost mut seen = Seq::<T>::empty();
        loop
            invariant
                obeys_concrete_eq::<T>(),
                clone_is_exact::<T>(),
                out.wf(),
                whole == seen + it@,
                out@ == seen.to_set(),
            ensures
                out.wf(),
                out@ == whole.to_set(),
            decreases it@.len(),
        {
            match it.next() {
                Some(x) => {
                    let c = x.clone();
                    proof {
                        assert(strictly_cloned(*x, c));
                        assert(whole =~= seen.push(*x) + it@);
                        seen.lemma_push_to_set_commute(*x);
                        seen = seen.push(*x);
                    }
                    out.insert(c);
                },
                None => {
                    proof {
                        assert(whole =~= seen);
                    }
                    break;
                },
            }
        }
        proof {
            lemma_difference_set(self.elements(), rhs@);
        }
        out
    }
}

impl<T: PartialEq> VecSet<T> {
    /// What `==` decides: the lengths agree and a lookup in `other` finds
    /// each element of `self`.
    pub closed spec fn eq_decision(&self, other: &Self) -> bool {
        &&& self.elements().len() == other.elements().len()
        &&& forall|i: int|
            0 <= i < self.elements().len() ==> any_match(
                other.map.entries(),
                &#[trigger] self.elements()[i],
            )
    }
}

/// For well-formed sets, `==` decides whether they hold the same elements.
pub proof fn lemma_eq_decision<T: PartialEq>(a: &VecSet<T>, b: &VecSet<T>)
    requires
        a.wf(),
        b.wf(),
        obeys_concrete_eq::<T>(),
    ensures
        a.eq_decision(b) <==> a@ == b@,
{
    a.lemma_elements();
    b.lemma_elements();
    lemma_unit_map(b.map);
    let sb = b.map.entries();
    if a@ == b@ {
        assert forall|i: int| 0 <= i < a.elements().len() implies any_match(
            sb,
            &#[trigger] a.elements()[i],
        ) by {
            let x = a.elements()[i];
            assert(a@.contains(x));
            lemma_key_probe(sb, x);
            let j = choose|j: int| 0 <= j < b.elements().len() && b.elements()[j] == x;
            assert(sb[j].0 == x);
        }
    }
    if a.eq_decision(b) {
        assert forall|x: T| a@.contains(x) implies b@.contains(x) by {
            let i = choose|i: int| 0 <= i < a.elements().len() && a.elements()[i] == x;
            assert(any_match(sb, &a.elements()[i]));
            lemma_key_probe(sb, x);
            let j = choose|j: int| 0 <= j < sb.len() && #[trigger] sb[j].0 == x;
            assert(b.elements()[j] == x);
        }
        vstd::set_lib::lemma_subset_equality(a@, b@);
    }
}

/// Two sets are equal when they have the same length and every element of
/// the left one is found in the right one.
impl<T: PartialEq> PartialEq for VecSet<T> {
    fn eq(&self, other: &VecSet<T>) -> (r: bool) {
        if self.map.len() != other.map.len() {
            return false;
        }
        let ghost obeys = obeys_concrete_eq::<T>();
        proof {
            if obeys {
                lemma_key_probe(other.map.entries(), arbitrary::<T>());
            }
        }
        let mut it = self.iter();
        loop
            invariant
                obeys == obeys_concrete_eq::<T>(),
                obeys ==> <T as PartialEqSpec<T>>::obeys_eq_spec(),
                self.elements() == it.done() + it@,
                self.elements().len() == other.elements().len(),
                obeys ==> forall|i: int|
                    0 <= i < it.done().len() ==> any_match(
                        other.map.entries(),
                        &#[trigger] self.elements()[i],
                    ),
            decreases it@.len(),
        {
            let ghost d = it.done();
            match it.next() {
                Some(x) => {
                    if other.map.position(x).is_none() {
                        proof {
                            assert(self.elements()[d.len() as int] == *x);
                        }
                        return false;
                    }
                    proof {
                        assert(self.elements()[d.len() as int] == *x);
                    }
                },
                None => {
                    return true;
                },
            }
        }
    }
}

impl<T: PartialEq> vstd::std_specs::cmp::PartialEqSpecImpl for VecSet<T> {
    open spec fn obeys_eq_spec() -> bool {
        obeys_concrete_eq::<T>()
    }

    open spec fn eq_spec(&self, other: &Self) -> bool {
        self.eq_decision(other)
    }
}

impl<T: PartialEq> Default for VecSet<T> {
    fn default() -> (r: VecSet<T>)
        ensures
            r.wf(),
            r@ == Set::<T>::empty(),
    {
        VecSet::new()
    }
}

/// `s` read from its last element to its first.
pub open spec fn back_to_front<T>(s: Seq<T>) -> Seq<T> {
    Seq::new(s.len(), |i: int| s[s.len() - 1 - i])
}

/// The elements of a set, handed out by value.
pub struct IntoIter<T> {
    rest: Vec<T>,
}

impl<T> View for IntoIter<T> {
    type V = Seq<T>;

    /// The elements still to come.
    closed spec fn view(&self) -> Seq<T> {
        back_to_front(self.rest@)
    }
}

impl<T> IntoIter<T> {
    /// The next element, if any is left.
    pub fn next(&mut self) -> (r: Option<T>)
        ensures
            match r {
                Some(x) => old(self)@.len() > 0 && x == old(self)@[0] && final(self)@ == old(
                    self,
                )@.drop_first(),
                None => old(self)@.len() == 0 && final(self)@ == old(self)@,
            },
    {
        let r = self.rest.pop();
        proof {
            if r is Some {
                assert(self@ =~= old(self)@.drop_first());
            }
        }
        r
    }
}

/// The elements taken out of a set by `drain`.
pub struct Drain<T> {
    rest: Vec<T>,
}

impl<T> View for Drain<T> {
    type V = Seq<T>;

    /// The elements still to come.
    closed spec fn view(&self) -> Seq<T> {
        back_to_front(self.rest@)
    }
}

impl<T> Drain<T> {
    /// The next element, if any is left.
    pub fn next(&mut self) -> (r: Option<T>)
        ensures
            match r {
                Some(x) => old(self)@.len() > 0 && x == old(self)@[0] && final(self)@ == old(
                    self,
                )@.drop_first(),
                None => old(self)@.len() == 0 && final(self)@ == old(self)@,
            },
    {
        let r = self.rest.pop();
        proof {
            if r is Some {
                assert(self@ =~= old(self)@.drop_first());
            }
        }
        r
    }
}

/// The elements of a set, front to back.
pub struct Iter<'a, T> {
    keys: Keys<'a, T, ()>,
}

impl<'a, T> View for Iter<'a, T> {
    type V = Seq<T>;

    /// The elements still to come.
    closed spec fn view(&self) -> Seq<T> {
        self.keys@
    }
}

impl<'a, T> Clone for Iter<'a, T> {
    /// A cursor at the same place, which moves on its own.
    fn clone(&self) -> (r: Self)
        ensures
            r@ == self@,
            r.done() == self.done(),
    {
        Iter { keys: self.keys.clone() }
    }
}

impl<'a, T> Iter<'a, T> {
    /// The elements already handed out.
    pub closed spec fn done(&self) -> Seq<T> {
        self.keys.done()
    }

    /// The next element, if any is left.
    pub fn next(&mut self) -> (r: Option<&'a T>)
        ensures
            match r {
                Some(x) => old(self)@.len() > 0 && *x == old(self)@[0] && final(self)@ == old(
                    self,
                )@.drop_first() && final(self).done() == old(self).done().push(*x),
                None => old(self)@.len() == 0 && final(self)@ == old(self)@ && final(self).done()
                    == old(self).done(),
            },
    {
        self.keys.next()
    }
}

/// The elements of one set that are not in another.
pub struct Difference<'a, T: PartialEq> {
    iter: Iter<'a, T>,
    other: &'a VecSet<T>,
}

impl<'a, T: PartialEq> View for Difference<'a, T> {
    type V = Seq<T>;

    /// The elements still to come.
    closed spec fn view(&self) -> Seq<T> {
        seq_difference(self.iter@, self.other@)
    }
}

impl<'a, T: PartialEq> Clone for Difference<'a, T> {
    /// A cursor at the same place, which moves on its own.
    fn clone(&self) -> (r: Self)
        ensures
            r@ == self@,
    {
        Difference { iter: self.iter.clone(), other: self.other }
    }
}

impl<'a, T: PartialEq> Difference<'a, T> {
    /// The next element, if any is left.
    pub fn next(&mut self) -> (r: Option<&'a T>)
        requires
            obeys_concrete_eq::<T>(),
        ensures
            match r {
                Some(x) => old(self)@.len() > 0 && *x == old(self)@[0] && final(self)@ == old(
                    self,
                )@.drop_first(),
                None => old(self)@.len() == 0 && final(self)@ == old(self)@,
            },
    {
        loop
            invariant
                obeys_concrete_eq::<T>(),
                self.other == old(self).other,
                self@ == old(self)@,
            decreases self.iter@.len(),
        {
            let ghost before = self.iter@;
            match self.iter.next() {
                None => {
                    return None;
                },
                Some(x) => {
                    proof {
                        lemma_probe_hits(self.other@, *x);
                        lemma_filter_first(before, |y: T| !self.other@.contains(y));
                    }
                    if !self.other.contains(x) {
                        return Some(x);
                    }
                },
            }
        }
    }
}

/// The elements of one set that are also in another.
pub struct Intersection<'a, T: PartialEq> {
    iter: Iter<'a, T>,
    other: &'a VecSet<T>,
}

impl<'a, T: PartialEq> View for Intersection<'a, T> {
    type V = Seq<T>;

    /// The elements still to come.
    closed spec fn view(&self) -> Seq<T> {
        seq_intersection(self.iter@, self.other@)
    }
}

impl<'a, T: PartialEq> Clone for Intersection<'a, T> {
    /// A cursor at the same place, which moves on its own.
    fn clone(&self) -> (r: Self)
        ensures
            r@ == self@,
    {
        Intersection { iter: self.iter.clone(), other: self.other }
    }
}

impl<'a, T: PartialEq> Intersection<'a, T> {
    /// The next element, if any is left.
    pub fn next(&mut self) -> (r: Option<&'a T>)
        requires
            obeys_concrete_eq::<T>(),
        ensures
            match r {
                Some(x) => old(self)@.len() > 0 && *x == old(self)@[0] && final(self)@ == old(
                    self,
                )@.drop_first(),
                None => old(self)@.len() == 0 && final(self)@ == old(self)@,
            },
    {
        loop
            invariant
                obeys_concrete_eq::<T>(),
                self.other == old(self).other,
                self@ == old(self)@,
            decreases self.iter@.len(),
        {
            let ghost before = self.iter@;
            match self.iter.next() {
                None => {
                    return None;
                },
                Some(x) => {
                    proof {
                        lemma_probe_hits(self.other@, *x);
                        lemma_filter_first(before, |y: T| self.other@.contains(y));
                    }
                    if self.other.contains(x) {
                        return Some(x);
                    }
                },
            }
        }
    }
}

/// The elements that are in exactly one of two sets.
pub struct SymmetricDifference<'a, T: PartialEq> {
    first: Difference<'a, T>,
    second: Difference<'a, T>,
}

impl<'a, T: PartialEq> View for SymmetricDifference<'a, T> {
    type V = Seq<T>;

    /// The elements still to come.
    closed spec fn view(&self) -> Seq<T> {
        self.first@ + self.second@
    }
}

impl<'a, T: PartialEq> Clone for SymmetricDifference<'a, T> {
    /// A cursor at the same place, which moves on its own.
    fn clone(&self) -> (r: Self)
        ensures
            r@ == self@,
    {
        SymmetricDifference { first: self.first.clone(), second: self.second.clone() }
    }
}

impl<'a, T: PartialEq> SymmetricDifference<'a, T> {
    /// The next element, if any is left.
    pub fn next(&mut self) -> (r: Option<&'a T>)
        requires
            obeys_concrete_eq::<T>(),
        ensures
            match r {
                Some(x) => old(self)@.len() > 0 && *x == old(self)@[0] && final(self)@ == old(
                    self,
                )@.drop_first(),
                None => old(self)@.len() == 0 && final(self)@ == old(self)@,
            },
    {
        match self.first.next() {
            Some(x) => {
                assert(self.first@ + self.second@ =~= (old(self).first@ + old(self).second@).drop_first());
                Some(x)
            },
            None => self.second.next(),
        }
    }
}

/// The elements that are in either of two sets.
pub struct Union<'a, T: PartialEq> {
    first: Iter<'a, T>,
    second: Difference<'a, T>,
}

impl<'a, T: PartialEq> View for Union<'a, T> {
    type V = Seq<T>;

    /// The elements still to come.
    closed spec fn view(&self) -> Seq<T> {
        self.first@ + self.second@
    }
}

impl<'a, T: PartialEq> Clone for Union<'a, T> {
    /// A cursor at the same place, which moves on its own.
    fn clone(&self) -> (r: Self)
        ensures
            r@ == self@,
    {
        Union { first: self.first.clone(), second: self.second.clone() }
    }
}

impl<'a, T: PartialEq> Union<'a, T> {
    /// The next element, if any is left.
    pub fn next(&mut self) -> (r: Option<&'a T>)
        requires
            obeys_concrete_eq::<T>(),
        ensures
            match r {
                Some(x) => old(self)@.len() > 0 && *x == old(self)@[0] && final(self)@ == old(
                    self,
                )@.drop_first(),
                None => old(self)@.len() == 0 && final(self)@ == old(self)@,
            },
    {
        match self.first.next() {
            Some(x) => {
                assert(self.first@ + self.second@ =~= (old(self).first@ + old(self).second@).drop_first());
                Some(x)
            },
            None => self.second.next(),
        }
    }
}

} // verus!
