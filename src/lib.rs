//! A map backed by a `Vec` of key-value pairs, and a set built on it.
//!
//! Lookups scan the backing vector linearly. For small key counts this beats
//! hashing: contiguous memory is cache friendly and the branches predictable.
//! No ordering of the entries is guaranteed, and removal may reorder them.
use vstd::laws_eq::obeys_concrete_eq;
use vstd::prelude::*;
use vstd::std_specs::cmp::PartialEqSpec;
use vstd::std_specs::convert::FromSpec;

pub mod laws;
pub mod serde;
pub mod set;

verus! {

/// The entries of `s` have pairwise distinct keys.
pub open spec fn unique_keys<K, V>(s: Seq<(K, V)>) -> bool {
    forall|i: int, j: int|
        0 <= i < s.len() && 0 <= j < s.len() && i != j ==> #[trigger] s[i].0 != #[trigger] s[j].0
}

/// Some entry of `s` has the key `k`.
pub open spec fn has_key<K, V>(s: Seq<(K, V)>, k: K) -> bool {
    exists|i: int| 0 <= i < s.len() && #[trigger] s[i].0 == k
}

/// The value of an entry of `s` with key `k`.
pub open spec fn value_of<K, V>(s: Seq<(K, V)>, k: K) -> V {
    s[choose|i: int| 0 <= i < s.len() && #[trigger] s[i].0 == k].1
}

/// The map that a sequence of entries with unique keys stands for.
pub open spec fn entries_map<K, V>(s: Seq<(K, V)>) -> Map<K, V> {
    Map::new(|k: K| has_key(s, k), |k: K| value_of(s, k))
}

/// `probe` compares equal to the key `k`.
pub open spec fn probe_matches<K, Q: PartialEq<K>>(probe: &Q, k: K) -> bool {
    probe.eq_spec(&k)
}

/// Index `i` holds the first entry of `s` whose key `probe` compares equal to.
pub open spec fn is_first_match<K, V, Q: PartialEq<K>>(s: Seq<(K, V)>, probe: &Q, i: int) -> bool {
    &&& 0 <= i < s.len()
    &&& probe_matches(probe, s[i].0)
    &&& forall|j: int| 0 <= j < i ==> !probe_matches(probe, #[trigger] s[j].0)
}

/// Some entry of `s` has a key that `probe` compares equal to.
pub open spec fn any_match<K, V, Q: PartialEq<K>>(s: Seq<(K, V)>, probe: &Q) -> bool {
    exists|i: int| 0 <= i < s.len() && probe_matches(probe, #[trigger] s[i].0)
}

/// The first match of `probe` in `s`, where there is one.
pub open spec fn first_match<K, V, Q: PartialEq<K>>(s: Seq<(K, V)>, probe: &Q) -> int {
    choose|i: int| is_first_match(s, probe, i)
}

/// The entries left after the one at `i` is overwritten by the last one and
/// the last one is dropped.
pub open spec fn swap_removed<K, V>(s: Seq<(K, V)>, i: int) -> Seq<(K, V)> {
    s.update(i, s.last()).drop_last()
}

proof fn lemma_first_match_unique<K, V, Q: PartialEq<K>>(s: Seq<(K, V)>, probe: &Q, i: int)
    requires
        is_first_match(s, probe, i),
    ensures
        first_match(s, probe) == i,
{
    let j = first_match(s, probe);
    assert(is_first_match(s, probe, j));
    if j < i {
        assert(!probe_matches(probe, s[j].0));
    } else if i < j {
        assert(!probe_matches(probe, s[i].0));
    }
}

proof fn lemma_first_match_below<K, V, Q: PartialEq<K>>(s: Seq<(K, V)>, probe: &Q, n: int)
    requires
        0 <= n <= s.len(),
        exists|j: int| 0 <= j < n && probe_matches(probe, #[trigger] s[j].0),
    ensures
        is_first_match(s, probe, first_match(s, probe)),
    decreases n,
{
    if exists|j: int| 0 <= j < n - 1 && probe_matches(probe, #[trigger] s[j].0) {
        lemma_first_match_below(s, probe, n - 1);
    } else {
        assert(is_first_match(s, probe, n - 1));
    }
}

/// Where some key matches `probe`, `first_match` is the first such entry.
pub proof fn lemma_first_match<K, V, Q: PartialEq<K>>(s: Seq<(K, V)>, probe: &Q)
    requires
        any_match(s, probe),
    ensures
        is_first_match(s, probe, first_match(s, probe)),
{
    lemma_first_match_below(s, probe, s.len() as int);
}

/// With a key type whose `==` is equality, looking a key up finds the entry
/// that holds it.
pub proof fn lemma_key_probe<K: PartialEq, V>(s: Seq<(K, V)>, k: K)
    requires
        obeys_concrete_eq::<K>(),
    ensures
        <K as PartialEqSpec<K>>::obeys_eq_spec(),
        forall|x: K| probe_matches(&k, x) <==> x == k,
        any_match(s, &k) <==> has_key(s, k),
        any_match(s, &k) ==> is_first_match(s, &k, first_match(s, &k)),
        any_match(s, &k) ==> s[first_match(s, &k)].0 == k,
{
    reveal(obeys_concrete_eq);
    assert forall|x: K| probe_matches(&k, x) <==> x == k by {}
    if any_match(s, &k) {
        lemma_first_match(s, &k);
    }
    if has_key(s, k) {
        let i = choose|i: int| 0 <= i < s.len() && #[trigger] s[i].0 == k;
        assert(probe_matches(&k, s[i].0));
    }
}

/// In entries with unique keys, the entry at `i` is what the map holds for its key.
pub proof fn lemma_entries_map_index<K, V>(s: Seq<(K, V)>, i: int)
    requires
        unique_keys(s),
        0 <= i < s.len(),
    ensures
        entries_map(s).contains_key(s[i].0),
        entries_map(s)[s[i].0] == s[i].1,
{
    let k = s[i].0;
    assert(has_key(s, k));
    let j = choose|j: int| 0 <= j < s.len() && #[trigger] s[j].0 == k;
    assert(j == i);
}

/// Giving the entry at `i` a new value gives its key that value in the map.
pub proof fn lemma_update_value<K, V>(s: Seq<(K, V)>, i: int, v: V)
    requires
        unique_keys(s),
        0 <= i < s.len(),
    ensures
        unique_keys(s.update(i, (s[i].0, v))),
        entries_map(s.update(i, (s[i].0, v))) == entries_map(s).insert(s[i].0, v),
{
    let t = s.update(i, (s[i].0, v));
    let k = s[i].0;
    assert forall|a: int, b: int| 0 <= a < t.len() && 0 <= b < t.len() && a != b implies #[trigger] t[a].0 != #[trigger] t[b].0 by {
        assert(t[a].0 == s[a].0 && t[b].0 == s[b].0);
    }
    assert forall|x: K| has_key(t, x) <==> has_key(s, x) || x == k by {
        if has_key(s, x) {
            let j = choose|j: int| 0 <= j < s.len() && #[trigger] s[j].0 == x;
            assert(t[j].0 == x);
        }
        if has_key(t, x) {
            let j = choose|j: int| 0 <= j < t.len() && #[trigger] t[j].0 == x;
            assert(s[j].0 == x);
        }
        if x == k {
            assert(t[i].0 == x);
        }
    }
    assert forall|x: K| #[trigger] has_key(t, x) implies entries_map(t)[x] == entries_map(s).insert(k, v)[x] by {
        let j = choose|j: int| 0 <= j < t.len() && #[trigger] t[j].0 == x;
        lemma_entries_map_index(t, j);
        lemma_entries_map_index(s, j);
    }
    assert(entries_map(t) =~= entries_map(s).insert(k, v));
}

/// Appending an entry with a fresh key adds that key to the map.
pub proof fn lemma_push_fresh<K, V>(s: Seq<(K, V)>, k: K, v: V)
    requires
        unique_keys(s),
        !has_key(s, k),
    ensures
        unique_keys(s.push((k, v))),
        entries_map(s.push((k, v))) == entries_map(s).insert(k, v),
{
    let t = s.push((k, v));
    let n = s.len() as int;
    assert forall|a: int, b: int| 0 <= a < t.len() && 0 <= b < t.len() && a != b implies #[trigger] t[a].0 != #[trigger] t[b].0 by {
        if a < n && b < n {
            assert(t[a].0 == s[a].0 && t[b].0 == s[b].0);
        } else if a < n {
            assert(t[a].0 == s[a].0);
        } else {
            assert(t[b].0 == s[b].0);
        }
    }
    assert forall|x: K| has_key(t, x) <==> has_key(s, x) || x == k by {
        if has_key(s, x) {
            let j = choose|j: int| 0 <= j < s.len() && #[trigger] s[j].0 == x;
            assert(t[j].0 == x);
        }
        if has_key(t, x) {
            let j = choose|j: int| 0 <= j < t.len() && #[trigger] t[j].0 == x;
            if j < n {
                assert(s[j].0 == x);
            }
        }
        if x == k {
            assert(t[n].0 == x);
        }
    }
    assert forall|x: K| #[trigger] has_key(t, x) implies entries_map(t)[x] == entries_map(s).insert(k, v)[x] by {
        let j = choose|j: int| 0 <= j < t.len() && #[trigger] t[j].0 == x;
        lemma_entries_map_index(t, j);
        if j < n {
            lemma_entries_map_index(s, j);
        }
    }
    assert(entries_map(t) =~= entries_map(s).insert(k, v));
}

/// Removing the entry at `i` by swapping in the last one drops its key from the map.
pub proof fn lemma_swap_remove<K, V>(s: Seq<(K, V)>, i: int)
    requires
        unique_keys(s),
        0 <= i < s.len(),
    ensures
        unique_keys(swap_removed(s, i)),
        entries_map(swap_removed(s, i)) == entries_map(s).remove(s[i].0),
{
    let t = swap_removed(s, i);
    let k = s[i].0;
    let n = s.len() - 1;
    // Each position of `t` comes from a distinct position of `s`.
    assert forall|a: int| 0 <= a < t.len() implies #[trigger] t[a] == s[if a == i { n } else { a }] by {}
    assert forall|a: int, b: int| 0 <= a < t.len() && 0 <= b < t.len() && a != b implies #[trigger] t[a].0 != #[trigger] t[b].0 by {
        let sa = if a == i { n } else { a };
        let sb = if b == i { n } else { b };
        assert(t[a] == s[sa] && t[b] == s[sb]);
    }
    assert forall|x: K| has_key(t, x) <==> has_key(s, x) && x != k by {
        if has_key(s, x) && x != k {
            let j = choose|j: int| 0 <= j < s.len() && #[trigger] s[j].0 == x;
            if j == n {
                assert(t[i] == s[n]);
            } else {
                assert(t[j] == s[j]);
            }
        }
        if has_key(t, x) {
            let j = choose|j: int| 0 <= j < t.len() && #[trigger] t[j].0 == x;
            let sj = if j == i { n } else { j };
            assert(t[j] == s[sj]);
            assert(s[sj].0 == x);
        }
    }
    assert forall|x: K| #[trigger] has_key(t, x) implies entries_map(t)[x] == entries_map(s)[x] by {
        let j = choose|j: int| 0 <= j < t.len() && #[trigger] t[j].0 == x;
        let sj = if j == i { n } else { j };
        assert(t[j] == s[sj]);
        lemma_entries_map_index(t, j);
        lemma_entries_map_index(s, sj);
    }
    assert(entries_map(t) =~= entries_map(s).remove(k));
}

/// The keys of `s`, in order.
pub open spec fn keys_of<K, V>(s: Seq<(K, V)>) -> Seq<K> {
    s.map_values(|e: (K, V)| e.0)
}

/// Entries with unique keys stand for a finite map with as many keys as entries.
pub proof fn lemma_entries_map_len<K, V>(s: Seq<(K, V)>)
    requires
        unique_keys(s),
    ensures
        entries_map(s).dom() == keys_of(s).to_set(),
        entries_map(s).dom().finite(),
        entries_map(s).dom().len() == s.len(),
{
    broadcast use vstd::seq_lib::seq_to_set_is_finite;

    let ks = keys_of(s);
    assert forall|a: int, b: int| 0 <= a < ks.len() && 0 <= b < ks.len() && a != b implies ks[a]
        != ks[b] by {
        assert(ks[a] == s[a].0 && ks[b] == s[b].0);
    }
    assert(ks.no_duplicates());
    ks.unique_seq_to_set();
    assert forall|x: K| entries_map(s).dom().contains(x) <==> ks.to_set().contains(x) by {
        if has_key(s, x) {
            let j = choose|j: int| 0 <= j < s.len() && #[trigger] s[j].0 == x;
            assert(ks[j] == x);
        }
        if ks.contains(x) {
            let j = choose|j: int| 0 <= j < ks.len() && ks[j] == x;
            assert(s[j].0 == x);
        }
    }
    assert(entries_map(s).dom() =~= ks.to_set());
}

/// A lookup of the key of `e` in `s` finds the value of `e`.
pub open spec fn found_in<K: PartialEq, V>(s: Seq<(K, V)>, e: (K, V)) -> bool {
    any_match(s, &e.0) && s[first_match(s, &e.0)].1 == e.1
}

/// The map that inserting the pairs of `s` into `m`, front to back, gives.
pub open spec fn insert_all<K, V>(m: Map<K, V>, s: Seq<(K, V)>) -> Map<K, V>
    decreases s.len(),
{
    if s.len() == 0 {
        m
    } else {
        insert_all(m, s.drop_last()).insert(s.last().0, s.last().1)
    }
}

/// Inserting entries with unique keys into an empty map, one after the
/// other, gives the map that they stand for.
pub proof fn lemma_insert_all_unique<K, V>(s: Seq<(K, V)>)
    requires
        unique_keys(s),
    ensures
        insert_all(Map::empty(), s) == entries_map(s),
    decreases s.len(),
{
    if s.len() == 0 {
        assert(entries_map(s) =~= Map::<K, V>::empty());
    } else {
        let p = s.drop_last();
        assert(unique_keys(p)) by {
            assert forall|a: int, b: int| 0 <= a < p.len() && 0 <= b < p.len() && a != b implies #[trigger] p[a].0 != #[trigger] p[b].0 by {
                assert(p[a] == s[a] && p[b] == s[b]);
            }
        }
        lemma_insert_all_unique(p);
        assert(!has_key(p, s.last().0)) by {
            if has_key(p, s.last().0) {
                let j = choose|j: int| 0 <= j < p.len() && #[trigger] p[j].0 == s.last().0;
                assert(s[j].0 == s[s.len() - 1].0);
            }
        }
        lemma_push_fresh(p, s.last().0, s.last().1);
        assert(p.push(s.last()) =~= s);
    }
}

/// A map stored as a vector of `(key, value)` pairs.
///
/// Every operation scans the vector, so most of them take O(n). While the map is
/// well formed (see `wf`), no two entries share a key. The backing vector is
/// reachable through `inner_mut` and `push_insert`; whoever uses them must
/// restore that before relying on lookups again.
///
/// Two maps are equal when they hold the same set of pairs, whatever the order.
#[derive(Clone, Debug)]
pub struct VecMap<K: PartialEq, V> {
    inner: Vec<(K, V)>,
}

impl<K: PartialEq, V> View for VecMap<K, V> {
    type V = Map<K, V>;

    open spec fn view(&self) -> Map<K, V> {
        entries_map(self.entries())
    }
}

impl<K: PartialEq, V> VecMap<K, V> {
    /// The backing sequence of entries, in storage order.
    pub closed spec fn entries(&self) -> Seq<(K, V)> {
        self.inner@
    }

    /// The map is well formed: no two entries share a key.
    pub open spec fn wf(&self) -> bool {
        unique_keys(self.entries())
    }

    /// The number of entries.
    pub open spec fn spec_len(&self) -> nat {
        self.entries().len()
    }

    /// With a key type whose `==` is equality, a lookup of the key `k` in a
    /// well-formed map finds an entry exactly when the map holds `k`, and
    /// that entry holds `k` and its value.
    pub proof fn lemma_lookup(&self, k: K)
        requires
            self.wf(),
            obeys_concrete_eq::<K>(),
        ensures
            any_match(self.entries(), &k) == self@.contains_key(k),
            self@.contains_key(k) ==> self.entries()[first_match(self.entries(), &k)] == (
                k,
                self@[k],
            ),
    {
        lemma_key_probe(self.entries(), k);
        if any_match(self.entries(), &k) {
            lemma_entries_map_index(self.entries(), first_match(self.entries(), &k));
        }
    }

    /// An empty map.
    pub fn new() -> (r: Self)
        ensures
            r.entries() == Seq::<(K, V)>::empty(),
            r.wf(),
            r@ == Map::<K, V>::empty(),
    {
        let r = VecMap { inner: Vec::new() };
        assert(r@ =~= Map::<K, V>::empty());
        r
    }

    /// An empty map with room for at least `capacity` entries.
    pub fn with_capacity(capacity: usize) -> (r: Self)
        ensures
            r.entries() == Seq::<(K, V)>::empty(),
            r.wf(),
            r@ == Map::<K, V>::empty(),
    {
        let r = VecMap { inner: Vec::with_capacity(capacity) };
        assert(r@ =~= Map::<K, V>::empty());
        r
    }

    /// The backing vector.
    pub fn inner(&self) -> (r: &Vec<(K, V)>)
        ensures
            r@ == self.entries(),
    {
        &self.inner
    }

    /// The number of entries.
    pub fn len(&self) -> (r: usize)
        ensures
            r == self.spec_len(),
            self.wf() ==> r == self@.len(),
    {
        proof {
            if self.wf() {
                lemma_entries_map_len(self.entries());
            }
        }
        self.inner.len()
    }

    /// Position of the first entry whose key `key` compares equal to.
    fn position<Q: PartialEq<K>>(&self, key: &Q) -> (r: Option<usize>)
        ensures
            r matches Some(i) ==> i < self.spec_len(),
            <Q as PartialEqSpec<K>>::obeys_eq_spec() ==> match r {
                Some(i) => is_first_match(self.entries(), key, i as int) && i == first_match(
                    self.entries(),
                    key,
                ),
                None => !any_match(self.entries(), key),
            },
    {
        let mut i: usize = 0;
        while i < self.inner.len()
            invariant
                i <= self.inner@.len(),
                <Q as PartialEqSpec<K>>::obeys_eq_spec() ==> forall|j: int|
                    0 <= j < i ==> !probe_matches(key, #[trigger] self.inner@[j].0),
            decreases self.inner@.len() - i,
        {
            if key.eq(&self.inner[i].0) {
                proof {
                    if <Q as PartialEqSpec<K>>::obeys_eq_spec() {
                        lemma_first_match_unique(self.entries(), key, i as int);
                    }
                }
                return Some(i);
            }
            i += 1;
        }
        None
    }

    /// The key and value of the first entry whose key `key` compares equal to.
    pub fn get_pair<Q: PartialEq<K>>(&self, key: &Q) -> (r: Option<(&K, &V)>)
        requires
            <Q as PartialEqSpec<K>>::obeys_eq_spec(),
        ensures
            match r {
                Some(p) => {
                    &&& any_match(self.entries(), key)
                    &&& (*p.0, *p.1) == self.entries()[first_match(self.entries(), key)]
                },
                None => !any_match(self.entries(), key),
            },
    {
        match self.position(key) {
            Some(i) => {
                let e = &self.inner[i];
                Some((&e.0, &e.1))
            },
            None => None,
        }
    }

    /// The key and a mutable reference to the value of the first entry whose
    /// key `key` compares equal to.
    pub fn get_pair_mut<Q: PartialEq<K>>(&mut self, key: &Q) -> (r: Option<(&K, &mut V)>)
        requires
            <Q as PartialEqSpec<K>>::obeys_eq_spec(),
        ensures
            match r {
                Some(p) => {
                    let i = first_match(old(self).entries(), key);
                    &&& any_match(old(self).entries(), key)
                    &&& *p.0 == old(self).entries()[i].0
                    &&& *p.1 == old(self).entries()[i].1
                    &&& final(self).entries() == old(self).entries().update(
                        i,
                        (old(self).entries()[i].0, *final(p.1)),
                    )
                },
                None => !any_match(old(self).entries(), key) && final(self).entries() == old(
                    self,
                ).entries(),
            },
    {
        match self.position(key) {
            Some(i) => {
                let e = &mut self.inner[i];
                Some((&e.0, &mut e.1))
            },
            None => None,
        }
    }

    /// The value of the first entry whose key `key` compares equal to.
    pub fn get<Q: PartialEq<K>>(&self, key: &Q) -> (r: Option<&V>)
        requires
            <Q as PartialEqSpec<K>>::obeys_eq_spec(),
        ensures
            match r {
                Some(v) => {
                    &&& any_match(self.entries(), key)
                    &&& *v == self.entries()[first_match(self.entries(), key)].1
                },
                None => !any_match(self.entries(), key),
            },
    {
        match self.position(key) {
            Some(i) => Some(&self.inner[i].1),
            None => None,
        }
    }

    /// A mutable reference to the value of the first entry whose key `key`
    /// compares equal to.
    pub fn get_mut<Q: PartialEq<K>>(&mut self, key: &Q) -> (r: Option<&mut V>)
        requires
            <Q as PartialEqSpec<K>>::obeys_eq_spec(),
        ensures
            match r {
                Some(v) => {
                    let i = first_match(old(self).entries(), key);
                    &&& any_match(old(self).entries(), key)
                    &&& *v == old(self).entries()[i].1
                    &&& final(self).entries() == old(self).entries().update(
                        i,
                        (old(self).entries()[i].0, *final(v)),
                    )
                },
                None => !any_match(old(self).entries(), key) && final(self).entries() == old(
                    self,
                ).entries(),
            },
    {
        match self.position(key) {
            Some(i) => Some(&mut self.inner[i].1),
            None => None,
        }
    }

    /// Whether some entry has a key that `key` compares equal to.
    pub fn contains_key<Q: PartialEq<K>>(&self, key: &Q) -> (r: bool)
        requires
            <Q as PartialEqSpec<K>>::obeys_eq_spec(),
        ensures
            r == any_match(self.entries(), key),
    {
        self.position(key).is_some()
    }

    /// Gives `key` the value `value`. Where the key was present, its old value
    /// is returned and the entry keeps its place; otherwise the pair is
    /// appended. Growing the vector may move the entries in memory.
    pub fn insert(&mut self, key: K, value: V) -> (r: Option<V>)
        requires
            old(self).wf(),
            obeys_concrete_eq::<K>(),
        ensures
            final(self).wf(),
            final(self)@ == old(self)@.insert(key, value),
            match r {
                Some(v) => {
                    &&& old(self)@.contains_key(key)
                    &&& v == old(self)@[key]
                    &&& final(self).spec_len() == old(self).spec_len()
                },
                None => {
                    &&& !old(self)@.contains_key(key)
                    &&& final(self).spec_len() == old(self).spec_len() + 1
                },
            },
    {
        let ghost s = self.entries();
        proof {
            lemma_key_probe(s, key);
            reveal(obeys_concrete_eq);
        }
        let mut value = value;
        if let Some(slot) = self.get_mut(&key) {
            proof {
                let i = first_match(s, &key);
                lemma_entries_map_index(s, i);
                lemma_update_value(s, i, value);
            }
            std::mem::swap(&mut value, slot);
            Some(value)
        } else {
            proof {
                lemma_push_fresh(s, key, value);
            }
            self.inner.push((key, value));
            None
        }
    }

    /// Removes the first entry whose key `key` compares equal to, and returns
    /// its value. The last entry takes the place of the removed one.
    pub fn remove<Q: PartialEq<K>>(&mut self, key: &Q) -> (r: Option<V>)
        requires
            <Q as PartialEqSpec<K>>::obeys_eq_spec(),
        ensures
            match r {
                Some(v) => {
                    let i = first_match(old(self).entries(), key);
                    &&& any_match(old(self).entries(), key)
                    &&& v == old(self).entries()[i].1
                    &&& final(self).entries() == swap_removed(old(self).entries(), i)
                    &&& final(self).spec_len() == old(self).spec_len() - 1
                    &&& old(self).wf() ==> final(self).wf() && final(self)@ == old(self)@.remove(
                        old(self).entries()[i].0,
                    )
                },
                None => {
                    &&& !any_match(old(self).entries(), key)
                    &&& final(self).entries() == old(self).entries()
                },
            },
    {
        match self.position(key) {
            Some(i) => {
                proof {
                    if self.wf() {
                        lemma_swap_remove(self.entries(), i as int);
                    }
                }
                Some(self.inner.swap_remove(i).1)
            },
            None => None,
        }
    }

    /// The backing vector, to change at will. Nothing checks that its keys
    /// stay unique: until they are again, `wf` does not hold and lookups may
    /// miss or find a stale entry.
    pub fn inner_mut(&mut self) -> (r: &mut Vec<(K, V)>)
        ensures
            r@ == old(self).entries(),
            final(self).entries() == final(r)@,
    {
        &mut self.inner
    }

    /// Appends the pair without looking for its key. Where the key is already
    /// present, the map is no longer well formed.
    pub fn push_insert(&mut self, key: K, value: V)
        ensures
            final(self).entries() == old(self).entries().push((key, value)),
            old(self).wf() && !old(self)@.contains_key(key) ==> final(self).wf() && final(self)@
                == old(self)@.insert(key, value),
    {
        proof {
            if self.wf() && !self@.contains_key(key) {
                lemma_push_fresh(self.entries(), key, value);
            }
        }
        self.inner.push((key, value))
    }

    /// How many entries fit before the backing vector grows.
    pub fn capacity(&self) -> (r: usize)
        ensures
            r >= self.spec_len(),
    {
        vec_capacity(&self.inner)
    }

    /// Makes room for at least `additional` more entries.
    pub fn reserve(&mut self, additional: usize)
        ensures
            final(self).entries() == old(self).entries(),
    {
        self.inner.reserve(additional)
    }

    /// Gives back as much unused room as the allocator allows.
    pub fn shrink_to_fit(&mut self)
        ensures
            final(self).entries() == old(self).entries(),
    {
        vec_shrink_to_fit(&mut self.inner)
    }

    /// Removes every entry.
    pub fn clear(&mut self)
        ensures
            final(self).entries() == Seq::<(K, V)>::empty(),
            final(self).wf(),
            final(self)@ == Map::<K, V>::empty(),
    {
        self.inner.clear();
        assert(self@ =~= Map::<K, V>::empty());
    }

    /// The keys, in storage order.
    pub fn keys(&self) -> (r: Keys<'_, K, V>)
        ensures
            r@ == keys_of(self.entries()),
            r.done() == Seq::<K>::empty(),
    {
        Keys { entries: &self.inner, pos: 0 }
    }

    /// The entries, in storage order.
    pub fn iter(&self) -> (r: Iter<'_, K, V>)
        ensures
            r@ == self.entries(),
    {
        Iter { entries: &self.inner, pos: 0 }
    }

    /// The entries, in storage order, with the values open to change.
    pub fn iter_mut(&mut self) -> (r: IterMut<'_, K, V>)
        ensures
            r.remaining() == old(self).entries(),
    {
        IterMut { rest: self.inner.as_mut_slice() }
    }

    /// The map that inserting the pairs of `items` one after the other into
    /// an empty map gives: a later pair with the key of an earlier one
    /// overwrites its value.
    pub fn from_iter(items: Vec<(K, V)>) -> (r: Self)
        requires
            obeys_concrete_eq::<K>(),
        ensures
            r.wf(),
            r@ == insert_all(Map::empty(), items@),
    {
        let mut this = Self::new();
        assert(items@.take(items@.len() as int) =~= items@);
        for e in it: items
            invariant
                items@.take(items@.len() as int) == items@,
                obeys_concrete_eq::<K>(),
                this.wf(),
                it.seq() == items@,
                this@ == insert_all(Map::empty(), it.seq().take(it.index() as int)),
            ensures
                this.wf(),
                this@ == insert_all(Map::empty(), items@),
        {
            proof {
                let done = it.seq().take(it.index() as int);
                assert(it.seq().take(it.index() + 1).drop_last() =~= done);
            }
            let (k, v) = e;
            this.insert(k, v);
        }
        this
    }

    /// Whether the map holds no entry.
    pub fn is_empty(&self) -> (r: bool)
        ensures
            r == (self.spec_len() == 0),
    {
        self.inner.len() == 0
    }
}

/// Relies on `Vec::capacity`: the vector holds at least its length.
#[verifier::external_body]
fn vec_capacity<T>(v: &Vec<T>) -> (r: usize)
    ensures
        r >= v@.len(),
{
    v.capacity()
}

/// Relies on `Vec::shrink_to_fit`: only the allocation changes, not the elements.
#[verifier::external_body]
fn vec_shrink_to_fit<T>(v: &mut Vec<T>)
    ensures
        final(v)@ == old(v)@,
{
    v.shrink_to_fit()
}

/// The keys of a map, front to back.
pub struct Keys<'a, K, V> {
    entries: &'a Vec<(K, V)>,
    pos: usize,
}

impl<'a, K, V> View for Keys<'a, K, V> {
    type V = Seq<K>;

    /// The keys still to come.
    closed spec fn view(&self) -> Seq<K> {
        keys_of(self.entries@.skip(self.pos as int))
    }
}

impl<'a, K, V> Keys<'a, K, V> {
    /// The keys already handed out.
    pub closed spec fn done(&self) -> Seq<K> {
        keys_of(self.entries@.take(self.pos as int))
    }

    #[verifier::type_invariant]
    closed spec fn inv(self) -> bool {
        self.pos <= self.entries@.len()
    }

    /// The next key, if any is left.
    pub fn next(&mut self) -> (r: Option<&'a K>)
        ensures
            match r {
                Some(k) => old(self)@.len() > 0 && *k == old(self)@[0] && final(self)@ == old(
                    self,
                )@.drop_first() && final(self).done() == old(self).done().push(*k),
                None => old(self)@.len() == 0 && final(self)@ == old(self)@ && final(self).done()
                    == old(self).done(),
            },
    {
        proof {
            use_type_invariant(&*self);
        }
        if self.pos < self.entries.len() {
            let e = &self.entries[self.pos];
            proof {
                let s = self.entries@;
                assert(keys_of(s.skip(self.pos + 1)) =~= keys_of(s.skip(self.pos as int)).drop_first());
                assert(keys_of(s.take(self.pos + 1)) =~= keys_of(s.take(self.pos as int)).push(s[self.pos as int].0));
            }
            self.pos = self.pos + 1;
            Some(&e.0)
        } else {
            None
        }
    }
}

impl<'a, K, V> Clone for Keys<'a, K, V> {
    /// A cursor at the same place, which moves on its own.
    fn clone(&self) -> (r: Self)
        ensures
            r@ == self@,
            r.done() == self.done(),
    {
        proof {
            use_type_invariant(self);
        }
        Keys { entries: self.entries, pos: self.pos }
    }
}

/// The entries of a map, front to back, as pairs of references.
pub struct Iter<'a, K, V> {
    entries: &'a Vec<(K, V)>,
    pos: usize,
}

impl<'a, K, V> View for Iter<'a, K, V> {
    type V = Seq<(K, V)>;

    /// The entries still to come.
    closed spec fn view(&self) -> Seq<(K, V)> {
        self.entries@.skip(self.pos as int)
    }
}

impl<'a, K, V> Clone for Iter<'a, K, V> {
    /// A cursor at the same place, which moves on its own.
    fn clone(&self) -> (r: Self)
        ensures
            r@ == self@,
    {
        proof {
            use_type_invariant(self);
        }
        Iter { entries: self.entries, pos: self.pos }
    }
}

impl<'a, K, V> Iter<'a, K, V> {
    #[verifier::type_invariant]
    closed spec fn inv(self) -> bool {
        self.pos <= self.entries@.len()
    }

    /// The next entry, if any is left.
    pub fn next(&mut self) -> (r: Option<(&'a K, &'a V)>)
        ensures
            match r {
                Some(e) => old(self)@.len() > 0 && (*e.0, *e.1) == old(self)@[0] && final(self)@
                    == old(self)@.drop_first(),
                None => old(self)@.len() == 0 && final(self)@ == old(self)@,
            },
    {
        proof {
            use_type_invariant(&*self);
        }
        if self.pos < self.entries.len() {
            let e = &self.entries[self.pos];
            proof {
                let s = self.entries@;
                assert(s.skip(self.pos + 1) =~= s.skip(self.pos as int).drop_first());
            }
            self.pos = self.pos + 1;
            Some((&e.0, &e.1))
        } else {
            None
        }
    }
}

/// The entries of a map, front to back, with the values open to change.
pub struct IterMut<'a, K, V> {
    rest: &'a mut [(K, V)],
}

impl<'a, K, V> IterMut<'a, K, V> {
    /// The entries still to come.
    pub closed spec fn remaining(&self) -> Seq<(K, V)> {
        self.rest@
    }

    /// The next entry, if any is left.
    pub fn next(&mut self) -> (r: Option<(&'a K, &'a mut V)>)
        ensures
            match r {
                Some(e) => {
                    &&& old(self).remaining().len() > 0
                    &&& *e.0 == old(self).remaining()[0].0
                    &&& *e.1 == old(self).remaining()[0].1
                    &&& final(self).remaining() == old(self).remaining().drop_first()
                },
                None => old(self).remaining().len() == 0,
            },
    {
        let mut rest: &'a mut [(K, V)] = &mut [];
        std::mem::swap(&mut rest, &mut self.rest);
        if rest.len() == 0 {
            return None;
        }
        let (first, tail) = rest.split_at_mut(1);
        self.rest = tail;
        let e = &mut first[0];
        Some((&e.0, &mut e.1))
    }
}

impl<K: PartialEq, V> Default for VecMap<K, V> {
    fn default() -> (r: Self)
        ensures
            r.entries() == Seq::<(K, V)>::empty(),
            r.wf(),
            r@ == Map::<K, V>::empty(),
    {
        Self::new()
    }
}

/// Hands out the entries by value, in storage order.
impl<K: PartialEq, V> IntoIterator for VecMap<K, V> {
    type Item = (K, V);

    type IntoIter = std::vec::IntoIter<(K, V)>;

    fn into_iter(self) -> (r: std::vec::IntoIter<(K, V)>)
        ensures
            vstd::std_specs::iter::IteratorSpec::remaining(&r) == self.entries(),
    {
        broadcast use vstd::std_specs::vec::axiom_spec_into_iter;

        self.inner.into_iter()
    }
}

/// Takes the vector as the backing sequence, as it is: its keys are not checked.
impl<K: PartialEq, V> From<Vec<(K, V)>> for VecMap<K, V> {
    fn from(inner: Vec<(K, V)>) -> (r: Self) {
        VecMap { inner }
    }
}

impl<K: PartialEq, V> vstd::std_specs::convert::FromSpecImpl<Vec<(K, V)>> for VecMap<K, V> {
    open spec fn obeys_from_spec() -> bool {
        true
    }

    closed spec fn from_spec(v: Vec<(K, V)>) -> Self {
        VecMap { inner: v }
    }
}

/// Hands out the backing vector.
impl<K: PartialEq, V> From<VecMap<K, V>> for Vec<(K, V)> {
    fn from(map: VecMap<K, V>) -> (r: Self) {
        map.inner
    }
}

impl<K: PartialEq, V> vstd::std_specs::convert::FromSpecImpl<VecMap<K, V>> for Vec<(K, V)> {
    open spec fn obeys_from_spec() -> bool {
        true
    }

    closed spec fn from_spec(map: VecMap<K, V>) -> Self {
        map.inner
    }
}

/// What the conversions between a map and its backing vector keep: the
/// sequence of entries.
pub proof fn lemma_from_vec<K: PartialEq, V>(v: Vec<(K, V)>, m: VecMap<K, V>)
    ensures
        <VecMap<K, V> as FromSpec<Vec<(K, V)>>>::from_spec(v).entries() == v@,
        <Vec<(K, V)> as FromSpec<VecMap<K, V>>>::from_spec(m)@ == m.entries(),
{
}

impl<K: PartialEq, V: PartialEq> VecMap<K, V> {
    /// What `==` decides: the lengths agree, and either both backing
    /// sequences are the same, or a lookup in `other` of each key of `self`
    /// finds the value that `self` holds for it.
    pub open spec fn eq_decision(&self, other: &Self) -> bool {
        &&& self.spec_len() == other.spec_len()
        &&& (self.entries() == other.entries() || forall|i: int|
            0 <= i < self.spec_len() ==> found_in(other.entries(), #[trigger] self.entries()[i]))
    }
}

/// For well-formed maps, `==` decides whether they hold the same pairs.
pub proof fn lemma_eq_decision<K: PartialEq, V: PartialEq>(a: &VecMap<K, V>, b: &VecMap<K, V>)
    requires
        a.wf(),
        b.wf(),
        obeys_concrete_eq::<K>(),
    ensures
        a.eq_decision(b) <==> a@ == b@,
{
    let sa = a.entries();
    let sb = b.entries();
    lemma_entries_map_len(sa);
    lemma_entries_map_len(sb);
    if a@ == b@ {
        assert forall|i: int| 0 <= i < a.spec_len() implies found_in(sb, #[trigger] sa[i]) by {
            let k = sa[i].0;
            lemma_entries_map_index(sa, i);
            lemma_key_probe(sb, k);
            let j = first_match(sb, &k);
            lemma_entries_map_index(sb, j);
        }
    }
    if a.eq_decision(b) {
        if sa == sb {
        } else {
            assert(a@.dom().subset_of(b@.dom())) by {
                assert forall|k: K| a@.dom().contains(k) implies b@.dom().contains(k) by {
                    let i = choose|i: int| 0 <= i < sa.len() && #[trigger] sa[i].0 == k;
                    assert(found_in(sb, sa[i]));
                    lemma_key_probe(sb, k);
                }
            }
            vstd::set_lib::lemma_subset_equality(a@.dom(), b@.dom());
            assert forall|k: K| #[trigger] a@.dom().contains(k) implies a@[k] == b@[k] by {
                let i = choose|i: int| 0 <= i < sa.len() && #[trigger] sa[i].0 == k;
                assert(found_in(sb, sa[i]));
                lemma_key_probe(sb, k);
                lemma_entries_map_index(sa, i);
                lemma_entries_map_index(sb, first_match(sb, &k));
            }
            assert(a@ =~= b@);
        }
    }
}

/// Two maps are equal when they have the same length and every entry of
/// the left one is found, with its value, in the right one. Maps built by the
/// same sequence of inserts are recognised by a pairwise pass first.
impl<K: PartialEq, V: PartialEq> PartialEq for VecMap<K, V> {
    fn eq(&self, rhs: &Self) -> (r: bool) {
        let n = self.inner.len();
        if n != rhs.inner.len() {
            return false;
        }
        let ghost obeys = obeys_concrete_eq::<K>() && obeys_concrete_eq::<V>();
        proof {
            reveal(obeys_concrete_eq);
        }
        let mut same = true;
        let mut i: usize = 0;
        while same && i < n
            invariant
                n == self.inner@.len() == rhs.inner@.len(),
                i <= n,
                obeys == (obeys_concrete_eq::<K>() && obeys_concrete_eq::<V>()),
                obeys ==> K::obeys_eq_spec() && V::obeys_eq_spec(),
                obeys ==> forall|x: K, y: K| x.eq_spec(&y) <==> x == y,
                obeys ==> forall|x: V, y: V| x.eq_spec(&y) <==> x == y,
                obeys && same ==> forall|j: int| 0 <= j < i ==> self.inner@[j] == rhs.inner@[j],
                obeys && !same ==> self.inner@ != rhs.inner@,
            decreases n - i + (if same { 1int } else { 0int }),
        {
            let l = &self.inner[i];
            let r = &rhs.inner[i];
            if !(l.0 == r.0 && l.1 == r.1) {
                same = false;
                proof {
                    if obeys {
                        assert(self.inner@[i as int] != rhs.inner@[i as int]);
                    }
                }
            } else {
                i += 1;
            }
        }
        if same {
            proof {
                if obeys {
                    assert(self.inner@ =~= rhs.inner@);
                }
            }
            return true;
        }
        let mut i: usize = 0;
        while i < n
            invariant
                n == self.inner@.len() == rhs.inner@.len(),
                i <= n,
                obeys == (obeys_concrete_eq::<K>() && obeys_concrete_eq::<V>()),
                obeys ==> K::obeys_eq_spec() && V::obeys_eq_spec(),
                obeys ==> forall|x: K, y: K| x.eq_spec(&y) <==> x == y,
                obeys ==> forall|x: V, y: V| x.eq_spec(&y) <==> x == y,
                obeys ==> self.inner@ != rhs.inner@,
                obeys ==> forall|j: int|
                    0 <= j < i ==> found_in(rhs.entries(), #[trigger] self.entries()[j]),
            decreases n - i,
        {
            let left = &self.inner[i];
            match rhs.position(&left.0) {
                Some(j) => {
                    if !(rhs.inner[j].1 == left.1) {
                        return false;
                    }
                },
                None => {
                    return false;
                },
            }
            i += 1;
        }
        true
    }
}

impl<K: PartialEq, V: PartialEq> vstd::std_specs::cmp::PartialEqSpecImpl for VecMap<K, V> {
    open spec fn obeys_eq_spec() -> bool {
        obeys_concrete_eq::<K>() && obeys_concrete_eq::<V>()
    }

    open spec fn eq_spec(&self, other: &Self) -> bool {
        self.eq_decision(other)
    }
}

} // verus!
