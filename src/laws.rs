//! Properties that relate several operations of the map and the set.
use crate::set::{
    lemma_concat_to_set, lemma_difference_set, lemma_eq_decision as lemma_set_eq_decision,
    lemma_intersection_set, seq_difference, seq_intersection, superset_of, VecSet,
};
use crate::{
    any_match, entries_map, has_key, first_match, insert_all, lemma_eq_decision, lemma_entries_map_index,
    lemma_insert_all_unique, lemma_key_probe, unique_keys, VecMap,
};
use vstd::laws_eq::obeys_concrete_eq;
use vstd::prelude::*;

verus! {

/// A change of a map by `insert` or `remove`.
pub enum MapOp<K, V> {
    Insert(K, V),
    Remove(K),
}

/// What the operation does to the contents of a map, as `insert` and
/// `remove` state it.
pub open spec fn apply_op<K, V>(m: Map<K, V>, op: MapOp<K, V>) -> Map<K, V> {
    match op {
        MapOp::Insert(k, v) => m.insert(k, v),
        MapOp::Remove(k) => m.remove(k),
    }
}

/// The operations of `ops`, applied front to back.
pub open spec fn apply_ops<K, V>(m: Map<K, V>, ops: Seq<MapOp<K, V>>) -> Map<K, V>
    decreases ops.len(),
{
    if ops.len() == 0 {
        m
    } else {
        apply_op(apply_ops(m, ops.drop_last()), ops.last())
    }
}

/// The operation inserts or removes the key `k`.
pub open spec fn touches<K, V>(op: MapOp<K, V>, k: K) -> bool {
    match op {
        MapOp::Insert(x, _) => x == k,
        MapOp::Remove(x) => x == k,
    }
}

proof fn lemma_untouched<K, V>(m: Map<K, V>, k: K, ops: Seq<MapOp<K, V>>)
    requires
        forall|i: int| 0 <= i < ops.len() ==> !touches(#[trigger] ops[i], k),
    ensures
        apply_ops(m, ops).contains_key(k) == m.contains_key(k),
        m.contains_key(k) ==> apply_ops(m, ops)[k] == m[k],
    decreases ops.len(),
{
    if ops.len() > 0 {
        let p = ops.drop_last();
        assert forall|i: int| 0 <= i < p.len() implies !touches(#[trigger] p[i], k) by {
            assert(p[i] == ops[i]);
        }
        lemma_untouched(m, k, p);
        assert(!touches(ops[ops.len() - 1], k));
    }
}

/// After `insert(k, v)`, `get(&k)` finds `v` for as long as no later insert
/// or remove touches `k`: in a well-formed map whose contents are those of
/// `start` with `k` given `v`, then changed by `ops`, the first entry that
/// `k` matches holds `v`.
pub proof fn law_get_after_insert<K: PartialEq, V>(
    m: &VecMap<K, V>,
    start: Map<K, V>,
    k: K,
    v: V,
    ops: Seq<MapOp<K, V>>,
)
    requires
        obeys_concrete_eq::<K>(),
        m.wf(),
        forall|i: int| 0 <= i < ops.len() ==> !touches(#[trigger] ops[i], k),
        m@ == apply_ops(start.insert(k, v), ops),
    ensures
        any_match(m.entries(), &k),
        m.entries()[first_match(m.entries(), &k)].1 == v,
{
    lemma_untouched(start.insert(k, v), k, ops);
    lemma_key_probe(m.entries(), k);
    let s = m.entries();
    let i = choose|i: int| 0 <= i < s.len() && #[trigger] s[i].0 == k;
    assert(has_key(s, k)) by {
        assert(m@.contains_key(k));
    }
    lemma_entries_map_index(s, first_match(s, &k));
}

/// After `remove(&k)`, `get(&k)` finds nothing, and the entry count has gone
/// down by one exactly when `k` was present. `before` and `after` are the map
/// before and after the removal, as `remove` states them.
pub proof fn law_remove_then_get<K: PartialEq, V>(before: &VecMap<K, V>, after: &VecMap<K, V>, k: K)
    requires
        obeys_concrete_eq::<K>(),
        before.wf(),
        after.wf(),
        after@ == before@.remove(k),
        after.spec_len() == before.spec_len() - if any_match(before.entries(), &k) {
            1int
        } else {
            0int
        },
    ensures
        !any_match(after.entries(), &k),
        after.spec_len() == before.spec_len() - if before@.contains_key(k) {
            1int
        } else {
            0int
        },
{
    lemma_key_probe(before.entries(), k);
    lemma_key_probe(after.entries(), k);
    if has_key(after.entries(), k) {
        let s = after.entries();
        let i = choose|i: int| 0 <= i < s.len() && #[trigger] s[i].0 == k;
        lemma_entries_map_index(s, i);
    }
}

/// Map equality is reflexive.
pub proof fn law_eq_reflexive<K: PartialEq, V: PartialEq>(a: &VecMap<K, V>)
    requires
        obeys_concrete_eq::<K>(),
        a.wf(),
    ensures
        a.eq_decision(a),
{
    lemma_eq_decision(a, a);
}

/// Map equality is symmetric.
pub proof fn law_eq_symmetric<K: PartialEq, V: PartialEq>(a: &VecMap<K, V>, b: &VecMap<K, V>)
    requires
        obeys_concrete_eq::<K>(),
        a.wf(),
        b.wf(),
    ensures
        a.eq_decision(b) == b.eq_decision(a),
{
    lemma_eq_decision(a, b);
    lemma_eq_decision(b, a);
}

/// Maps built by inserting the same pairs in two orders are equal.
pub proof fn law_eq_insertion_order<K: PartialEq, V: PartialEq>(
    a: &VecMap<K, V>,
    b: &VecMap<K, V>,
    s1: Seq<(K, V)>,
    s2: Seq<(K, V)>,
)
    requires
        obeys_concrete_eq::<K>(),
        a.wf(),
        b.wf(),
        unique_keys(s1),
        unique_keys(s2),
        s1.to_set() == s2.to_set(),
        a@ == insert_all(Map::empty(), s1),
        b@ == insert_all(Map::empty(), s2),
    ensures
        a.eq_decision(b),
{
    lemma_insert_all_unique(s1);
    lemma_insert_all_unique(s2);
    assert forall|k: K| #[trigger] has_key(s1, k) implies has_key(s2, k) by {
        if has_key(s1, k) {
            let i = choose|i: int| 0 <= i < s1.len() && #[trigger] s1[i].0 == k;
            assert(s1.to_set().contains(s1[i]));
            let j = choose|j: int| 0 <= j < s2.len() && s2[j] == s1[i];
            assert(s2[j].0 == k);
        }
    }
    assert forall|k: K| #[trigger] has_key(s2, k) implies has_key(s1, k) by {
        if has_key(s2, k) {
            let i = choose|i: int| 0 <= i < s2.len() && #[trigger] s2[i].0 == k;
            assert(s2.to_set().contains(s2[i]));
            let j = choose|j: int| 0 <= j < s1.len() && s1[j] == s2[i];
            assert(s1[j].0 == k);
        }
    }
    assert forall|k: K| #[trigger] has_key(s1, k) implies entries_map(s1)[k] == entries_map(s2)[k] by {
        let i = choose|i: int| 0 <= i < s1.len() && #[trigger] s1[i].0 == k;
        assert(s1.to_set().contains(s1[i]));
        let j = choose|j: int| 0 <= j < s2.len() && s2[j] == s1[i];
        lemma_entries_map_index(s1, i);
        lemma_entries_map_index(s2, j);
    }
    assert(entries_map(s1) =~= entries_map(s2));
    lemma_eq_decision(a, b);
}

/// Serializing a map hands out its entries in storage order; deserializing
/// inserts them one after the other. The map that comes back equals the one
/// that went out.
pub proof fn law_map_round_trip<K: PartialEq, V: PartialEq>(m: &VecMap<K, V>, d: &VecMap<K, V>)
    requires
        obeys_concrete_eq::<K>(),
        m.wf(),
        d.wf(),
        d@ == insert_all(Map::empty(), m.entries()),
    ensures
        d.eq_decision(m),
        d@ == m@,
{
    lemma_insert_all_unique(m.entries());
    lemma_eq_decision(d, m);
}

/// Serializing a set hands out its elements; deserializing inserts them one
/// after the other. The set that comes back equals the one that went out.
pub proof fn law_set_round_trip<T: PartialEq>(s: &VecSet<T>, d: &VecSet<T>)
    requires
        obeys_concrete_eq::<T>(),
        s.wf(),
        d.wf(),
        d@ == s.elements().to_set(),
    ensures
        d.eq_decision(s),
        d@ == s@,
{
    lemma_set_eq_decision(d, s);
}

/// What `union` hands out is the union of the two sets, whichever comes first.
pub proof fn law_union_commutes<T: PartialEq>(a: &VecSet<T>, b: &VecSet<T>)
    ensures
        (a.elements() + seq_difference(b.elements(), a@)).to_set() == a@.union(b@),
        (a.elements() + seq_difference(b.elements(), a@)).to_set() == (b.elements()
            + seq_difference(a.elements(), b@)).to_set(),
{
    lemma_difference_set(b.elements(), a@);
    lemma_difference_set(a.elements(), b@);
    lemma_concat_to_set(a.elements(), seq_difference(b.elements(), a@));
    lemma_concat_to_set(b.elements(), seq_difference(a.elements(), b@));
    assert((a.elements() + seq_difference(b.elements(), a@)).to_set() =~= a@.union(b@));
    assert((b.elements() + seq_difference(a.elements(), b@)).to_set() =~= b@.union(a@));
}

/// What `intersection` hands out is the intersection of the two sets,
/// whichever comes first.
pub proof fn law_intersection_commutes<T: PartialEq>(a: &VecSet<T>, b: &VecSet<T>)
    ensures
        seq_intersection(a.elements(), b@).to_set() == a@.intersect(b@),
        seq_intersection(a.elements(), b@).to_set() == seq_intersection(b.elements(), a@).to_set(),
{
    lemma_intersection_set(a.elements(), b@);
    lemma_intersection_set(b.elements(), a@);
    assert(a@.intersect(b@) =~= b@.intersect(a@));
}

/// What `symmetric_difference` hands out is the same set whichever comes first.
pub proof fn law_symmetric_difference_commutes<T: PartialEq>(a: &VecSet<T>, b: &VecSet<T>)
    ensures
        (seq_difference(a.elements(), b@) + seq_difference(b.elements(), a@)).to_set() == a@.difference(
            b@,
        ).union(b@.difference(a@)),
        (seq_difference(a.elements(), b@) + seq_difference(b.elements(), a@)).to_set() == (
        seq_difference(b.elements(), a@) + seq_difference(a.elements(), b@)).to_set(),
{
    lemma_difference_set(b.elements(), a@);
    lemma_difference_set(a.elements(), b@);
    lemma_concat_to_set(seq_difference(a.elements(), b@), seq_difference(b.elements(), a@));
    lemma_concat_to_set(seq_difference(b.elements(), a@), seq_difference(a.elements(), b@));
    assert((seq_difference(a.elements(), b@) + seq_difference(b.elements(), a@)).to_set()
        =~= a@.difference(b@).union(b@.difference(a@)));
    assert((seq_difference(b.elements(), a@) + seq_difference(a.elements(), b@)).to_set()
        =~= b@.difference(a@).union(a@.difference(b@)));
}

/// `is_subset(a, b)` and `is_superset(b, a)` decide the same question, and
/// `is_disjoint(a, b)` holds exactly when `intersection(a, b)` is empty.
pub proof fn law_subset_disjoint<T: PartialEq>(a: &VecSet<T>, b: &VecSet<T>)
    ensures
        superset_of(b@, a@) == a@.subset_of(b@),
        a@.disjoint(b@) <==> seq_intersection(a.elements(), b@).len() == 0,
{
    lemma_intersection_set(a.elements(), b@);
    let i = seq_intersection(a.elements(), b@);
    if i.len() > 0 {
        assert(i.to_set().contains(i[0]));
    }
    if !a@.disjoint(b@) {
        let x = choose|x: T| a@.contains(x) && b@.contains(x);
        assert(i.to_set().contains(x));
    }
}

} // verus!
