//! The decisions of decoding a map or a set from a stream of entries: the
//! stream itself is read by the caller.
use crate::set::VecSet;
use crate::{insert_all, VecMap};
use std::marker::PhantomData;
use vstd::laws_eq::obeys_concrete_eq;
use vstd::prelude::*;

verus! {

/// Builds a `VecMap` from decoded entries.
pub struct VecMapVisitor<K, V> {
    marker: PhantomData<(K, V)>,
}

impl<K: PartialEq, V> VecMapVisitor<K, V> {
    pub fn new() -> (r: Self) {
        VecMapVisitor { marker: PhantomData }
    }

    /// The map that an empty (unit) input stands for.
    pub fn visit_unit(self) -> (r: VecMap<K, V>)
        ensures
            r.wf(),
            r@ == Map::<K, V>::empty(),
    {
        VecMap::new()
    }

    /// The map that a stream of entries stands for: each entry is inserted in
    /// turn, so a later duplicate key overwrites an earlier one. `size_hint`
    /// is what the stream announced of its length.
    pub fn visit_map(self, size_hint: Option<usize>, entries: Vec<(K, V)>) -> (r: VecMap<K, V>)
        requires
            obeys_concrete_eq::<K>(),
        ensures
            r.wf(),
            r@ == insert_all(Map::empty(), entries@),
    {
        let capacity = match size_hint {
            Some(n) => n,
            None => 0,
        };
        let mut values = VecMap::with_capacity(capacity);
        assert(entries@.take(entries@.len() as int) =~= entries@);
        for e in it: entries
            invariant
                entries@.take(entries@.len() as int) == entries@,
                obeys_concrete_eq::<K>(),
                it.seq() == entries@,
                values.wf(),
                values@ == insert_all(Map::empty(), it.seq().take(it.index() as int)),
            ensures
                values.wf(),
                values@ == insert_all(Map::empty(), entries@),
        {
            proof {
                let done = it.seq().take(it.index() as int);
                assert(it.seq().take(it.index() + 1).drop_last() =~= done);
            }
            let (k, v) = e;
            values.insert(k, v);
        }
        values
    }
}

/// Builds a `VecSet` from decoded elements.
pub struct VecSetVisitor<K> {
    marker: PhantomData<K>,
}

impl<K: PartialEq> VecSetVisitor<K> {
    pub fn new() -> (r: Self) {
        VecSetVisitor { marker: PhantomData }
    }

    /// The set that an empty (unit) input stands for.
    pub fn visit_unit(self) -> (r: VecSet<K>)
        ensures
            r.wf(),
            r@ == Set::<K>::empty(),
    {
        VecSet::new()
    }

    /// The set that a stream of elements stands for: each element is
    /// inserted in turn. `size_hint` is what the stream announced of its
    /// length.
    pub fn visit_seq(self, size_hint: Option<usize>, elements: Vec<K>) -> (r: VecSet<K>)
        requires
            obeys_concrete_eq::<K>(),
        ensures
            r.wf(),
            r@ == elements@.to_set(),
    {
        let capacity = match size_hint {
            Some(n) => n,
            None => 0,
        };
        let mut values = VecSet::with_capacity(capacity);
        values.extend(elements);
        assert(values@ =~= elements@.to_set());
        values
    }
}

} // verus!
