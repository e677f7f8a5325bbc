use vector_map::serde::VecMapVisitor;
use vector_map::VecMap;

fn pairs<K: PartialEq + Clone, V: Clone>(m: &VecMap<K, V>) -> Vec<(K, V)> {
    let mut out = Vec::new();
    let mut it = m.iter();
    while let Some((k, v)) = it.next() {
        out.push((k.clone(), v.clone()));
    }
    out
}

#[test]
fn insert_overwrites_and_returns_previous() {
    let mut m: VecMap<u32, &str> = VecMap::new();
    assert_eq!(m.insert(1, "a"), None);
    assert_eq!(m.insert(2, "b"), None);
    assert_eq!(m.insert(1, "c"), Some("a"));
    assert_eq!(m.len(), 2);
    assert_eq!(m.get(&1), Some(&"c"));
    assert_eq!(m.get(&2), Some(&"b"));
    assert_eq!(m.get(&3), None);
}

#[test]
fn insert_keeps_the_slot_of_an_existing_key() {
    let mut m = VecMap::new();
    m.insert(1, 10);
    m.insert(2, 20);
    m.insert(1, 11);
    assert_eq!(pairs(&m), vec![(1, 11), (2, 20)]);
}

#[test]
fn insert_count_changes() {
    let mut m = VecMap::new();
    let before = m.len();
    assert!(m.insert(5, 'x').is_none());
    assert_eq!(m.len(), before + 1);
    assert_eq!(m.insert(5, 'y'), Some('x'));
    assert_eq!(m.len(), before + 1);
}

#[test]
fn get_after_insert_until_touched() {
    let mut m = VecMap::new();
    m.insert(7, 70);
    m.insert(8, 80);
    m.insert(9, 90);
    m.remove(&8);
    assert_eq!(m.get(&7), Some(&70));
    m.insert(7, 71);
    assert_eq!(m.get(&7), Some(&71));
    m.remove(&7);
    assert_eq!(m.get(&7), None);
}

#[test]
fn remove_then_get_finds_nothing() {
    let mut m = VecMap::new();
    m.insert(1, "one");
    m.insert(2, "two");
    m.insert(3, "three");
    assert_eq!(m.remove(&2), Some("two"));
    assert_eq!(m.get(&2), None);
    assert_eq!(m.len(), 2);
    assert_eq!(m.remove(&2), None);
    assert_eq!(m.len(), 2);
}

#[test]
fn remove_swaps_in_the_last_entry() {
    let mut m = VecMap::new();
    m.insert('a', 1);
    m.insert('b', 2);
    m.insert('c', 3);
    m.insert('d', 4);
    assert_eq!(m.remove(&'b'), Some(2));
    assert_eq!(pairs(&m), vec![('a', 1), ('d', 4), ('c', 3)]);
}

#[test]
fn remove_from_empty_map() {
    let mut m: VecMap<u8, u8> = VecMap::new();
    assert_eq!(m.remove(&0), None);
    assert!(m.is_empty());
}

#[test]
fn lookup_with_a_borrowed_probe() {
    let mut m: VecMap<String, u32> = VecMap::new();
    m.insert("alpha".to_string(), 1);
    m.insert("beta".to_string(), 2);
    let probe: &str = "beta";
    assert_eq!(m.get(&probe), Some(&2));
    assert!(m.contains_key(&"alpha"));
    assert!(!m.contains_key(&"gamma"));
    assert_eq!(m.get_pair(&"alpha"), Some((&"alpha".to_string(), &1)));
}

#[test]
fn get_mut_changes_the_value() {
    let mut m = VecMap::new();
    m.insert(1, 1);
    if let Some(v) = m.get_mut(&1) {
        *v += 41;
    }
    assert_eq!(m.get(&1), Some(&42));
    assert!(m.get_mut(&2).is_none());
    if let Some((k, v)) = m.get_pair_mut(&1) {
        assert_eq!(*k, 1);
        *v = 7;
    }
    assert_eq!(m.get(&1), Some(&7));
}

#[test]
fn equality_ignores_order() {
    let mut a = VecMap::new();
    a.insert('a', 1);
    a.insert('b', 2);
    let mut b = VecMap::new();
    b.insert('b', 2);
    b.insert('a', 1);
    assert!(a == b);
    assert!(b == a);
    assert!(a == a);
}

#[test]
fn equality_rejects_different_maps() {
    let mut a = VecMap::new();
    a.insert(1, 1);
    a.insert(2, 2);
    let mut b = VecMap::new();
    b.insert(2, 2);
    b.insert(1, 3);
    assert!(a != b);
    let mut c = VecMap::new();
    c.insert(1, 1);
    assert!(a != c);
    let mut d = VecMap::new();
    d.insert(1, 1);
    d.insert(3, 2);
    assert!(a != d);
    let e: VecMap<i32, i32> = VecMap::new();
    let f: VecMap<i32, i32> = VecMap::default();
    assert!(e == f);
}

#[test]
fn keys_and_iter_follow_storage_order() {
    let mut m = VecMap::new();
    m.insert(3, "c");
    m.insert(1, "a");
    m.insert(2, "b");
    let mut keys = m.keys();
    assert_eq!(keys.next(), Some(&3));
    assert_eq!(keys.next(), Some(&1));
    assert_eq!(keys.next(), Some(&2));
    assert_eq!(keys.next(), None);
    assert_eq!(keys.next(), None);
    assert_eq!(pairs(&m), vec![(3, "c"), (1, "a"), (2, "b")]);
}

#[test]
fn iter_mut_changes_values() {
    let mut m = VecMap::new();
    m.insert(1, 10);
    m.insert(2, 20);
    let mut it = m.iter_mut();
    while let Some((_, v)) = it.next() {
        *v *= 2;
    }
    assert_eq!(pairs(&m), vec![(1, 20), (2, 40)]);
}

#[test]
fn from_iter_lets_later_pairs_win() {
    let m = VecMap::from_iter(vec![(1, 'a'), (2, 'b'), (1, 'c')]);
    assert_eq!(m.len(), 2);
    assert_eq!(m.get(&1), Some(&'c'));
    assert_eq!(m.get(&2), Some(&'b'));
}

#[test]
fn backing_vector_round_trips() {
    let m: VecMap<u8, u8> = VecMap::from(vec![(1, 2), (3, 4)]);
    assert_eq!(m.inner(), &vec![(1, 2), (3, 4)]);
    let v: Vec<(u8, u8)> = m.into();
    assert_eq!(v, vec![(1, 2), (3, 4)]);
}

#[test]
fn raw_access_to_the_backing_vector() {
    let mut m = VecMap::new();
    m.insert(1, 1);
    m.push_insert(2, 2);
    assert_eq!(m.len(), 2);
    m.inner_mut().push((3, 3));
    assert_eq!(m.get(&3), Some(&3));
    m.inner_mut().clear();
    assert!(m.is_empty());
}

#[test]
fn capacity_and_shrinking() {
    let mut m: VecMap<u32, u32> = VecMap::with_capacity(100);
    assert!(m.capacity() >= 100);
    m.insert(1, 1);
    m.insert(2, 2);
    m.shrink_to_fit();
    assert!(m.capacity() >= 2);
    assert_eq!(pairs(&m), vec![(1, 1), (2, 2)]);
    m.reserve(50);
    assert!(m.capacity() >= 52);
    m.clear();
    assert!(m.is_empty());
}

#[test]
fn visitor_builds_the_map_of_a_stream() {
    let m: VecMap<u32, &str> =
        VecMapVisitor::new().visit_map(Some(3), vec![(1, "a"), (2, "b"), (1, "c")]);
    assert_eq!(m.len(), 2);
    assert_eq!(m.get(&1), Some(&"c"));
    let e: VecMap<u32, &str> = VecMapVisitor::new().visit_unit();
    assert!(e.is_empty());
}

#[test]
fn map_round_trip_through_entries() {
    for n in [0u32, 1, 17] {
        let mut m = VecMap::new();
        for i in 0..n {
            m.insert(i * 3 % 17, i);
        }
        let back: VecMap<u32, u32> = VecMapVisitor::new().visit_map(None, pairs(&m));
        assert!(back == m);
        assert_eq!(back.len(), m.len());
    }
}

#[test]
fn lookup_finds_the_first_of_duplicate_keys() {
    let mut m: VecMap<u8, char> = VecMap::from(vec![(1, 'a'), (2, 'b'), (1, 'c')]);
    assert_eq!(m.get(&1), Some(&'a'));
    assert_eq!(m.remove(&1), Some('a'));
    assert_eq!(m.get(&1), Some(&'c'));
}

#[test]
fn into_iter_hands_out_the_entries() {
    let mut m = VecMap::new();
    m.insert("x", 1);
    m.insert("y", 2);
    let all: Vec<(&str, i32)> = m.into_iter().collect();
    assert_eq!(all, vec![("x", 1), ("y", 2)]);
}

#[test]
fn cloned_cursor_moves_on_its_own() {
    let mut m = VecMap::new();
    m.insert(1, 'a');
    m.insert(2, 'b');
    let mut it = m.iter();
    assert_eq!(it.next(), Some((&1, &'a')));
    let mut copy = it.clone();
    assert_eq!(it.next(), Some((&2, &'b')));
    assert_eq!(it.next(), None);
    assert_eq!(copy.next(), Some((&2, &'b')));
    let mut keys = m.keys();
    let mut keys2 = keys.clone();
    assert_eq!(keys.next(), Some(&1));
    assert_eq!(keys2.next(), Some(&1));
}
