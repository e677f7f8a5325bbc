use vector_map::serde::VecSetVisitor;
use vector_map::set::VecSet;

fn set_of(items: &[i32]) -> VecSet<i32> {
    VecSet::from_iter(items.to_vec())
}

fn sorted<'a>(mut next: impl FnMut() -> Option<&'a i32>) -> Vec<i32> {
    let mut out = Vec::new();
    while let Some(x) = next() {
        out.push(*x);
    }
    out.sort();
    out
}

#[test]
fn remove_twice() {
    let mut s = set_of(&[1, 2, 3]);
    assert!(s.remove(&2));
    assert!(s == set_of(&[1, 3]));
    assert!(!s.remove(&2));
    assert_eq!(s.len(), 2);
}

#[test]
fn insert_reports_novelty() {
    let mut s = VecSet::new();
    assert!(s.insert(2));
    assert!(!s.insert(2));
    assert_eq!(s.len(), 1);
    assert!(!s.is_empty());
}

#[test]
fn contains_by_probe() {
    let s = set_of(&[1, 2, 3]);
    assert!(s.contains(&1));
    assert!(!s.contains(&4));
    let mut words: VecSet<String> = VecSet::new();
    words.insert("hello".to_string());
    assert!(words.contains(&"hello"));
    assert!(words.remove(&"hello"));
    assert!(words.is_empty());
}

#[test]
fn difference_is_not_symmetric() {
    let a = set_of(&[1, 2, 3]);
    let b = set_of(&[2, 3, 4]);
    let mut d = a.difference(&b);
    assert_eq!(sorted(|| d.next()), vec![1]);
    let mut e = b.difference(&a);
    assert_eq!(sorted(|| e.next()), vec![4]);
    assert!(a.sub(&b) == set_of(&[1]));
    assert!(b.sub(&a) == set_of(&[4]));
}

#[test]
fn union_is_commutative() {
    let a = set_of(&[1, 2, 3]);
    let b = set_of(&[4, 2, 3, 4]);
    let mut u = a.union(&b);
    assert_eq!(sorted(|| u.next()), vec![1, 2, 3, 4]);
    let mut v = b.union(&a);
    assert_eq!(sorted(|| v.next()), vec![1, 2, 3, 4]);
    assert!(a.bitor(&b) == b.bitor(&a));
    assert!(a.bitor(&b) == set_of(&[1, 2, 3, 4]));
}

#[test]
fn intersection_is_commutative() {
    let a = set_of(&[1, 2, 3]);
    let b = set_of(&[4, 2, 3, 4]);
    let mut i = a.intersection(&b);
    assert_eq!(sorted(|| i.next()), vec![2, 3]);
    let mut j = b.intersection(&a);
    assert_eq!(sorted(|| j.next()), vec![2, 3]);
    assert!(a.bitand(&b) == b.bitand(&a));
}

#[test]
fn symmetric_difference_is_commutative() {
    let a = set_of(&[1, 2, 3]);
    let b = set_of(&[4, 2, 3, 4]);
    let mut x = a.symmetric_difference(&b);
    assert_eq!(sorted(|| x.next()), vec![1, 4]);
    let mut y = b.symmetric_difference(&a);
    assert_eq!(sorted(|| y.next()), vec![1, 4]);
    assert!(a.bitxor(&b) == b.bitxor(&a));
    assert!(a.bitxor(&b) == set_of(&[1, 4]));
}

#[test]
fn operators_on_other_sets() {
    let a = set_of(&[1, 2, 3]);
    let b = set_of(&[3, 4, 5]);
    assert!(a.bitor(&b) == set_of(&[1, 2, 3, 4, 5]));
    assert!(a.bitand(&b) == set_of(&[3]));
    assert!(a.bitxor(&b) == set_of(&[1, 2, 4, 5]));
    assert!(a.sub(&b) == set_of(&[1, 2]));
}

#[test]
fn subset_and_superset() {
    let sup = set_of(&[1, 2, 3]);
    let mut set = VecSet::new();
    assert!(set.is_subset(&sup));
    assert!(sup.is_superset(&set));
    set.insert(2);
    assert!(set.is_subset(&sup));
    assert!(sup.is_superset(&set));
    set.insert(4);
    assert!(!set.is_subset(&sup));
    assert!(!sup.is_superset(&set));
}

#[test]
fn superset_grows() {
    let sub = set_of(&[1, 2]);
    let mut set = VecSet::new();
    assert!(!set.is_superset(&sub));
    set.insert(0);
    set.insert(1);
    assert!(!set.is_superset(&sub));
    set.insert(2);
    assert!(set.is_superset(&sub));
}

#[test]
fn disjoint_iff_empty_intersection() {
    let a = set_of(&[1, 2, 3]);
    let mut b = VecSet::new();
    assert!(a.is_disjoint(&b));
    b.insert(4);
    assert!(a.is_disjoint(&b));
    assert!(a.intersection(&b).next().is_none());
    b.insert(1);
    assert!(!a.is_disjoint(&b));
    assert!(a.intersection(&b).next().is_some());
}

#[test]
fn set_equality_ignores_order() {
    let a = set_of(&[1, 2, 3]);
    let b = set_of(&[3, 1, 2]);
    assert!(a == b);
    assert!(b == a);
    assert!(a != set_of(&[1, 2]));
    assert!(a != set_of(&[1, 2, 4]));
    let e: VecSet<i32> = VecSet::default();
    assert!(e == VecSet::new());
}

#[test]
fn iteration_and_draining() {
    let mut s = set_of(&[5, 6, 7]);
    let mut it = s.iter();
    assert_eq!(sorted(|| it.next()), vec![5, 6, 7]);
    let mut d = s.drain();
    let mut out = Vec::new();
    while let Some(x) = d.next() {
        out.push(x);
    }
    assert_eq!(out, vec![5, 6, 7]);
    assert!(s.is_empty());
    let t = set_of(&[8, 9]);
    let mut into = t.into_iter();
    assert_eq!(into.next(), Some(8));
    assert_eq!(into.next(), Some(9));
    assert_eq!(into.next(), None);
}

#[test]
fn retain_keeps_what_passes() {
    let mut s = set_of(&[1, 2, 3, 4, 5, 6]);
    s.retain(|x| x % 2 == 0);
    assert!(s == set_of(&[2, 4, 6]));
    s.clear();
    assert!(s.is_empty());
}

#[test]
fn set_capacity_and_shrinking() {
    let mut set = VecSet::with_capacity(100);
    set.insert(1);
    set.insert(2);
    assert!(set.capacity() >= 100);
    set.shrink_to_fit();
    assert!(set.capacity() >= 2);
    set.reserve(10);
    assert!(set.capacity() >= 12);
    assert!(set == set_of(&[1, 2]));
}

#[test]
fn extend_adds_new_elements() {
    let mut s = set_of(&[1]);
    s.extend(vec![1, 2, 2, 3]);
    assert_eq!(s.len(), 3);
    assert!(s == set_of(&[1, 2, 3]));
}

#[test]
fn set_round_trip_through_elements() {
    for items in [vec![], vec![1], vec![4, 8, 15, 16, 23, 42]] {
        let s = set_of(&items);
        let mut out = Vec::new();
        let mut it = s.iter();
        while let Some(x) = it.next() {
            out.push(*x);
        }
        let back: VecSet<i32> = VecSetVisitor::new().visit_seq(Some(out.len()), out);
        assert!(back == s);
        let empty: VecSet<i32> = VecSetVisitor::new().visit_unit();
        assert!(empty.is_empty());
    }
}

#[test]
fn cloned_set_cursors_move_on_their_own() {
    let a = set_of(&[1, 2, 3]);
    let b = set_of(&[2, 5]);
    let mut d = a.difference(&b);
    let first = *d.next().unwrap();
    let mut d2 = d.clone();
    assert_eq!(d.next(), d2.next());
    assert_ne!(first, 2);
    let mut i = a.intersection(&b);
    let mut i2 = i.clone();
    assert_eq!(i.next(), Some(&2));
    assert_eq!(i2.next(), Some(&2));
    assert_eq!(i.next(), None);
    let mut u = a.union(&b);
    let mut u2 = u.clone();
    assert_eq!(sorted(|| u.next()), vec![1, 2, 3, 5]);
    assert_eq!(sorted(|| u2.next()), vec![1, 2, 3, 5]);
    let mut x = a.symmetric_difference(&b);
    let mut x2 = x.clone();
    assert_eq!(sorted(|| x.next()), vec![1, 3, 5]);
    assert_eq!(sorted(|| x2.next()), vec![1, 3, 5]);
}

#[test]
fn empty_sets() {
    let a: VecSet<i32> = VecSet::new();
    let b: VecSet<i32> = VecSet::new();
    assert!(a == b);
    assert!(a.is_subset(&b));
    assert!(a.is_disjoint(&b));
    assert!(a.bitor(&b).is_empty());
    assert!(a.iter().next().is_none());
}
