use tagma::coord::Coord;
use tagma::set::TagmaSet;

fn c(i: u16) -> Coord {
    Coord::new(i).unwrap()
}

#[test]
fn set_new_set_is_empty() {
    let set = TagmaSet::new();
    assert!(set.is_empty());
    assert_eq!(set.len(), 0);
}

#[test]
fn set_insert_and_contains() {
    let mut set = TagmaSet::new();
    let x = c(0);
    assert!(!set.contains(x));
    assert!(set.insert(x));
    assert!(set.contains(x));
}

#[test]
fn set_insert_duplicate() {
    let mut set = TagmaSet::new();
    let x = c(0);
    assert!(set.insert(x));
    assert!(!set.insert(x));
}

#[test]
fn set_remove() {
    let mut set = TagmaSet::new();
    let x = c(0);
    set.insert(x);
    assert!(set.remove(x));
    assert!(!set.contains(x));
    assert!(!set.remove(x));
}

#[test]
fn set_len() {
    let mut set = TagmaSet::new();
    for i in 0u16..50 {
        set.insert(c(i));
    }
    assert_eq!(set.len(), 50);
}

#[test]
fn set_clear() {
    let mut set = TagmaSet::new();
    set.insert(c(0));
    set.insert(c(100));
    set.clear();
    assert!(set.is_empty());
}

#[test]
fn set_union_basic() {
    let mut a = TagmaSet::new();
    let mut b = TagmaSet::new();
    a.insert(c(0));
    b.insert(c(1));
    let u = a.union(&b);
    assert!(u.contains(c(0)));
    assert!(u.contains(c(1)));
}

#[test]
fn set_intersection_basic() {
    let mut a = TagmaSet::new();
    let mut b = TagmaSet::new();
    a.insert(c(0));
    a.insert(c(1));
    b.insert(c(1));
    b.insert(c(2));
    let i = a.intersection(&b);
    assert!(!i.contains(c(0)));
    assert!(i.contains(c(1)));
    assert!(!i.contains(c(2)));
}

#[test]
fn set_difference_basic() {
    let mut a = TagmaSet::new();
    let mut b = TagmaSet::new();
    a.insert(c(0));
    a.insert(c(1));
    b.insert(c(1));
    let d = a.difference(&b);
    assert!(d.contains(c(0)));
    assert!(!d.contains(c(1)));
}

#[test]
fn set_symmetric_difference() {
    let mut a = TagmaSet::new();
    let mut b = TagmaSet::new();
    a.insert(c(0));
    b.insert(c(1));
    let sd = a.symmetric_difference(&b);
    assert!(sd.contains(c(0)));
    assert!(sd.contains(c(1)));
    a.insert(c(2));
    b.insert(c(2));
    let sd2 = a.symmetric_difference(&b);
    assert!(!sd2.contains(c(2)));
}

#[test]
fn set_subset() {
    let mut a = TagmaSet::new();
    let mut b = TagmaSet::new();
    a.insert(c(0));
    a.insert(c(1));
    b.insert(c(0));
    b.insert(c(1));
    b.insert(c(2));
    assert!(a.is_subset(&b));
    assert!(!b.is_subset(&a));
}

#[test]
fn set_superset() {
    let mut a = TagmaSet::new();
    let mut b = TagmaSet::new();
    a.insert(c(0));
    a.insert(c(1));
    a.insert(c(2));
    b.insert(c(0));
    b.insert(c(1));
    assert!(a.is_superset(&b));
    assert!(!b.is_superset(&a));
}

#[test]
fn set_disjoint() {
    let mut a = TagmaSet::new();
    let mut b = TagmaSet::new();
    a.insert(c(0));
    b.insert(c(1));
    assert!(a.is_disjoint(&b));
    b.insert(c(0));
    assert!(!a.is_disjoint(&b));
}

#[test]
fn set_iter_empty() {
    let set = TagmaSet::new();
    assert_eq!(set.iter().count(), 0);
}

#[test]
fn set_iter_non_empty() {
    let mut set = TagmaSet::new();
    set.insert(c(0));
    set.insert(c(11171));
    let v: Vec<_> = set.iter().collect();
    assert_eq!(v.len(), 2);
    assert!(v.contains(&c(0)));
    assert!(v.contains(&c(11171)));
}

#[test]
fn set_into_iter() {
    let mut set = TagmaSet::new();
    set.insert(c(5));
    let v: Vec<_> = set.iter().collect();
    assert_eq!(v, vec![c(5)]);
}

#[test]
fn set_from_iterator() {
    let coords: Vec<_> = (0..10u16).map(|i| c(i)).collect();
    let set = TagmaSet::from_coords(coords);
    assert_eq!(set.len(), 10);
}

#[test]
fn set_index_trait() {
    let mut set = TagmaSet::new();
    let x = c(7);
    assert!(!set[x]);
    set.insert(x);
    assert!(set[x]);
}

#[test]
fn set_fill_all() {
    let mut set = TagmaSet::new();
    for i in 0u16..11172 {
        set.insert(c(i));
    }
    assert_eq!(set.len(), 11172);
    assert!(!set.is_empty());
    for i in 0u16..11172 {
        assert!(set.contains(c(i)));
    }
}

#[test]
fn set_remove_all() {
    let mut set = TagmaSet::new();
    for i in 0u16..11172 {
        set.insert(c(i));
    }
    for i in 0u16..11172 {
        set.remove(c(i));
    }
    assert!(set.is_empty());
    assert_eq!(set.len(), 0);
}

#[test]
fn set_display_format() {
    let mut set = TagmaSet::new();
    set.insert(c(0));
    let s = set.to_string();
    assert!(s.contains("가"));
}

#[test]
fn set_clone_eq() {
    let mut a = TagmaSet::new();
    a.insert(c(0));
    let b = a;
    assert_eq!(a, b);
    assert!(a.contains(c(0)));
}

#[test]
fn set_default_is_empty() {
    let set: TagmaSet = Default::default();
    assert!(set.is_empty());
}

#[test]
fn set_get_present() {
    let mut set = TagmaSet::new();
    let x = c(42);
    set.insert(x);
    assert_eq!(set.get(&x), Some(&x));
}

#[test]
fn set_get_absent() {
    let set = TagmaSet::new();
    assert_eq!(set.get(&c(0)), None);
}

#[test]
fn set_take_present() {
    let mut set = TagmaSet::new();
    let x = c(42);
    set.insert(x);
    assert_eq!(set.take(&x), Some(x));
    assert!(!set.contains(x));
}

#[test]
fn set_take_absent() {
    let mut set = TagmaSet::new();
    assert_eq!(set.take(&c(0)), None);
}

#[test]
fn set_retain_all() {
    let mut set = TagmaSet::new();
    for i in 0u16..10 {
        set.insert(c(i));
    }
    set.retain(|_| true);
    assert_eq!(set.len(), 10);
}

#[test]
fn set_retain_odd() {
    let mut set = TagmaSet::new();
    for i in 0u16..10 {
        set.insert(c(i));
    }
    set.retain(|x| x.index() % 2 == 0);
    assert_eq!(set.len(), 5);
    for i in 0u16..10 {
        assert_eq!(set.contains(c(i)), i % 2 == 0);
    }
}

#[test]
fn set_retain_empty() {
    let mut set = TagmaSet::new();
    set.retain(|_| true);
    assert!(set.is_empty());
}

#[test]
fn set_capacity_instance() {
    let set = TagmaSet::new();
    assert_eq!(set.capacity(), 11172);
}

#[test]
fn set_display_lists_members_in_order() {
    let mut set = TagmaSet::new();
    set.insert(c(1));
    set.insert(c(0));
    assert_eq!(set.to_string(), "{가, 각}");
    assert_eq!(TagmaSet::new().to_string(), "{}");
}

#[test]
fn set_iteration_is_sorted() {
    let set = TagmaSet::from_coords(vec![c(9000), c(3), c(11171), c(3)]);
    let v: Vec<u16> = set.iter().map(|x| x.index()).collect();
    assert_eq!(v, vec![3, 9000, 11171]);
}

#[test]
fn set_ops_edges_of_last_word() {
    let mut a = TagmaSet::new();
    a.insert(c(11171));
    a.insert(c(11136));
    let b = TagmaSet::from_coords(vec![c(11171)]);
    assert_eq!(a.difference(&b).len(), 1);
    assert!(b.is_subset(&a));
    assert_eq!(a.symmetric_difference(&b).iter().collect::<Vec<_>>(), vec![c(11136)]);
}
