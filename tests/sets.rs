use malamute::set::MultiSet;

#[test]
fn from() {
    let v = vec![4, 2, 3, 4, 3, 1];
    let set: MultiSet<i32> = MultiSet::from(v);
    assert_eq!(set, MultiSet::from(vec![1, 2, 3, 3, 4, 4]));
}

#[test]
fn clear() {
    let mut set: MultiSet<i32> = MultiSet::from(vec![1, 2, 3, 4]);
    set.clear();
    assert_eq!(set, MultiSet::new());
}

#[test]
fn tail_is_non_increasing() {
    let set: MultiSet<i32> = MultiSet::from(vec![3, 1, 2, 3]);
    assert_eq!(set.0, vec![1, 2, 3, 3]);
    assert_eq!(set.tail(), vec![3, 3, 2, 1]);
    let sorted = MultiSet::from_sorted_set(vec![1u8, 5]);
    assert_eq!(sorted.0, vec![1, 5]);
}
