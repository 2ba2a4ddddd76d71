use s3fifo::fifo_reinserion::FIFOReinsertion;

#[test]
fn fifo_reinserion_it_works() {
    let mut cache = FIFOReinsertion::new(10);
    cache.put(1, 1, 2).unwrap();
    assert_eq!(cache.get(1), Some(&1));
    assert_eq!(cache.get(2), None);

    assert_eq!(cache.used_capacity(), 2);
    assert_eq!(cache.capacity(), 10);
}

#[test]
fn fifo_reinserion_it_should_free_space() {
    let mut cache = FIFOReinsertion::new(10);
    cache.put(1, 1, 2).unwrap();
    cache.put(2, 2, 3).unwrap();
    cache.put(3, 3, 4).unwrap();
    cache.put(4, 4, 1).unwrap();

    cache.free(5, None);

    assert_eq!(cache.get(1), None);
    assert_eq!(cache.get(2), None);
    assert_eq!(cache.get(3), Some(&3));
    assert_eq!(cache.get(4), Some(&4));

    assert_eq!(cache.used_capacity(), 5);
}

#[test]
fn fifo_reinserion_it_should_remove() {
    let mut cache = FIFOReinsertion::new(10);
    cache.put(1, 1, 2).unwrap();
    cache.put(2, 2, 3).unwrap();
    cache.put(3, 3, 4).unwrap();
    cache.put(4, 4, 1).unwrap();

    cache.remove(2);

    assert_eq!(cache.get(1), Some(&1));
    assert_eq!(cache.get(2), None);
    assert_eq!(cache.get(3), Some(&3));
    assert_eq!(cache.get(4), Some(&4));

    assert_eq!(cache.used_capacity(), 10);
}

#[test]
fn it_should_hit() {
    let mut cache = FIFOReinsertion::new(10);
    cache.put(1, 1, 2).unwrap();
    cache.put(2, 2, 3).unwrap();
    cache.put(3, 3, 4).unwrap();
    cache.put(4, 4, 1).unwrap();

    cache.get(1);

    cache.put(5, 5, 5).unwrap();

    assert_eq!(cache.get(1), Some(&1));
    assert_eq!(cache.get(2), None);
    assert_eq!(cache.get(3), None);
    assert_eq!(cache.get(4), Some(&4));
    assert_eq!(cache.get(5), Some(&5));

    assert_eq!(cache.used_capacity(), 8);
}

#[test]
#[should_panic = "BeyondCapacity"]
fn fifo_reinserion_it_should_panic() {
    let mut cache = FIFOReinsertion::new(10);
    cache.put(1, 1, 2).unwrap();
    cache.put(2, 2, 3).unwrap();
    cache.put(3, 3, 4).unwrap();
    cache.put(4, 4, 1).unwrap();

    cache.put(5, 5, 11).unwrap();
}

#[test]
fn fifo_reinserion_it_should_update() {
    let mut cache = FIFOReinsertion::new(10);
    cache.put(1, 1, 2).unwrap();
    cache.put(2, 2, 3).unwrap();
    cache.put(3, 3, 4).unwrap();
    cache.put(4, 4, 1).unwrap();

    cache.put(1, 10, 3).unwrap();

    assert_eq!(cache.get(1), Some(&10));
    assert_eq!(cache.get(2), None);
    assert_eq!(cache.get(3), Some(&3));
    assert_eq!(cache.get(4), Some(&4));

    assert_eq!(cache.used_capacity(), 8);
}

#[test]
fn fifo_reinserion_it_should_update_to_lower_weight() {
    let mut cache = FIFOReinsertion::new(10);
    cache.put(1, 1, 3).unwrap();
    cache.put(2, 2, 2).unwrap();
    cache.put(3, 3, 4).unwrap();
    cache.put(4, 4, 1).unwrap();

    cache.put(1, 10, 2).unwrap();

    assert_eq!(cache.get(1), Some(&10));
    assert_eq!(cache.get(2), Some(&2));
    assert_eq!(cache.get(3), Some(&3));
    assert_eq!(cache.get(4), Some(&4));

    assert_eq!(cache.used_capacity(), 9);
}

#[test]
fn fifo_reinserion_it_should_remove_removed_key() {
    let mut cache = FIFOReinsertion::new(2);

    cache.put(1, 1, 1).unwrap();
    cache.remove(1);
    cache.put(2, 2, 2).unwrap();

    assert_eq!(cache.get(1), None);
    assert_eq!(cache.get(2), Some(&2));
    assert_eq!(cache.len(), 1);
    assert_eq!(cache.entry_count(), 1);
    assert_eq!(cache.used_capacity(), 2);
}

#[test]
fn fifo_reinserion_it_should_remove_removed_key_2() {
    let mut cache = FIFOReinsertion::new(3);

    cache.put(1, 1, 1).unwrap();
    cache.remove(1);
    cache.put(2, 2, 2).unwrap();
    cache.put(3, 3, 1).unwrap();

    assert_eq!(cache.get(1), None);
    assert_eq!(cache.get(2), Some(&2));
    assert_eq!(cache.get(3), Some(&3));

    assert_eq!(cache.len(), 2);
    assert_eq!(cache.entry_count(), 2);
    assert_eq!(cache.used_capacity(), 3);
}

#[test]
fn fifo_reinserion_it_should_return_removed_key() {
    let mut cache = FIFOReinsertion::new(3);

    cache.put(1, 1, 1).unwrap();
    cache.put(2, 2, 2).unwrap();

    let removed_keys = cache.put(3, 3, 1).unwrap().unwrap();

    assert_eq!(removed_keys, vec![1]);
    assert_eq!(cache.get(1), None);
    assert_eq!(cache.get(2), Some(&2));
    assert_eq!(cache.get(3), Some(&3));
    assert_eq!(cache.get(4), None);

    assert_eq!(cache.len(), 2);
    assert_eq!(cache.entry_count(), 2);
    assert_eq!(cache.used_capacity(), 3);
}
