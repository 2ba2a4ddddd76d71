use s3fifo::ghost_fifo::GhostFIFO;

#[test]
fn ghost_fifo_it_works() {
    let mut cache = GhostFIFO::new(10);
    cache.put(1, 2).unwrap();
    assert!(cache.get(1));
    assert!(!cache.get(2));

    assert_eq!(cache.used_capacity(), 2);
    assert_eq!(cache.capacity(), 10);
}

#[test]
fn ghost_fifo_it_should_free_space() {
    let mut cache = GhostFIFO::new(10);
    cache.put(1, 2).unwrap();
    cache.put(2, 3).unwrap();
    cache.put(3, 4).unwrap();
    cache.put(4, 1).unwrap();

    cache.free(5, None);

    assert!(!cache.get(1));
    assert!(!cache.get(2));
    assert!(cache.get(3));
    assert!(cache.get(4));

    assert_eq!(cache.used_capacity(), 5);
}

#[test]
fn ghost_fifo_it_should_remove() {
    let mut cache = GhostFIFO::new(10);
    cache.put(1, 2).unwrap();
    cache.put(2, 3).unwrap();
    cache.put(3, 4).unwrap();
    cache.put(4, 1).unwrap();

    cache.remove(2);

    assert!(cache.get(1));
    assert!(!cache.get(2));
    assert!(cache.get(3));
    assert!(cache.get(4));

    assert_eq!(cache.used_capacity(), 10);
}

#[test]
fn ghost_fifo_it_should_hit_and_do_nothing() {
    let mut cache = GhostFIFO::new(10);
    cache.put(1, 2).unwrap();
    cache.put(2, 3).unwrap();
    cache.put(3, 4).unwrap();
    cache.put(4, 1).unwrap();

    cache.get(1);

    cache.put(5, 5).unwrap();

    assert!(!cache.get(1));
    assert!(!cache.get(2));
    assert!(cache.get(3));
    assert!(cache.get(4));
    assert!(cache.get(5));

    assert_eq!(cache.used_capacity(), 10);
}

#[test]
#[should_panic = "BeyondCapacity"]
fn ghost_fifo_it_should_panic() {
    let mut cache = GhostFIFO::new(10);
    cache.put(1, 2).unwrap();
    cache.put(2, 3).unwrap();
    cache.put(3, 4).unwrap();
    cache.put(4, 1).unwrap();

    cache.put(5, 11).unwrap();
}

#[test]
fn ghost_fifo_it_should_update() {
    let mut cache = GhostFIFO::new(10);
    cache.put(1, 2).unwrap();
    cache.put(2, 3).unwrap();
    cache.put(3, 4).unwrap();
    cache.put(4, 1).unwrap();

    cache.put(1, 3).unwrap();

    assert!(cache.get(1));
    assert!(!cache.get(2));
    assert!(cache.get(3));
    assert!(cache.get(4));

    assert_eq!(cache.used_capacity(), 8);
}

#[test]
fn ghost_fifo_it_should_update_to_lower_weight() {
    let mut cache = GhostFIFO::new(10);
    cache.put(1, 3).unwrap();
    cache.put(2, 2).unwrap();
    cache.put(3, 4).unwrap();
    cache.put(4, 1).unwrap();

    cache.put(1, 2).unwrap();

    assert!(cache.get(1));
    assert!(cache.get(2));
    assert!(cache.get(3));
    assert!(cache.get(4));

    assert_eq!(cache.used_capacity(), 9);
}

#[test]
fn ghost_fifo_it_should_remove_removed_key() {
    let mut cache = GhostFIFO::new(2);

    cache.put(1, 1).unwrap();
    cache.remove(1);
    cache.put(2, 2).unwrap();

    assert!(!cache.get(1));
    assert!(cache.get(2));
    assert_eq!(cache.len(), 1);
    assert_eq!(cache.entry_count(), 1);
    assert_eq!(cache.used_capacity(), 2);
}

#[test]
fn ghost_fifo_it_should_remove_removed_key_2() {
    let mut cache = GhostFIFO::new(3);

    cache.put(1, 1).unwrap();
    cache.remove(1);
    cache.put(2, 2).unwrap();
    cache.put(3, 1).unwrap();

    assert!(!cache.get(1));
    assert!(cache.get(2));
    assert!(cache.get(3));

    assert_eq!(cache.len(), 2);
    assert_eq!(cache.entry_count(), 2);
    assert_eq!(cache.used_capacity(), 3);
}

#[test]
fn ghost_fifo_it_should_return_removed_key() {
    let mut cache = GhostFIFO::new(3);

    cache.put(1, 1).unwrap();
    cache.put(2, 2).unwrap();

    let removed_keys = cache.put(3, 1).unwrap().unwrap();

    assert_eq!(removed_keys, vec![1]);
    assert!(!cache.get(1));
    assert!(cache.get(2));
    assert!(cache.get(3));
    assert!(!cache.get(4));

    assert_eq!(cache.len(), 2);
    assert_eq!(cache.entry_count(), 2);
    assert_eq!(cache.used_capacity(), 3);
}
