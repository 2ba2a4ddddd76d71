use s3fifo::fifo::FIFO;
use s3fifo::fifo_reinserion::FIFOReinsertion;
use s3fifo::ghost_fifo::GhostFIFO;
use s3fifo::S3FIFO;

#[test]
fn fifo_works() {
    let mut cache = FIFO::new(10);
    cache.put(1, 1, 2).unwrap();
    assert_eq!(cache.get(1), Some(&1));
    assert_eq!(cache.get(2), None);
}

#[test]
fn fifo_reinserion() {
    let mut cache = FIFOReinsertion::new(10);
    cache.put(1, 1, 2).unwrap();
    assert_eq!(cache.get(1), Some(&1));
    assert_eq!(cache.get(2), None);
}

#[test]
fn ghost_fifo() {
    let mut cache = GhostFIFO::new(10);
    cache.put(1, 2).unwrap();
    assert!(cache.get(1));
    assert!(!cache.get(2));
}

#[test]
fn s3fifo_works() {
    let mut cache = S3FIFO::new(10);
    cache.put(1, 1, 1).unwrap();
    assert_eq!(cache.get(1), Some(&1));
    assert_eq!(cache.get(2), None);
}

#[test]
fn it_should_has_removed_keys() {
    let mut cache = S3FIFO::new(10);
    cache.put(1, 1, 1).unwrap();
    cache.put(2, 2, 1).unwrap();
    cache.put(3, 3, 1).unwrap();
    cache.put(4, 4, 1).unwrap();
    cache.put(5, 5, 1).unwrap();
    cache.put(6, 6, 1).unwrap();
    cache.put(7, 7, 1).unwrap();
    cache.put(8, 8, 1).unwrap();
    cache.put(9, 9, 1).unwrap();
    cache.put(10, 10, 1).unwrap();
    let removed_keys = cache.put(11, 11, 1).unwrap();

    assert_eq!(removed_keys, Some(vec![10]));

    assert_eq!(cache.get(1), None);
    assert_eq!(cache.get(2), None);
    assert_eq!(cache.get(3), None);
    assert_eq!(cache.get(4), None);
    assert_eq!(cache.get(5), None);
    assert_eq!(cache.get(6), None);
    assert_eq!(cache.get(7), None);
    assert_eq!(cache.get(8), None);
    assert_eq!(cache.get(9), None);
    assert_eq!(cache.get(10), None);
    assert_eq!(cache.get(11), Some(&11));
}

#[test]
fn it_should_have_something_in_main() {
    let mut cache = S3FIFO::new(10);
    cache.put(1, 1, 1).unwrap();
    cache.put(2, 2, 1).unwrap();
    cache.put(3, 3, 1).unwrap();
    cache.put(4, 4, 1).unwrap();
    cache.put(5, 5, 1).unwrap();
    cache.put(6, 6, 1).unwrap();
    cache.put(7, 7, 1).unwrap();
    cache.put(8, 8, 1).unwrap();
    cache.put(9, 9, 1).unwrap();
    cache.put(10, 10, 1).unwrap();
    cache.get(10);
    let removed_keys = cache.put(11, 11, 1).unwrap();

    assert_eq!(removed_keys, Some(vec![]));

    assert_eq!(cache.get(1), None);
    assert_eq!(cache.get(2), None);
    assert_eq!(cache.get(3), None);
    assert_eq!(cache.get(4), None);
    assert_eq!(cache.get(5), None);
    assert_eq!(cache.get(6), None);
    assert_eq!(cache.get(7), None);
    assert_eq!(cache.get(8), None);
    assert_eq!(cache.get(9), None);
    assert_eq!(cache.get(10), Some(&10));
    assert_eq!(cache.get(11), Some(&11));
}

#[test]
#[should_panic = "BeyondCapacity"]
fn lib_it_should_panic() {
    let mut cache = S3FIFO::new(10);
    cache.put(1, 1, 2).unwrap();
}
