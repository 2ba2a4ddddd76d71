use s3fifo::fifo::{Removed, FIFO};
use s3fifo::fifo_reinserion::FIFOReinsertion;
use s3fifo::ghost_fifo::GhostFIFO;
use s3fifo::S3FIFO;

#[test]
fn fifo_reports_victims_oldest_first() {
    let mut cache = FIFO::new(10);
    assert!(cache.put(1, 1, 3).unwrap().is_none());
    assert!(cache.put(2, 2, 2).unwrap().is_none());
    assert!(cache.put(3, 3, 4).unwrap().is_none());
    assert!(cache.put(4, 4, 1).unwrap().is_none());
    let victims = cache.put(5, 5, 5).unwrap().unwrap();
    assert_eq!(
        victims,
        vec![
            Removed { key: 1, value: 1, weight: 3, freq: 0 },
            Removed { key: 2, value: 2, weight: 2, freq: 0 },
        ]
    );
    assert_eq!(cache.used_capacity(), 10);
}

#[test]
fn fifo_update_to_lower_weight_evicts_nothing() {
    let mut cache = FIFO::new(10);
    cache.put(1, 1, 3).unwrap();
    assert!(cache.put(1, 10, 2).unwrap().is_none());
    assert_eq!(cache.used_capacity(), 2);
    assert_eq!(cache.get(1), Some(&10));
}

#[test]
fn fifo_update_beyond_capacity_changes_nothing() {
    let mut cache = FIFO::new(3);
    cache.put(1, 1, 3).unwrap();
    assert!(cache.put(1, 10, 4).is_err());
    assert_eq!(cache.used_capacity(), 3);
    assert_eq!(cache.len(), 1);
    assert_eq!(cache.get(1), Some(&1));
}

#[test]
fn fifo_victim_carries_its_hits() {
    let mut cache = FIFO::new(2);
    cache.put(1, 7, 1).unwrap();
    cache.get(1);
    cache.get(1);
    cache.put(2, 8, 1).unwrap();
    let victims = cache.put(3, 9, 1).unwrap().unwrap();
    assert_eq!(victims, vec![Removed { key: 1, value: 7, weight: 1, freq: 2 }]);
}

#[test]
fn fifo_growing_update_keeps_the_key() {
    let mut cache = FIFO::new(4);
    cache.put(1, 1, 1).unwrap();
    cache.put(2, 2, 1).unwrap();
    cache.put(3, 3, 1).unwrap();
    let victims = cache.put(1, 10, 3).unwrap().unwrap();
    assert_eq!(victims, vec![Removed { key: 2, value: 2, weight: 1, freq: 0 }]);
    assert_eq!(cache.get(1), Some(&10));
    assert_eq!(cache.get(3), Some(&3));
    assert_eq!(cache.used_capacity(), 4);
    assert_eq!(cache.len(), 2);
}

#[test]
fn fifo_tombstone_is_reaped_not_reported() {
    let mut cache = FIFO::new(2);
    cache.put(1, 1, 1).unwrap();
    cache.put(2, 2, 1).unwrap();
    cache.remove(1);
    let victims = cache.put(3, 3, 1).unwrap();
    assert!(victims.is_none());
    assert_eq!(cache.len(), 2);
    assert_eq!(cache.used_capacity(), 2);
}

#[test]
fn fifo_remove_twice_is_remove_once() {
    let mut cache = FIFO::new(5);
    cache.put(1, 1, 2).unwrap();
    cache.remove(1);
    cache.remove(1);
    assert_eq!(cache.get(1), None);
    assert_eq!(cache.used_capacity(), 2);
    assert_eq!(cache.len(), 1);
    cache.remove(9);
    assert_eq!(cache.len(), 1);
}

#[test]
fn fifo_put_twice_keeps_used() {
    let mut cache = FIFO::new(5);
    cache.put(1, 1, 2).unwrap();
    cache.put(2, 2, 2).unwrap();
    assert!(cache.put(2, 2, 2).unwrap().is_none());
    assert_eq!(cache.used_capacity(), 4);
}

#[test]
fn fifo_removed_key_revived_by_put() {
    let mut cache = FIFO::new(5);
    cache.put(1, 1, 2).unwrap();
    cache.remove(1);
    cache.put(1, 5, 2).unwrap();
    assert_eq!(cache.get(1), Some(&5));
    assert_eq!(cache.used_capacity(), 2);
}

#[test]
fn reinsertion_put_with_freq_marks_hit() {
    let mut cache = FIFOReinsertion::new(2);
    cache.put_with_freq(1, 1, 1, 1).unwrap();
    cache.put_with_freq(2, 2, 1, 0).unwrap();
    let victims = cache.put(3, 3, 1).unwrap().unwrap();
    assert_eq!(victims, vec![2]);
    assert_eq!(cache.get(1), Some(&1));
    assert_eq!(cache.get(3), Some(&3));
}

#[test]
fn reinsertion_second_chance_is_used_once() {
    let mut cache = FIFOReinsertion::new(2);
    cache.put(1, 1, 1).unwrap();
    cache.put(2, 2, 1).unwrap();
    cache.get(1);
    assert_eq!(cache.put(3, 3, 1).unwrap(), Some(vec![2]));
    assert_eq!(cache.put(4, 4, 1).unwrap(), Some(vec![1]));
}

#[test]
fn ghost_get_changes_nothing() {
    let mut cache = GhostFIFO::new(3);
    cache.put(1, 1).unwrap();
    assert!(cache.get(1));
    assert!(cache.get(1));
    assert_eq!(cache.used_capacity(), 1);
    assert_eq!(cache.put(2, 3).unwrap(), Some(vec![1]));
}

#[test]
fn cache_put_then_get() {
    let mut cache = S3FIFO::new(10);
    cache.put(1, 100, 1).unwrap();
    assert_eq!(cache.get(1), Some(&100));
}

#[test]
fn cache_weight_beyond_small_queue() {
    let mut cache = S3FIFO::new(1);
    assert!(cache.put(1, 1, 2).is_err());
    assert_eq!(cache.get(1), None);
}

#[test]
fn cache_ghost_hit_goes_to_main() {
    let mut cache = S3FIFO::new(10);
    cache.put(1, 1, 1).unwrap();
    assert_eq!(cache.put(2, 2, 1).unwrap(), Some(vec![1]));
    assert_eq!(cache.get(1), None);
    assert_eq!(cache.put(1, 11, 1).unwrap(), None);
    assert_eq!(cache.get(1), Some(&11));
    assert_eq!(cache.get(2), Some(&2));
}

#[test]
fn cache_remove_then_get() {
    let mut cache = S3FIFO::new(10);
    cache.put(1, 1, 1).unwrap();
    cache.remove(1);
    assert_eq!(cache.get(1), None);
    cache.remove(1);
    assert_eq!(cache.get(1), None);
    cache.remove(5);
}

#[test]
fn cache_split_of_capacity() {
    let mut cache = S3FIFO::new(100);
    assert!(cache.put(1, 1, 10).is_ok());
    assert!(cache.put(2, 2, 11).is_err());
    let mut big = S3FIFO::new(usize::MAX);
    assert!(big.put(1, 1, usize::MAX / 10).is_ok());
    assert!(big.put(2, 2, usize::MAX / 10 + 1).is_err());
}

#[test]
fn cache_refused_ghost_route_changes_nothing() {
    let mut cache = S3FIFO::new(10);
    cache.put(1, 1, 1).unwrap();
    assert_eq!(cache.put(2, 2, 1).unwrap(), Some(vec![1]));
    assert!(cache.put(1, 9, 10).is_err());
    // 1 is still remembered by the ghost queue, so it goes to main and 2 stays
    assert_eq!(cache.put(1, 11, 1).unwrap(), None);
    assert_eq!(cache.get(1), Some(&11));
    assert_eq!(cache.get(2), Some(&2));
}

#[test]
fn cache_never_reports_removed_key() {
    let mut cache = S3FIFO::new(10);
    cache.put(1, 1, 1).unwrap();
    cache.remove(1);
    assert_eq!(cache.put(2, 2, 1).unwrap(), None);
    assert_eq!(cache.get(1), None);
    assert_eq!(cache.get(2), Some(&2));
}

#[test]
fn fifo_value_stays_through_other_calls() {
    let mut cache = FIFO::new(4);
    cache.put(1, 10, 1).unwrap();
    cache.put(2, 20, 1).unwrap();
    cache.get(2);
    cache.remove(2);
    cache.put(3, 30, 2).unwrap();
    assert_eq!(cache.get(1), Some(&10));
}

#[test]
fn reinsertion_value_stays_through_other_calls() {
    let mut cache = FIFOReinsertion::new(3);
    cache.put(1, 10, 1).unwrap();
    cache.put(2, 20, 1).unwrap();
    cache.get(1);
    assert_eq!(cache.put(3, 30, 2).unwrap(), Some(vec![2]));
    assert_eq!(cache.get(1), Some(&10));
}
