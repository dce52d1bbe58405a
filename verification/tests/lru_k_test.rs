use lru_k::LRUKReplacer;

#[test]
fn lru_replacer_test() {
    let mut lru_replacer = LRUKReplacer::new(10, 3);

    // Scenario: add six elements to the replacer. We have [1,2,3,4,5]. Frame 6 is non-evictable.
    (1..=6).for_each(|i| lru_replacer.record_access(i));
    (1..=5).for_each(|i| lru_replacer.set_evictable(i, true));
    lru_replacer.set_evictable(6, false);
    assert_eq!(5, lru_replacer.size());

    // Scenario: Insert access history for frame 1. Now frame 1 has two access histories.
    // All other frames have max backward k-dist. The order of eviction is [2,3,4,5,1].
    lru_replacer.record_access(1);

    // Scenario: Evict three pages from the replacer. Elements with max k-distance should be popped
    // first based on LRU.
    (2..=4).for_each(|expect| {
        let i = lru_replacer.evict().unwrap();
        assert_eq!(expect, i);
    });
    assert_eq!(2, lru_replacer.size());

    // Scenario: Now replacer has frames [5,1].
    // Insert new frames 3, 4, and update access history for 5. We should end with [3,1,5,4]
    [3, 4, 5, 4]
        .into_iter()
        .for_each(|i| lru_replacer.record_access(i));
    [3, 4]
        .into_iter()
        .for_each(|i| lru_replacer.set_evictable(i, true));
    assert_eq!(4, lru_replacer.size());

    // Scenario: continue looking for victims. We expect 3 to be evicted next.
    let i = lru_replacer.evict().unwrap();
    assert_eq!(3, i);
    assert_eq!(3, lru_replacer.size());

    // Set 6 to be evictable. 6 Should be evicted next since it has max backward k-dist.
    lru_replacer.set_evictable(6, true);
    assert_eq!(4, lru_replacer.size());
    let i = lru_replacer.evict().unwrap();
    assert_eq!(6, i);
    assert_eq!(3, lru_replacer.size());

    // Now we have [1,5,4]. Continue looking for victims.
    lru_replacer.set_evictable(1, false);
    assert_eq!(2, lru_replacer.size());
    let i = lru_replacer.evict().unwrap();
    assert_eq!(5, i);
    assert_eq!(1, lru_replacer.size());

    // Update access history for 1. Now we have [4,1]. Next victim is 4.
    lru_replacer.record_access(1);
    lru_replacer.record_access(1);
    lru_replacer.set_evictable(1, true);
    assert_eq!(2, lru_replacer.size());
    let i = lru_replacer.evict().unwrap();
    assert_eq!(4, i);

    assert_eq!(1, lru_replacer.size());
    let i = lru_replacer.evict().unwrap();
    assert_eq!(1, i);
    assert_eq!(0, lru_replacer.size());

    // This operation should not modify size
    lru_replacer.evict().unwrap_err();
    assert_eq!(0, lru_replacer.size());
}
