use lru_k::AccessType;
use lru_k::LRUKReplacer;

// A frame with a partial history is evicted before any frame with a full
// history, even when the full-history frame's retained accesses are older.
#[test]
fn partial_history_evicted_before_full() {
    let mut r = LRUKReplacer::new(8, 2);
    r.record_access(1); // clock 1
    r.record_access(1); // clock 2: frame 1 now holds [2, 1], a full history
    r.record_access(2); // clock 3: frame 2 holds [3], a partial history
    assert_eq!(2, r.size());
    // Frame 1's oldest retained access (1) is older than frame 2's (3), but
    // the partial history still wins.
    assert_eq!(2, r.evict().unwrap());
    assert_eq!(1, r.evict().unwrap());
}

// Among frames of equal history depth the smaller oldest retained timestamp
// is evicted first.
#[test]
fn equal_depth_ties_broken_by_oldest_access() {
    let mut r = LRUKReplacer::new(8, 2);
    r.record_access(10); // clock 1
    r.record_access(20); // clock 2
    r.record_access(30); // clock 3
    // All three have depth 1; oldest timestamps are 1, 2, 3.
    assert_eq!(10, r.evict().unwrap());
    assert_eq!(20, r.evict().unwrap());
    assert_eq!(30, r.evict().unwrap());
}

// A non-evictable frame is never returned by evict, whatever its key.
#[test]
fn non_evictable_frame_never_evicted() {
    let mut r = LRUKReplacer::new(8, 2);
    r.record_access(1); // clock 1: the stalest frame by far
    r.record_access(2); // clock 2
    r.set_evictable(1, false);
    assert_eq!(1, r.size());
    assert_eq!(2, r.evict().unwrap());
    // Only the pinned frame is left: eviction now fails.
    r.evict().unwrap_err();
    assert_eq!(0, r.size());
}

// Eviction on an empty replacer fails and leaves the size unchanged.
#[test]
fn evict_on_empty_fails() {
    let mut r = LRUKReplacer::new(8, 3);
    r.evict().unwrap_err();
    assert_eq!(0, r.size());
}

// Eviction on a fully pinned replacer fails without mutating any state: the
// same frames are still tracked afterwards and can be released and evicted.
#[test]
fn evict_on_fully_pinned_fails_without_change() {
    let mut r = LRUKReplacer::new(8, 3);
    r.record_access(1);
    r.record_access(2);
    r.set_evictable(1, false);
    r.set_evictable(2, false);
    assert_eq!(0, r.size());
    r.evict().unwrap_err();
    assert_eq!(0, r.size());
    r.set_evictable(1, true);
    r.set_evictable(2, true);
    assert_eq!(2, r.size());
    assert_eq!(1, r.evict().unwrap());
    assert_eq!(2, r.evict().unwrap());
}

// Recording an access on a frame whose history already holds k entries drops
// exactly the oldest entry: the frame's ranking reflects the k-th most recent
// access, not the dropped one.
#[test]
fn record_access_at_capacity_drops_oldest() {
    let mut r = LRUKReplacer::new(8, 3);
    // Frame 1 is accessed four times: clocks 1..=4; it retains [4, 3, 2].
    for _ in 0..4 {
        r.record_access(1);
    }
    // Frame 2 is accessed three times: clocks 5..=7; it retains [7, 6, 5].
    for _ in 0..3 {
        r.record_access(2);
    }
    // Both histories are full (depth 3). Frame 1's oldest retained access is
    // clock 2, frame 2's is clock 5, so frame 1 goes first. Had frame 1 kept
    // all four timestamps, its depth would exceed k and the order would flip.
    assert_eq!(1, r.evict().unwrap());
    assert_eq!(2, r.evict().unwrap());
}

// With k = 1 a single access already fills a frame's history, so the policy
// degenerates to plain LRU on the most recent access.
#[test]
fn k_one_acts_as_lru() {
    let mut r = LRUKReplacer::new(8, 1);
    r.record_access(1); // clock 1
    r.record_access(2); // clock 2
    r.record_access(3); // clock 3
    r.record_access(1); // clock 4: frame 1 now holds [4]
    assert_eq!(3, r.size());
    assert_eq!(2, r.evict().unwrap());
    assert_eq!(3, r.evict().unwrap());
    assert_eq!(1, r.evict().unwrap());
}

// A frame seen for the first time is tracked and evictable by default.
#[test]
fn first_access_tracks_and_defaults_to_evictable() {
    let mut r = LRUKReplacer::new(8, 2);
    assert_eq!(0, r.size());
    r.record_access(42);
    assert_eq!(1, r.size());
    assert_eq!(42, r.evict().unwrap());
}

// set_evictable and remove on an untracked frame are silent no-ops.
#[test]
fn untracked_frame_operations_are_noops() {
    let mut r = LRUKReplacer::new(8, 2);
    r.record_access(1);
    r.set_evictable(99, false);
    assert_eq!(1, r.size());
    r.remove(99);
    assert_eq!(1, r.size());
    assert_eq!(1, r.evict().unwrap());
}

// remove drops a frame whether or not it is evictable, and the frame no
// longer competes for eviction.
#[test]
fn remove_drops_even_non_evictable_frames() {
    let mut r = LRUKReplacer::new(8, 2);
    r.record_access(1); // clock 1: would otherwise be the first victim
    r.record_access(2); // clock 2
    r.set_evictable(1, false);
    assert_eq!(1, r.size());
    r.remove(1);
    assert_eq!(1, r.size());
    assert_eq!(2, r.evict().unwrap());
    r.evict().unwrap_err();
}

// The access-kind tag is accepted but does not alter the ranking: a run that
// uses tagged accesses evicts in the same order as an untagged one.
#[test]
fn access_kind_does_not_alter_ranking() {
    let mut tagged = LRUKReplacer::new(8, 2);
    tagged.record_access_of_type(1, AccessType::Scan);
    tagged.record_access_of_type(2, AccessType::Lookup);
    tagged.record_access_of_type(1, AccessType::Index);
    tagged.record_access_of_type(3, AccessType::Unknown);

    let mut plain = LRUKReplacer::new(8, 2);
    plain.record_access(1);
    plain.record_access(2);
    plain.record_access(1);
    plain.record_access(3);

    assert_eq!(plain.size(), tagged.size());
    for _ in 0..3 {
        assert_eq!(plain.evict().unwrap(), tagged.evict().unwrap());
    }
}
