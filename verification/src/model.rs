//! The mathematical model of the replacer: what a tracked frame's record
//! looks like, what a whole replacer state looks like, and the ranking order
//! that eviction uses.

use vstd::prelude::*;

verus! {

/// What the replacer knows about one tracked frame: the retained access
/// timestamps, most recent first, and whether the caller currently allows the
/// frame to be evicted.
pub struct FrameInfo {
    pub history: Seq<usize>,
    pub evictable: bool,
}

/// The abstract state of a replacer: the configured history depth `k`, the
/// logical clock, and the records of all tracked frames, keyed by frame
/// identifier.
pub struct ReplacerView {
    pub k: nat,
    pub clock: nat,
    pub frames: Map<usize, FrameInfo>,
}

/// How many accesses a frame's record retains; the first component of its
/// ranking key.
pub open spec fn depth(f: FrameInfo) -> nat {
    f.history.len()
}

/// The least-recent timestamp a frame's record retains; the second component
/// of its ranking key. Meaningful only for a non-empty history.
pub open spec fn oldest(f: FrameInfo) -> usize {
    f.history.last()
}

/// Strict lexicographic order on ranking keys. The frame ranked smaller is
/// evicted first: fewer retained accesses win outright, and at equal depth
/// the staler (smaller) oldest timestamp wins.
pub open spec fn key_lt(a: FrameInfo, b: FrameInfo) -> bool {
    ||| depth(a) < depth(b)
    ||| (depth(a) == depth(b) && oldest(a) < oldest(b))
}

/// Non-strict lexicographic order on ranking keys.
pub open spec fn key_le(a: FrameInfo, b: FrameInfo) -> bool {
    ||| depth(a) < depth(b)
    ||| (depth(a) == depth(b) && oldest(a) <= oldest(b))
}

/// Well-formedness of one tracked frame's record: between 1 and `k` retained
/// timestamps, each a past tick of the logical clock, ordered most recent
/// first with no repeats.
pub open spec fn frame_wf(f: FrameInfo, k: nat, clock: nat) -> bool {
    &&& 1 <= f.history.len() <= k
    &&& forall|i: int| 0 <= i < f.history.len() ==> 1 <= #[trigger] f.history[i] <= clock
    &&& forall|i: int, j: int|
        0 <= i < j < f.history.len() ==> #[trigger] f.history[i] > #[trigger] f.history[j]
}

/// Well-formedness of a whole replacer state: a positive depth bound, finitely
/// many tracked frames, and every tracked frame's record well formed.
pub open spec fn view_wf(v: ReplacerView) -> bool {
    &&& 1 <= v.k
    &&& v.frames.dom().finite()
    &&& forall|fid: usize|
        #[trigger] v.frames.contains_key(fid) ==> frame_wf(v.frames[fid], v.k, v.clock)
}

/// The identifiers of the tracked frames that are currently evictable; its
/// cardinality is what `size` reports.
pub open spec fn evictable_ids(m: Map<usize, FrameInfo>) -> Set<usize> {
    m.dom().filter(|fid: usize| m[fid].evictable)
}

/// The record a frame holds right after an access at tick `ts`: a fresh
/// single-entry record for a frame seen for the first time (evictable by
/// default), and otherwise the old record with `ts` pushed to the front,
/// dropping the oldest retained timestamp first when the record is already
/// full.
pub open spec fn recorded_frame(prev: Option<FrameInfo>, k: nat, ts: usize) -> FrameInfo {
    match prev {
        Some(f) => FrameInfo {
            history: seq![ts] + if f.history.len() >= k {
                f.history.drop_last()
            } else {
                f.history
            },
            evictable: f.evictable,
        },
        None => FrameInfo { history: seq![ts], evictable: true },
    }
}

} // verus!
