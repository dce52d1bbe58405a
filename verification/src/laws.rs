//! The laws of the eviction order, stated over the abstract model so that a
//! reader can check what the replacer promises without opening its body.

use crate::model::{
    depth, evictable_ids, key_le, key_lt, oldest, recorded_frame, view_wf, FrameInfo,
    ReplacerView,
};
use vstd::prelude::*;

verus! {

/// A frame that has not yet accumulated `k` accesses ranks strictly ahead of
/// (is evicted before) any frame with a full `k`-length history, whatever the
/// timestamps on either side.
pub proof fn lemma_partial_history_preferred(a: FrameInfo, b: FrameInfo, k: nat)
    requires
        depth(a) < k,
        depth(b) == k,
    ensures
        key_lt(a, b),
        !key_le(b, a),
{
}

/// Whenever some evictable frame still has a partial history, the victim that
/// `evict` picks (a key-minimal evictable frame) has a partial history too: a
/// full-history frame is never chosen over a partial-history one.
pub proof fn lemma_evict_prefers_partial_history(v: ReplacerView, victim: usize, witness: usize)
    requires
        v.frames.contains_key(victim),
        v.frames[victim].evictable,
        v.frames.contains_key(witness),
        v.frames[witness].evictable,
        key_le(v.frames[victim], v.frames[witness]),
        depth(v.frames[witness]) < v.k,
    ensures
        depth(v.frames[victim]) < v.k,
{
}

/// Among frames of equal history depth, the one whose oldest retained access
/// lies strictly further in the past ranks strictly ahead: it is evicted
/// first.
pub proof fn lemma_equal_depth_older_first(a: FrameInfo, b: FrameInfo)
    requires
        depth(a) == depth(b),
        oldest(a) < oldest(b),
    ensures
        key_lt(a, b),
        !key_le(b, a),
{
}

/// Conversely, a key-minimal victim's oldest retained timestamp is no larger
/// than that of any equally deep evictable frame.
pub proof fn lemma_equal_depth_ties_by_oldest(a: FrameInfo, b: FrameInfo)
    requires
        depth(a) == depth(b),
        key_le(a, b),
    ensures
        oldest(a) <= oldest(b),
{
}

/// A successful eviction removes exactly the victim from tracking: the victim
/// is no longer a key of the table, and the count of evictable frames (what
/// `size` reports) drops by exactly one.
pub proof fn lemma_evict_decreases_size(m: Map<usize, FrameInfo>, victim: usize)
    requires
        m.dom().finite(),
        m.contains_key(victim),
        m[victim].evictable,
    ensures
        !m.remove(victim).contains_key(victim),
        evictable_ids(m.remove(victim)).len() + 1 == evictable_ids(m).len(),
{
    broadcast use vstd::set::group_set_axioms;

    m.dom().lemma_len_filter(|fid: usize| m[fid].evictable);
    assert(evictable_ids(m.remove(victim)) =~= evictable_ids(m).remove(victim));
    assert(evictable_ids(m).contains(victim));
}

/// Recording an access to a frame whose record is already full keeps the
/// depth at `k`, puts the new timestamp at the front, and drops exactly the
/// oldest retained entry; the evictability flag is untouched.
pub proof fn lemma_record_at_capacity(f: FrameInfo, k: nat, ts: usize)
    requires
        1 <= k,
        depth(f) == k,
    ensures
        ({
            let g = recorded_frame(Some(f), k, ts);
            &&& depth(g) == k
            &&& g.history[0] == ts
            &&& g.history.skip(1) == f.history.drop_last()
            &&& g.evictable == f.evictable
        }),
{
    let g = recorded_frame(Some(f), k, ts);
    assert(g.history.skip(1) =~= f.history.drop_last());
}

/// With `k == 1` a single access already fills a frame's history, so no
/// tracked frame ever has a partial history and the ranking degenerates to
/// plain LRU on the (single) retained timestamp.
pub proof fn lemma_k1_history_always_full(v: ReplacerView, fid: usize)
    requires
        view_wf(v),
        v.k == 1,
        v.frames.contains_key(fid),
    ensures
        depth(v.frames[fid]) == v.k,
{
}

} // verus!
