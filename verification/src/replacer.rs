//! The replacer itself: per-frame records, the frame table, the logical
//! clock, and the eviction query.

use crate::model::{
    depth, evictable_ids, frame_wf, key_le, oldest, recorded_frame, view_wf, FrameInfo,
    ReplacerView,
};
use vstd::prelude::*;

verus! {

/// The kind of access being recorded. Accepted for forward extensibility; the
/// ranking algorithm does not consult it.
pub enum AccessType {
    Unknown,
    Lookup,
    Scan,
    Index,
}

/// Per-frame record: the retained access timestamps (most recent first, at
/// most `k` of them), the depth bound copied from the replacer, and the
/// evictability flag.
struct LRUKNode {
    history: Vec<usize>,
    k: usize,
    evictable: bool,
}

impl View for LRUKNode {
    type V = FrameInfo;

    closed spec fn view(&self) -> FrameInfo {
        FrameInfo { history: self.history@, evictable: self.evictable }
    }
}

impl LRUKNode {
    /// Well-formedness relative to the owning replacer's depth bound and clock.
    spec fn wf(&self, k: nat, clock: nat) -> bool {
        &&& self.k == k
        &&& frame_wf(self@, k, clock)
    }

    /// A fresh record for a frame first accessed at tick `timestamp`.
    fn new_with_record(k: usize, timestamp: usize) -> (node: Self)
        requires
            1 <= k,
        ensures
            node@ == (FrameInfo { history: seq![timestamp], evictable: true }),
            node.k == k,
    {
        let node = LRUKNode { history: vec![timestamp], k, evictable: true };
        proof {
            assert(node.history@ =~= seq![timestamp]);
        }
        node
    }

    /// The ranking key: (number of retained accesses, least-recent retained
    /// timestamp), compared lexicographically, smallest evicted first.
    fn k_distance(&self) -> (r: (usize, usize))
        requires
            self.history@.len() >= 1,
        ensures
            r.0 == depth(self@),
            r.1 == oldest(self@),
    {
        (self.history.len(), self.history[self.history.len() - 1])
    }

    /// Record one more access at tick `timestamp`: drop the oldest retained
    /// timestamp if the record is already full, then push the new one to the
    /// front.
    fn record_access(&mut self, timestamp: usize)
        requires
            1 <= old(self).k,
            1 <= old(self).history@.len() <= old(self).k,
        ensures
            final(self)@ == recorded_frame(Some(old(self)@), old(self).k as nat, timestamp),
            final(self).k == old(self).k,
    {
        if self.history.len() == self.k {
            self.history.pop();
        }
        self.history.insert(0, timestamp);
        proof {
            let h0 = old(self).history@;
            let kept = if h0.len() >= old(self).k { h0.drop_last() } else { h0 };
            assert(self.history@ =~= seq![timestamp] + kept);
        }
    }
}

/// The frame table as a map from frame identifier to record, built by reading
/// the association list back to front. With unique identifiers (the
/// replacer's invariant) the traversal order does not matter.
spec fn map_of(s: Seq<(usize, LRUKNode)>) -> Map<usize, FrameInfo>
    decreases s.len(),
{
    if s.len() == 0 {
        Map::empty()
    } else {
        map_of(s.drop_last()).insert(s.last().0, s.last().1@)
    }
}

/// No frame identifier occurs twice in the association list.
spec fn unique_ids(s: Seq<(usize, LRUKNode)>) -> bool {
    forall|i: int, j: int|
        0 <= i < j < s.len() ==> (#[trigger] s[i]).0 != (#[trigger] s[j]).0
}

/// A key is in the table exactly when some entry of the list carries it.
proof fn lemma_map_of_contains(s: Seq<(usize, LRUKNode)>, fid: usize)
    ensures
        map_of(s).contains_key(fid) <==> exists|j: int|
            0 <= j < s.len() && (#[trigger] s[j]).0 == fid,
    decreases s.len(),
{
    if s.len() > 0 {
        lemma_map_of_contains(s.drop_last(), fid);
        if s.last().0 == fid {
            assert(s[s.len() - 1].0 == fid);
        } else {
            if map_of(s).contains_key(fid) {
                let j = choose|j: int|
                    0 <= j < s.drop_last().len() && (#[trigger] s.drop_last()[j]).0 == fid;
                assert(s[j].0 == fid);
            }
            if exists|j: int| 0 <= j < s.len() && (#[trigger] s[j]).0 == fid {
                let j = choose|j: int| 0 <= j < s.len() && (#[trigger] s[j]).0 == fid;
                assert(j != s.len() - 1);
                assert(s.drop_last()[j].0 == fid);
            }
        }
    }
}

/// With unique identifiers, the table maps each entry's identifier to that
/// entry's record.
proof fn lemma_map_of_index(s: Seq<(usize, LRUKNode)>, i: int)
    requires
        unique_ids(s),
        0 <= i < s.len(),
    ensures
        map_of(s).contains_key(s[i].0),
        map_of(s)[s[i].0] == s[i].1@,
    decreases s.len(),
{
    if i == s.len() - 1 {
    } else {
        assert(unique_ids(s.drop_last())) by {
            assert forall|p: int, q: int|
                0 <= p < q < s.drop_last().len() implies (#[trigger] s.drop_last()[p]).0 != (
            #[trigger] s.drop_last()[q]).0 by {
                assert(s[p].0 != s[q].0);
            }
        }
        lemma_map_of_index(s.drop_last(), i);
        assert(s.drop_last()[i] == s[i]);
        assert(s[i].0 != s.last().0);
    }
}

/// The table has finitely many keys.
proof fn lemma_map_of_finite(s: Seq<(usize, LRUKNode)>)
    ensures
        map_of(s).dom().finite(),
    decreases s.len(),
{
    if s.len() > 0 {
        lemma_map_of_finite(s.drop_last());
    }
}

/// Replacing an entry in place (same identifier) replaces exactly that key's
/// record in the table.
proof fn lemma_map_of_update(s: Seq<(usize, LRUKNode)>, i: int, p: (usize, LRUKNode))
    requires
        unique_ids(s),
        0 <= i < s.len(),
        p.0 == s[i].0,
    ensures
        map_of(s.update(i, p)) == map_of(s).insert(p.0, p.1@),
    decreases s.len(),
{
    let su = s.update(i, p);
    if i == s.len() - 1 {
        assert(su.drop_last() =~= s.drop_last());
        assert(su.last() == p);
        assert(map_of(s.drop_last()).insert(s.last().0, s.last().1@).insert(p.0, p.1@)
            =~= map_of(s.drop_last()).insert(p.0, p.1@));
    } else {
        assert(unique_ids(s.drop_last())) by {
            assert forall|a: int, b: int|
                0 <= a < b < s.drop_last().len() implies (#[trigger] s.drop_last()[a]).0 != (
            #[trigger] s.drop_last()[b]).0 by {
                assert(s[a].0 != s[b].0);
            }
        }
        assert(su.drop_last() =~= s.drop_last().update(i, p));
        assert(su.last() == s.last());
        lemma_map_of_update(s.drop_last(), i, p);
        assert(s.drop_last()[i] == s[i]);
        assert(p.0 != s.last().0);
        assert(map_of(s.drop_last()).insert(p.0, p.1@).insert(s.last().0, s.last().1@)
            =~= map_of(s.drop_last()).insert(s.last().0, s.last().1@).insert(p.0, p.1@));
    }
}

/// Appending an entry with a fresh identifier adds exactly that key to the
/// table.
proof fn lemma_map_of_push(s: Seq<(usize, LRUKNode)>, p: (usize, LRUKNode))
    ensures
        map_of(s.push(p)) == map_of(s).insert(p.0, p.1@),
{
    assert(s.push(p).drop_last() =~= s);
    assert(s.push(p).last() == p);
}

/// Removing an entry removes exactly that key from the table.
proof fn lemma_map_of_remove(s: Seq<(usize, LRUKNode)>, i: int)
    requires
        unique_ids(s),
        0 <= i < s.len(),
    ensures
        map_of(s.remove(i)) == map_of(s).remove(s[i].0),
    decreases s.len(),
{
    let fid = s[i].0;
    if i == s.len() - 1 {
        assert(s.remove(i) =~= s.drop_last());
        lemma_map_of_contains(s.drop_last(), fid);
        assert forall|j: int|
            0 <= j < s.drop_last().len() implies (#[trigger] s.drop_last()[j]).0 != fid by {
            assert(s[j].0 != s[i].0);
        }
        assert(!map_of(s.drop_last()).contains_key(fid));
        assert(map_of(s.drop_last()).insert(fid, s.last().1@).remove(fid)
            =~= map_of(s.drop_last()));
    } else {
        assert(unique_ids(s.drop_last())) by {
            assert forall|a: int, b: int|
                0 <= a < b < s.drop_last().len() implies (#[trigger] s.drop_last()[a]).0 != (
            #[trigger] s.drop_last()[b]).0 by {
                assert(s[a].0 != s[b].0);
            }
        }
        assert(s.remove(i).drop_last() =~= s.drop_last().remove(i));
        assert(s.remove(i).last() == s.last());
        lemma_map_of_remove(s.drop_last(), i);
        assert(s.drop_last()[i] == s[i]);
        assert(fid != s.last().0);
        assert(map_of(s.drop_last()).remove(fid).insert(s.last().0, s.last().1@)
            =~= map_of(s.drop_last()).insert(s.last().0, s.last().1@).remove(fid));
    }
}

/// Removing an entry keeps the remaining identifiers unique.
proof fn lemma_unique_ids_remove(s: Seq<(usize, LRUKNode)>, i: int)
    requires
        unique_ids(s),
        0 <= i < s.len(),
    ensures
        unique_ids(s.remove(i)),
{
    assert forall|a: int, b: int|
        0 <= a < b < s.remove(i).len() implies (#[trigger] s.remove(i)[a]).0 != (
    #[trigger] s.remove(i)[b]).0 by {
        let a0 = if a < i {
            a
        } else {
            a + 1
        };
        let b0 = if b < i {
            b
        } else {
            b + 1
        };
        assert(s.remove(i)[a] == s[a0]);
        assert(s.remove(i)[b] == s[b0]);
        assert(s[a0].0 != s[b0].0);
    }
}

/// Recording an access at the next tick of the clock keeps a frame's record
/// well formed: the depth stays within bounds, the fresh timestamp tops the
/// history, and the history stays strictly decreasing.
proof fn lemma_recorded_frame_wf(f: FrameInfo, k: nat, clock: nat)
    requires
        frame_wf(f, k, clock),
        clock < usize::MAX,
    ensures
        frame_wf(recorded_frame(Some(f), k, (clock + 1) as usize), k, clock + 1),
{
    let ts = (clock + 1) as usize;
    let g = recorded_frame(Some(f), k, ts);
    let kept = if f.history.len() >= k {
        f.history.drop_last()
    } else {
        f.history
    };
    assert(g.history == seq![ts] + kept);
    assert forall|i: int| 0 <= i < g.history.len() implies 1 <= #[trigger] g.history[i] <= clock
        + 1 by {
        if i > 0 {
            assert(g.history[i] == kept[i - 1]);
            assert(kept[i - 1] == f.history[i - 1]);
        }
    }
    assert forall|i: int, j: int|
        0 <= i < j < g.history.len() implies #[trigger] g.history[i] > #[trigger] g.history[j] by {
        assert(g.history[j] == kept[j - 1]);
        assert(kept[j - 1] == f.history[j - 1]);
        if i > 0 {
            assert(g.history[i] == kept[i - 1]);
            assert(kept[i - 1] == f.history[i - 1]);
        }
    }
}

/// Adding a record under a fresh identifier grows the evictable count by one
/// exactly when the new record is evictable.
proof fn lemma_evictable_ids_insert(m: Map<usize, FrameInfo>, fid: usize, f: FrameInfo)
    requires
        m.dom().finite(),
        !m.contains_key(fid),
    ensures
        evictable_ids(m.insert(fid, f)).finite(),
        evictable_ids(m.insert(fid, f)).len() == evictable_ids(m).len() + (if f.evictable {
            1int
        } else {
            0
        }),
{
    broadcast use vstd::set::group_set_axioms;

    m.dom().lemma_len_filter(|x: usize| m[x].evictable);
    if f.evictable {
        assert(evictable_ids(m.insert(fid, f)) =~= evictable_ids(m).insert(fid));
        assert(!evictable_ids(m).contains(fid));
    } else {
        assert(evictable_ids(m.insert(fid, f)) =~= evictable_ids(m));
    }
}

/// The LRU-K replacer: a frame table keyed by caller-assigned identifiers, a
/// logical clock advanced once per recorded access, and the configured
/// history depth `k`.
pub struct LRUKReplacer {
    k: usize,
    frames: Vec<(usize, LRUKNode)>,
    timestamp: usize,
}

impl View for LRUKReplacer {
    type V = ReplacerView;

    closed spec fn view(&self) -> ReplacerView {
        ReplacerView {
            k: self.k as nat,
            clock: self.timestamp as nat,
            frames: map_of(self.frames@),
        }
    }
}

impl LRUKReplacer {
    /// The replacer's internal invariant: a positive depth bound, unique frame
    /// identifiers, and every record well formed against the bound and clock.
    pub closed spec fn inv(&self) -> bool {
        &&& 1 <= self.k
        &&& unique_ids(self.frames@)
        &&& forall|i: int|
            0 <= i < self.frames@.len() ==> (#[trigger] self.frames@[i]).1.wf(
                self.k as nat,
                self.timestamp as nat,
            )
    }

    /// The internal invariant guarantees a well-formed abstract state.
    pub proof fn lemma_inv_view_wf(&self)
        requires
            self.inv(),
        ensures
            view_wf(self@),
    {
        lemma_map_of_finite(self.frames@);
        assert forall|fid: usize| #[trigger] self@.frames.contains_key(fid)
            implies frame_wf(self@.frames[fid], self@.k, self@.clock) by {
            lemma_map_of_contains(self.frames@, fid);
            let j = choose|j: int|
                0 <= j < self.frames@.len() && (#[trigger] self.frames@[j]).0 == fid;
            lemma_map_of_index(self.frames@, j);
        }
    }

    /// An empty replacer configured for history depth `k`. The capacity hint
    /// only sizes the table ahead of time; it does not bound it.
    pub fn new(capacity_hint: usize, k: usize) -> (replacer: Self)
        requires
            1 <= k,
        ensures
            replacer.inv(),
            replacer@.k == k,
            replacer@.clock == 0,
            replacer@.frames == Map::<usize, FrameInfo>::empty(),
    {
        LRUKReplacer { k, frames: Vec::with_capacity(capacity_hint), timestamp: 0 }
    }

    /// Record an access to `frame_id` at the next tick of the logical clock,
    /// tagged with the kind of access (the tag does not influence ranking).
    /// An untracked frame becomes tracked, evictable by default, with a fresh
    /// single-entry history; a tracked frame's history gains the new
    /// timestamp at the front, dropping its oldest entry first when already
    /// holding `k`.
    pub fn record_access_of_type(&mut self, frame_id: usize, _access: AccessType)
        requires
            old(self).inv(),
            old(self)@.clock < usize::MAX,
        ensures
            final(self).inv(),
            final(self)@.k == old(self)@.k,
            final(self)@.clock == old(self)@.clock + 1,
            final(self)@.frames == old(self)@.frames.insert(
                frame_id,
                recorded_frame(
                    if old(self)@.frames.contains_key(frame_id) {
                        Some(old(self)@.frames[frame_id])
                    } else {
                        None
                    },
                    old(self)@.k,
                    (old(self)@.clock + 1) as usize,
                ),
            ),
    {
        let ghost s0 = self.frames@;
        let ghost k = self.k as nat;
        let ghost clock1 = (self.timestamp + 1) as nat;
        self.timestamp = self.timestamp + 1;
        let ts = self.timestamp;
        match self.find_index(frame_id) {
            Some(i) => {
                proof {
                    lemma_map_of_index(s0, i as int);
                    assert(s0[i as int].1.wf(k, old(self).timestamp as nat));
                }
                let node = &mut self.frames[i];
                node.1.record_access(ts);
                proof {
                    let p = self.frames@[i as int];
                    assert(self.frames@ == s0.update(i as int, p));
                    assert(p.0 == frame_id);
                    lemma_map_of_update(s0, i as int, p);
                    assert(unique_ids(self.frames@)) by {
                        assert forall|a: int, b: int|
                            0 <= a < b < self.frames@.len() implies (#[trigger] self.frames@[a]).0
                            != (#[trigger] self.frames@[b]).0 by {
                            assert(self.frames@[a].0 == s0[a].0);
                            assert(self.frames@[b].0 == s0[b].0);
                        }
                    }
                    assert forall|j: int|
                        0 <= j < self.frames@.len() implies (#[trigger] self.frames@[j]).1.wf(
                        k,
                        clock1,
                    ) by {
                        if j == i {
                            lemma_recorded_frame_wf(s0[j].1@, k, old(self).timestamp as nat);
                        } else {
                            assert(s0[j].1.wf(k, old(self).timestamp as nat));
                            assert(self.frames@[j] == s0[j]);
                        }
                    }
                }
            },
            None => {
                let node = LRUKNode::new_with_record(self.k, ts);
                self.frames.push((frame_id, node));
                proof {
                    lemma_map_of_push(s0, (frame_id, node));
                    lemma_map_of_contains(s0, frame_id);
                    assert(unique_ids(self.frames@)) by {
                        assert forall|a: int, b: int|
                            0 <= a < b < self.frames@.len() implies (#[trigger] self.frames@[a]).0
                            != (#[trigger] self.frames@[b]).0 by {
                            if b == s0.len() {
                                assert(self.frames@[a] == s0[a]);
                            } else {
                                assert(self.frames@[a] == s0[a]);
                                assert(self.frames@[b] == s0[b]);
                            }
                        }
                    }
                    assert forall|j: int|
                        0 <= j < self.frames@.len() implies (#[trigger] self.frames@[j]).1.wf(
                        k,
                        clock1,
                    ) by {
                        if j < s0.len() {
                            assert(s0[j].1.wf(k, old(self).timestamp as nat));
                            assert(self.frames@[j] == s0[j]);
                        }
                    }
                }
            },
        }
    }

    /// Record an access of unknown kind; see `record_access_of_type`.
    pub fn record_access(&mut self, frame_id: usize)
        requires
            old(self).inv(),
            old(self)@.clock < usize::MAX,
        ensures
            final(self).inv(),
            final(self)@.k == old(self)@.k,
            final(self)@.clock == old(self)@.clock + 1,
            final(self)@.frames == old(self)@.frames.insert(
                frame_id,
                recorded_frame(
                    if old(self)@.frames.contains_key(frame_id) {
                        Some(old(self)@.frames[frame_id])
                    } else {
                        None
                    },
                    old(self)@.k,
                    (old(self)@.clock + 1) as usize,
                ),
            ),
    {
        self.record_access_of_type(frame_id, AccessType::Unknown)
    }

    /// Set the evictability flag of a tracked frame; a no-op (not an error)
    /// when `frame_id` is untracked.
    pub fn set_evictable(&mut self, frame_id: usize, evictable: bool)
        requires
            old(self).inv(),
        ensures
            final(self).inv(),
            final(self)@.k == old(self)@.k,
            final(self)@.clock == old(self)@.clock,
            final(self)@.frames == if old(self)@.frames.contains_key(frame_id) {
                old(self)@.frames.insert(
                    frame_id,
                    (FrameInfo {
                        history: old(self)@.frames[frame_id].history,
                        evictable: evictable,
                    }),
                )
            } else {
                old(self)@.frames
            },
    {
        let ghost s0 = self.frames@;
        match self.find_index(frame_id) {
            Some(i) => {
                proof {
                    lemma_map_of_index(s0, i as int);
                }
                let node = &mut self.frames[i];
                node.1.evictable = evictable;
                proof {
                    let p = self.frames@[i as int];
                    assert(self.frames@ == s0.update(i as int, p));
                    lemma_map_of_update(s0, i as int, p);
                    assert(unique_ids(self.frames@)) by {
                        assert forall|a: int, b: int|
                            0 <= a < b < self.frames@.len() implies (#[trigger] self.frames@[a]).0
                            != (#[trigger] self.frames@[b]).0 by {
                            assert(self.frames@[a].0 == s0[a].0);
                            assert(self.frames@[b].0 == s0[b].0);
                        }
                    }
                    assert forall|j: int|
                        0 <= j < self.frames@.len() implies (#[trigger] self.frames@[j]).1.wf(
                        self.k as nat,
                        self.timestamp as nat,
                    ) by {
                        assert(s0[j].1.wf(self.k as nat, self.timestamp as nat));
                        if j != i {
                            assert(self.frames@[j] == s0[j]);
                        }
                    }
                }
            },
            None => {
                proof {
                    lemma_map_of_contains(s0, frame_id);
                }
            },
        }
    }

    /// Drop a frame's record unconditionally, evictable or not; a no-op when
    /// `frame_id` is untracked.
    pub fn remove(&mut self, frame_id: usize)
        requires
            old(self).inv(),
        ensures
            final(self).inv(),
            final(self)@.k == old(self)@.k,
            final(self)@.clock == old(self)@.clock,
            final(self)@.frames == old(self)@.frames.remove(frame_id),
    {
        let ghost s0 = self.frames@;
        match self.find_index(frame_id) {
            Some(i) => {
                proof {
                    lemma_map_of_remove(s0, i as int);
                    lemma_unique_ids_remove(s0, i as int);
                }
                self.frames.remove(i);
                proof {
                    assert forall|j: int|
                        0 <= j < self.frames@.len() implies (#[trigger] self.frames@[j]).1.wf(
                        self.k as nat,
                        self.timestamp as nat,
                    ) by {
                        if j < i {
                            assert(self.frames@[j] == s0[j]);
                        } else {
                            assert(self.frames@[j] == s0[j + 1]);
                        }
                    }
                }
            },
            None => {
                proof {
                    lemma_map_of_contains(s0, frame_id);
                    assert(old(self)@.frames.remove(frame_id) =~= old(self)@.frames);
                }
            },
        }
    }

    /// Select and remove the eviction victim: among all tracked, evictable
    /// frames, the one whose ranking key (history depth, then oldest retained
    /// timestamp) is smallest; ties on the key are broken by table order,
    /// which is deterministic within a run. Fails, mutating nothing, exactly
    /// when no tracked frame is evictable — in particular on an empty
    /// replacer.
    pub fn evict(&mut self) -> (victim: Result<usize, ()>)
        requires
            old(self).inv(),
        ensures
            final(self).inv(),
            final(self)@.k == old(self)@.k,
            final(self)@.clock == old(self)@.clock,
            match victim {
                Ok(fid) => {
                    &&& old(self)@.frames.contains_key(fid)
                    &&& old(self)@.frames[fid].evictable
                    &&& forall|g: usize|
                        #[trigger] old(self)@.frames.contains_key(g)
                            && old(self)@.frames[g].evictable ==> key_le(
                            old(self)@.frames[fid],
                            old(self)@.frames[g],
                        )
                    &&& final(self)@.frames == old(self)@.frames.remove(fid)
                    &&& !final(self)@.frames.contains_key(fid)
                },
                Err(_) => {
                    &&& final(self)@ == old(self)@
                    &&& forall|g: usize|
                        #[trigger] old(self)@.frames.contains_key(g) ==> !old(
                            self,
                        )@.frames[g].evictable
                },
            },
            (victim is Ok) <==> exists|g: usize|
                #[trigger] old(self)@.frames.contains_key(g) && old(self)@.frames[g].evictable,
    {
        let ghost s0 = self.frames@;
        let mut best: Option<usize> = None;
        let mut i: usize = 0;
        while i < self.frames.len()
            invariant
                self.inv(),
                i <= self.frames@.len(),
                match best {
                    Some(b) => {
                        &&& (b as int) < i
                        &&& self.frames@[b as int].1.evictable
                        &&& forall|j: int|
                            0 <= j < i && (#[trigger] self.frames@[j]).1.evictable ==> key_le(
                                self.frames@[b as int].1@,
                                self.frames@[j].1@,
                            )
                    },
                    None => forall|j: int|
                        0 <= j < i ==> !(#[trigger] self.frames@[j]).1.evictable,
                },
            decreases self.frames@.len() - i,
        {
            if self.frames[i].1.evictable {
                proof {
                    assert(self.frames@[i as int].1.wf(self.k as nat, self.timestamp as nat));
                }
                match best {
                    None => {
                        best = Some(i);
                    },
                    Some(b) => {
                        proof {
                            assert(self.frames@[b as int].1.wf(
                                self.k as nat,
                                self.timestamp as nat,
                            ));
                        }
                        let kd = self.frames[i].1.k_distance();
                        let kb = self.frames[b].1.k_distance();
                        if kd.0 < kb.0 || (kd.0 == kb.0 && kd.1 < kb.1) {
                            best = Some(i);
                        }
                    },
                }
            }
            i = i + 1;
        }
        match best {
            None => {
                proof {
                    assert forall|g: usize| #[trigger]
                        old(self)@.frames.contains_key(g) implies !old(
                        self,
                    )@.frames[g].evictable by {
                        lemma_map_of_contains(s0, g);
                        let j = choose|j: int| 0 <= j < s0.len() && (#[trigger] s0[j]).0 == g;
                        lemma_map_of_index(s0, j);
                    }
                    assert(!(exists|g: usize|
                        #[trigger] old(self)@.frames.contains_key(g)
                            && old(self)@.frames[g].evictable));
                }
                Err(())
            },
            Some(b) => {
                let fid = self.frames[b].0;
                proof {
                    lemma_map_of_index(s0, b as int);
                    assert(old(self)@.frames.contains_key(fid)
                        && old(self)@.frames[fid].evictable);
                    assert forall|g: usize|
                        #[trigger] old(self)@.frames.contains_key(g)
                            && old(self)@.frames[g].evictable implies key_le(
                        old(self)@.frames[fid],
                        old(self)@.frames[g],
                    ) by {
                        lemma_map_of_contains(s0, g);
                        let j = choose|j: int| 0 <= j < s0.len() && (#[trigger] s0[j]).0 == g;
                        lemma_map_of_index(s0, j);
                    }
                    lemma_map_of_remove(s0, b as int);
                    lemma_unique_ids_remove(s0, b as int);
                }
                self.frames.remove(b);
                proof {
                    assert forall|j: int|
                        0 <= j < self.frames@.len() implies (#[trigger] self.frames@[j]).1.wf(
                        self.k as nat,
                        self.timestamp as nat,
                    ) by {
                        if j < b {
                            assert(self.frames@[j] == s0[j]);
                        } else {
                            assert(self.frames@[j] == s0[j + 1]);
                        }
                    }
                }
                Ok(fid)
            },
        }
    }

    /// The number of tracked frames that are currently evictable.
    pub fn size(&self) -> (count: usize)
        requires
            self.inv(),
        ensures
            count == evictable_ids(self@.frames).len(),
    {
        let mut count: usize = 0;
        let mut i: usize = 0;
        proof {
            broadcast use vstd::set::group_set_axioms;

            assert(self.frames@.take(0) =~= Seq::<(usize, LRUKNode)>::empty());
            assert(map_of(self.frames@.take(0)) == Map::<usize, FrameInfo>::empty());
            assert(evictable_ids(Map::<usize, FrameInfo>::empty()) =~= Set::<usize>::empty());
        }
        while i < self.frames.len()
            invariant
                self.inv(),
                i <= self.frames@.len(),
                count <= i,
                count == evictable_ids(map_of(self.frames@.take(i as int))).len(),
                evictable_ids(map_of(self.frames@.take(i as int))).finite(),
            decreases self.frames@.len() - i,
        {
            let ghost prefix = self.frames@.take(i as int);
            let ghost entry = self.frames@[i as int];
            proof {
                assert(self.frames@.take(i + 1).drop_last() =~= prefix);
                assert(self.frames@.take(i + 1).last() == entry);
                assert(map_of(self.frames@.take(i + 1)) == map_of(prefix).insert(
                    entry.0,
                    entry.1@,
                ));
                lemma_map_of_contains(prefix, entry.0);
                assert forall|j: int| 0 <= j < prefix.len() implies (#[trigger] prefix[j]).0
                    != entry.0 by {
                    assert(prefix[j] == self.frames@[j]);
                }
                lemma_map_of_finite(prefix);
                lemma_evictable_ids_insert(map_of(prefix), entry.0, entry.1@);
            }
            if self.frames[i].1.evictable {
                count = count + 1;
            }
            i = i + 1;
        }
        proof {
            assert(self.frames@.take(self.frames@.len() as int) =~= self.frames@);
        }
        count
    }

    /// The position of `frame_id` in the table, if it is tracked.
    fn find_index(&self, frame_id: usize) -> (r: Option<usize>)
        ensures
            match r {
                Some(i) => i < self.frames@.len() && self.frames@[i as int].0 == frame_id,
                None => forall|j: int|
                    0 <= j < self.frames@.len() ==> (#[trigger] self.frames@[j]).0 != frame_id,
            },
    {
        let mut i: usize = 0;
        while i < self.frames.len()
            invariant
                i <= self.frames@.len(),
                forall|j: int| 0 <= j < i ==> (#[trigger] self.frames@[j]).0 != frame_id,
            decreases self.frames@.len() - i,
        {
            if self.frames[i].0 == frame_id {
                return Some(i);
            }
            i = i + 1;
        }
        None
    }
}

} // verus!
