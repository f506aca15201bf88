//! Victim selection for the buffer pool: the LRU-K policy.

use vstd::prelude::*;

use crate::ids::FrameId;

verus! {

/// What a replacer tracks for one frame: its recent access times, oldest
/// first, and whether it may be evicted.
pub type FrameView = (Seq<u64>, bool);

struct FrameSlot {
    frame_id: FrameId,
    history: Vec<u64>,
    evictable: bool,
}

spec fn slot_key(s: FrameSlot) -> u32 {
    s.frame_id.0
}

spec fn slot_view(s: FrameSlot) -> FrameView {
    (s.history@, s.evictable)
}

/// The frames recorded in `slots`, keyed by frame id.
spec fn map_of(slots: Seq<FrameSlot>) -> Map<u32, FrameView>
    decreases slots.len(),
{
    if slots.len() == 0 {
        Map::empty()
    } else {
        map_of(slots.drop_last()).insert(slot_key(slots.last()), slot_view(slots.last()))
    }
}

spec fn distinct_keys(slots: Seq<FrameSlot>) -> bool {
    forall|i: int, j: int|
        0 <= i < j < slots.len() ==> slot_key(#[trigger] slots[i]) != slot_key(#[trigger] slots[j])
}

proof fn lemma_map_of_index(slots: Seq<FrameSlot>, i: int)
    requires
        distinct_keys(slots),
        0 <= i < slots.len(),
    ensures
        map_of(slots).dom().contains(slot_key(slots[i])),
        map_of(slots)[slot_key(slots[i])] == slot_view(slots[i]),
    decreases slots.len(),
{
    if i < slots.len() - 1 {
        lemma_map_of_index(slots.drop_last(), i);
    }
}

proof fn lemma_map_of_dom(slots: Seq<FrameSlot>, id: u32)
    ensures
        map_of(slots).dom().contains(id) <==> exists|i: int|
            0 <= i < slots.len() && slot_key(#[trigger] slots[i]) == id,
    decreases slots.len(),
{
    if slots.len() > 0 {
        lemma_map_of_dom(slots.drop_last(), id);
        if map_of(slots.drop_last()).dom().contains(id) {
            let i = choose|i: int|
                0 <= i < slots.drop_last().len() && slot_key(#[trigger] slots.drop_last()[i]) == id;
            assert(slots[i] == slots.drop_last()[i]);
        }
        if exists|i: int| 0 <= i < slots.len() && slot_key(#[trigger] slots[i]) == id {
            let i = choose|i: int| 0 <= i < slots.len() && slot_key(#[trigger] slots[i]) == id;
            if i < slots.len() - 1 {
                assert(slots.drop_last()[i] == slots[i]);
            }
        }
    }
}

proof fn lemma_map_of_update(slots: Seq<FrameSlot>, i: int, s: FrameSlot)
    requires
        distinct_keys(slots),
        0 <= i < slots.len(),
        slot_key(s) == slot_key(slots[i]),
    ensures
        distinct_keys(slots.update(i, s)),
        map_of(slots.update(i, s)) == map_of(slots).insert(slot_key(s), slot_view(s)),
    decreases slots.len(),
{
    let u = slots.update(i, s);
    assert forall|a: int, b: int| 0 <= a < b < u.len() implies slot_key(#[trigger] u[a]) != slot_key(
        #[trigger] u[b],
    ) by {
        assert(slot_key(u[a]) == slot_key(slots[a]));
        assert(slot_key(u[b]) == slot_key(slots[b]));
    }
    if i == slots.len() - 1 {
        assert(u.drop_last() =~= slots.drop_last());
        assert(map_of(u) =~= map_of(slots).insert(slot_key(s), slot_view(s)));
    } else {
        lemma_map_of_update(slots.drop_last(), i, s);
        assert(u.drop_last() =~= slots.drop_last().update(i, s));
        assert(slot_key(slots.last()) != slot_key(s)) by {
            assert(slot_key(slots[i]) != slot_key(slots[slots.len() - 1]));
        }
        assert(map_of(u) =~= map_of(slots).insert(slot_key(s), slot_view(s)));
    }
}

proof fn lemma_map_of_remove(slots: Seq<FrameSlot>, i: int)
    requires
        distinct_keys(slots),
        0 <= i < slots.len(),
    ensures
        distinct_keys(slots.remove(i)),
        map_of(slots.remove(i)) == map_of(slots).remove(slot_key(slots[i])),
    decreases slots.len(),
{
    let r = slots.remove(i);
    assert forall|a: int, b: int| 0 <= a < b < r.len() implies slot_key(#[trigger] r[a]) != slot_key(
        #[trigger] r[b],
    ) by {
        let a2 = if a < i { a } else { a + 1 };
        let b2 = if b < i { b } else { b + 1 };
        assert(r[a] == slots[a2]);
        assert(r[b] == slots[b2]);
    }
    if i == slots.len() - 1 {
        assert(r =~= slots.drop_last());
        lemma_map_of_dom(slots.drop_last(), slot_key(slots[i]));
        if map_of(slots.drop_last()).dom().contains(slot_key(slots[i])) {
            let j = choose|j: int|
                0 <= j < slots.drop_last().len() && slot_key(#[trigger] slots.drop_last()[j])
                    == slot_key(slots[i]);
            assert(slots.drop_last()[j] == slots[j]);
        }
        assert(map_of(r) =~= map_of(slots).remove(slot_key(slots[i])));
    } else {
        lemma_map_of_remove(slots.drop_last(), i);
        assert(r.drop_last() =~= slots.drop_last().remove(i));
        assert(r.last() == slots.last());
        assert(slot_key(slots.last()) != slot_key(slots[i])) by {
            assert(slot_key(slots[i]) != slot_key(slots[slots.len() - 1]));
        }
        assert(map_of(r) =~= map_of(slots).remove(slot_key(slots[i])));
    }
}

/// How strongly the LRU-K policy wants to evict a frame at time `clock`:
/// frames with fewer than `k` accesses come first (their backward
/// k-distance is infinite), least recently used first; the rest by the age
/// of their k-th most recent access.
pub open spec fn eviction_score(history: Seq<u64>, k: nat, clock: u64) -> int {
    if history.len() < k {
        let most_recent: u64 = if history.len() == 0 {
            0
        } else {
            history.last()
        };
        0x1_0000_0000_0000_0000int + (u64::MAX - most_recent)
    } else {
        let kth: u64 = if history.len() == 0 {
            0
        } else {
            history[0]
        };
        clock - kth
    }
}

/// The most recent access of `history`, or 0 when there is none.
pub open spec fn last_access(history: Seq<u64>) -> u64 {
    if history.len() == 0 {
        0
    } else {
        history.last()
    }
}

/// LRU-K would evict a frame with access history `hf` before one with
/// history `hg`: a frame with fewer than `k` accesses (infinite backward
/// k-distance) goes before one with `k`; between two with fewer than `k`,
/// the one whose last access is not later goes first; between two with
/// `k`, the one whose oldest kept access is not later goes first.
pub open spec fn lru_k_prefers(hf: Seq<u64>, hg: Seq<u64>, k: nat) -> bool {
    &&& hg.len() < k ==> hf.len() < k
    &&& hf.len() < k && hg.len() < k ==> last_access(hf) <= last_access(hg)
    &&& hf.len() >= k && hg.len() >= k && hf.len() > 0 && hg.len() > 0 ==> hf[0] <= hg[0]
}

/// A frame that scores at least as high as another for eviction is one
/// LRU-K would evict first: fewer than `k` accesses beat `k`, then the
/// older last access, then the older k-th most recent access.
pub proof fn lemma_score_order(hf: Seq<u64>, hg: Seq<u64>, k: nat, clock: u64)
    requires
        forall|i: int| 0 <= i < hf.len() ==> hf[i] <= clock,
        forall|i: int| 0 <= i < hg.len() ==> hg[i] <= clock,
        eviction_score(hg, k, clock) <= eviction_score(hf, k, clock),
    ensures
        lru_k_prefers(hf, hg, k),
{
    if hf.len() > 0 {
        assert(hf[0] <= clock);
    }
    if hg.len() > 0 {
        assert(hg[0] <= clock);
    }
}

/// An access joins the history as its latest entry, and the history
/// keeps the `k` most recent accesses in order: the new one, after as
/// many of the latest earlier ones as fit.
pub proof fn lemma_access_keeps_most_recent(h: Seq<u64>, t: u64, k: nat)
    requires
        k >= 1,
        h.len() <= k,
    ensures
        after_access(h, t, k).len() == (if h.len() < k {
            h.len() + 1
        } else {
            k
        }),
        after_access(h, t, k).last() == t,
        forall|i: int|
            0 <= i < after_access(h, t, k).len() - 1 ==> #[trigger] after_access(h, t, k)[i] == h[h.len() - (
            after_access(h, t, k).len() - 1) + i],
{
}

/// The history after an access at `t`, keeping the `k` most recent.
pub open spec fn after_access(history: Seq<u64>, t: u64, k: nat) -> Seq<u64> {
    let h = history.push(t);
    if h.len() > k {
        h.drop_first()
    } else {
        h
    }
}

/// The LRU-K replacement policy over the buffer pool's frames.
pub struct LruKReplacer {
    k: usize,
    capacity: usize,
    frames: Vec<FrameSlot>,
    clock: u64,
}

impl LruKReplacer {
    /// Every frame the replacer knows about.
    pub closed spec fn entries(&self) -> Map<u32, FrameView> {
        map_of(self.frames@)
    }

    pub closed spec fn spec_k(&self) -> nat {
        self.k as nat
    }

    /// The logical time of the most recent access.
    pub closed spec fn spec_clock(&self) -> u64 {
        self.clock
    }

    pub closed spec fn inv(&self) -> bool {
        &&& distinct_keys(self.frames@)
        &&& forall|i: int|
            0 <= i < self.frames@.len() ==> forall|j: int|
                0 <= j < (#[trigger] self.frames@[i]).history@.len() ==> self.frames@[i].history@[j]
                    <= self.clock
    }

    pub fn new(capacity: usize, k: usize) -> (r: LruKReplacer)
        ensures
            r.inv(),
            r.entries() == Map::<u32, FrameView>::empty(),
            r.spec_k() == k,
            r.spec_clock() == 0,
    {
        let r = LruKReplacer { k, capacity, frames: Vec::new(), clock: 0 };
        assert(r.entries() =~= Map::<u32, FrameView>::empty());
        r
    }

    /// The logical time of the last recorded access.
    pub fn clock(&self) -> (c: u64)
        ensures
            c == self.spec_clock(),
    {
        self.clock
    }

    fn find(&self, frame_id: FrameId) -> (r: Option<usize>)
        requires
            self.inv(),
        ensures
            match r {
                Some(i) => i < self.frames@.len() && self.frames@[i as int].frame_id == frame_id,
                None => !self.entries().dom().contains(frame_id.0),
            },
    {
        let mut i: usize = 0;
        while i < self.frames.len()
            invariant
                i <= self.frames@.len(),
                forall|j: int| 0 <= j < i ==> slot_key(#[trigger] self.frames@[j]) != frame_id.0,
            decreases self.frames@.len() - i,
        {
            if self.frames[i].frame_id.0 == frame_id.0 {
                return Some(i);
            }
            i = i + 1;
        }
        proof {
            lemma_map_of_dom(self.frames@, frame_id.0);
        }
        None
    }

    /// Records an access to `frame_id` at the next logical time; a frame
    /// seen for the first time starts out non-evictable.
    pub fn record_access(&mut self, frame_id: FrameId)
        requires
            old(self).inv(),
            old(self).spec_clock() < u64::MAX,
        ensures
            final(self).inv(),
            final(self).spec_k() == old(self).spec_k(),
            final(self).spec_clock() == old(self).spec_clock() + 1,
            old(self).spec_k() >= 1 ==> final(self).entries()[frame_id.0].0.last() == final(self).spec_clock(),
            final(self).entries() == old(self).entries().insert(
                frame_id.0,
                if old(self).entries().dom().contains(frame_id.0) {
                    (
                        after_access(
                            old(self).entries()[frame_id.0].0,
                            final(self).spec_clock(),
                            old(self).spec_k(),
                        ),
                        old(self).entries()[frame_id.0].1,
                    )
                } else {
                    (after_access(Seq::empty(), final(self).spec_clock(), old(self).spec_k()), false)
                },
            ),
    {
        self.clock = self.clock + 1;
        let timestamp = self.clock;
        let k = self.k;
        match self.find(frame_id) {
            Some(i) => {
                let ghost old_slot = self.frames@[i as int];
                proof {
                    lemma_map_of_index(self.frames@, i as int);
                }
                let mut history: Vec<u64> = Vec::new();
                let mut j: usize = 0;
                while j < self.frames[i].history.len()
                    invariant
                        i < self.frames@.len(),
                        self.frames@[i as int] == old_slot,
                        j <= old_slot.history@.len(),
                        history@ == old_slot.history@.take(j as int),
                    decreases old_slot.history@.len() - j,
                {
                    history.push(self.frames[i].history[j]);
                    j = j + 1;
                    assert(history@ =~= old_slot.history@.take(j as int));
                }
                assert(old_slot.history@.take(j as int) =~= old_slot.history@);
                history.push(timestamp);
                if history.len() > k {
                    history.remove(0);
                    assert(history@ =~= after_access(old_slot.history@, timestamp, k as nat));
                }
                let evictable = self.frames[i].evictable;
                let slot = FrameSlot { frame_id, history, evictable };
                let ghost before = self.frames@;
                self.frames.set(i, slot);
                proof {
                    lemma_map_of_update(before, i as int, slot);
                    assert(self.frames@ == before.update(i as int, slot));
                }
            },
            None => {
                let mut history: Vec<u64> = Vec::new();
                history.push(timestamp);
                if history.len() > k {
                    history.remove(0);
                }
                assert(history@ =~= after_access(Seq::empty(), timestamp, k as nat));
                let slot = FrameSlot { frame_id, history, evictable: false };
                let ghost before = self.frames@;
                self.frames.push(slot);
                proof {
                    assert(self.frames@.drop_last() =~= before);
                    assert forall|a: int, b: int|
                        0 <= a < b < self.frames@.len() implies slot_key(
                        #[trigger] self.frames@[a],
                    ) != slot_key(#[trigger] self.frames@[b]) by {
                        if b == self.frames@.len() - 1 {
                            lemma_map_of_dom(before, frame_id.0);
                            assert(before[a] == self.frames@[a]);
                        }
                    }
                }
            },
        }
        proof {
            assert forall|i: int| 0 <= i < self.frames@.len() implies forall|j: int|
                0 <= j < (#[trigger] self.frames@[i]).history@.len() ==> self.frames@[i].history@[j]
                    <= self.clock by {
                assert forall|j: int| 0 <= j < self.frames@[i].history@.len() implies self.frames@[i].history@[j] <= self.clock by {
                }
            }
        }
    }

    /// Marks whether `frame_id` may be evicted; a frame it does not know is only
    /// added when it becomes evictable.
    pub fn set_evictable(&mut self, frame_id: FrameId, evictable: bool)
        requires
            old(self).inv(),
        ensures
            final(self).inv(),
            final(self).spec_k() == old(self).spec_k(),
            final(self).spec_clock() == old(self).spec_clock(),
            final(self).entries() == if old(self).entries().dom().contains(frame_id.0) {
                old(self).entries().insert(
                    frame_id.0,
                    (old(self).entries()[frame_id.0].0, evictable),
                )
            } else if evictable {
                old(self).entries().insert(frame_id.0, (Seq::empty(), true))
            } else {
                old(self).entries()
            },
    {
        match self.find(frame_id) {
            Some(i) => {
                proof {
                    lemma_map_of_index(self.frames@, i as int);
                }
                let ghost before = self.frames@;
                let mut slot = self.frames.remove(i);
                let ghost removed = self.frames@;
                slot.evictable = evictable;
                self.frames.insert(i, slot);
                proof {
                    assert(self.frames@ =~= before.update(i as int, slot));
                    lemma_map_of_update(before, i as int, slot);
                    assert(slot.history@ == before[i as int].history@);
                }
            },
            None => {
                if evictable {
                    let slot = FrameSlot { frame_id, history: Vec::new(), evictable: true };
                    let ghost before = self.frames@;
                    self.frames.push(slot);
                    proof {
                        assert(self.frames@.drop_last() =~= before);
                        assert forall|a: int, b: int|
                            0 <= a < b < self.frames@.len() implies slot_key(
                            #[trigger] self.frames@[a],
                        ) != slot_key(#[trigger] self.frames@[b]) by {
                            if b == self.frames@.len() - 1 {
                                lemma_map_of_dom(before, frame_id.0);
                                assert(before[a] == self.frames@[a]);
                            }
                        }
                        assert(slot.history@ =~= Seq::<u64>::empty());
                    }
                }
            },
        }
    }

    /// Evicts the evictable frame with the highest LRU-K score (the first
    /// such frame in the order the replacer first saw them on a tie), forgetting it.
    pub fn evict(&mut self) -> (victim: Option<FrameId>)
        requires
            old(self).inv(),
        ensures
            final(self).inv(),
            final(self).spec_k() == old(self).spec_k(),
            final(self).spec_clock() == old(self).spec_clock(),
            match victim {
                Some(f) => {
                    &&& old(self).entries().dom().contains(f.0)
                    &&& old(self).entries()[f.0].1
                    &&& forall|g: u32|
                        #![trigger old(self).entries()[g]]
                        old(self).entries().dom().contains(g) && old(self).entries()[g].1
                            ==> eviction_score(
                            old(self).entries()[g].0,
                            old(self).spec_k(),
                            old(self).spec_clock(),
                        ) <= eviction_score(
                            old(self).entries()[f.0].0,
                            old(self).spec_k(),
                            old(self).spec_clock(),
                        )
                    &&& final(self).entries() == old(self).entries().remove(f.0)
                    &&& forall|g: u32|
                        #![trigger old(self).entries()[g]]
                        old(self).entries().dom().contains(g) && old(self).entries()[g].1 ==> lru_k_prefers(
                            old(self).entries()[f.0].0,
                            old(self).entries()[g].0,
                            old(self).spec_k(),
                        )
                },
                None => {
                    &&& forall|g: u32|
                        #![trigger old(self).entries()[g]]
                        old(self).entries().dom().contains(g) ==> !old(self).entries()[g].1
                    &&& final(self).entries() == old(self).entries()
                },
            },
    {
        let mut best: Option<(usize, bool, u64)> = None;
        let mut i: usize = 0;
        while i < self.frames.len()
            invariant
                self.inv(),
                self.frames@ == old(self).frames@,
                self.k == old(self).k,
                self.clock == old(self).clock,
                i <= self.frames@.len(),
                match best {
                    Some((b, inf, metric)) => {
                        &&& b < i
                        &&& self.frames@[b as int].evictable
                        &&& eviction_score(self.frames@[b as int].history@, self.k as nat, self.clock)
                            == (if inf { 0x1_0000_0000_0000_0000int + metric } else { metric as int })
                        &&& forall|j: int|
                            0 <= j < i && (#[trigger] self.frames@[j]).evictable ==> eviction_score(
                                self.frames@[j].history@,
                                self.k as nat,
                                self.clock,
                            ) <= eviction_score(self.frames@[b as int].history@, self.k as nat, self.clock)
                    },
                    None => forall|j: int| 0 <= j < i ==> !(#[trigger] self.frames@[j]).evictable,
                },
            decreases self.frames@.len() - i,
        {
            let slot = &self.frames[i];
            if slot.evictable {
                let len = slot.history.len();
                let (is_inf, metric) = if len < self.k {
                    let most_recent = if len == 0 {
                        0
                    } else {
                        slot.history[len - 1]
                    };
                    (true, u64::MAX - most_recent)
                } else {
                    let kth = if len == 0 {
                        0
                    } else {
                        slot.history[0]
                    };
                    proof {
                        if len > 0 {
                            assert(self.frames@[i as int].history@[0] <= self.clock);
                        }
                    }
                    (false, self.clock - kth)
                };
                let is_better = match best {
                    None => true,
                    Some((_, best_inf, best_metric)) => (is_inf && !best_inf) || (is_inf
                        == best_inf && metric > best_metric),
                };
                if is_better {
                    best = Some((i, is_inf, metric));
                }
            }
            i = i + 1;
        }
        match best {
            Some((b, _, _)) => {
                let victim = self.frames[b].frame_id;
                let ghost before = self.frames@;
                proof {
                    lemma_map_of_index(before, b as int);
                    assert forall|g: u32|
                        #![trigger old(self).entries()[g]]
                        old(self).entries().dom().contains(g) && old(self).entries()[g].1
                            implies eviction_score(
                            old(self).entries()[g].0,
                            old(self).spec_k(),
                            old(self).spec_clock(),
                        ) <= eviction_score(
                            old(self).entries()[victim.0].0,
                            old(self).spec_k(),
                            old(self).spec_clock(),
                        ) by {
                        lemma_map_of_dom(before, g);
                        let j = choose|j: int| 0 <= j < before.len() && slot_key(#[trigger] before[j]) == g;
                        lemma_map_of_index(before, j);
                    }
                    assert forall|g: u32|
                        #![trigger old(self).entries()[g]]
                        old(self).entries().dom().contains(g) && old(self).entries()[g].1 implies lru_k_prefers(
                            old(self).entries()[victim.0].0,
                            old(self).entries()[g].0,
                            old(self).spec_k(),
                        ) by {
                        lemma_map_of_dom(before, g);
                        let j = choose|j: int| 0 <= j < before.len() && slot_key(#[trigger] before[j]) == g;
                        lemma_map_of_index(before, j);
                        let hf = before[b as int].history@;
                        let hg = before[j].history@;
                        assert forall|x: int| 0 <= x < hf.len() implies hf[x] <= self.clock by {
                            assert(self.frames@[b as int].history@[x] <= self.clock);
                        }
                        assert forall|x: int| 0 <= x < hg.len() implies hg[x] <= self.clock by {
                            assert(self.frames@[j].history@[x] <= self.clock);
                        }
                        lemma_score_order(hf, hg, self.k as nat, self.clock);
                    }
                }
                self.frames.remove(b);
                proof {
                    lemma_map_of_remove(before, b as int);
                    assert(self.frames@ == before.remove(b as int));
                }
                Some(victim)
            },
            None => {
                proof {
                    assert forall|g: u32|
                        #![trigger old(self).entries()[g]]
                        old(self).entries().dom().contains(g) implies !old(self).entries()[g].1 by {
                        lemma_map_of_dom(self.frames@, g);
                        let j = choose|j: int| 0 <= j < self.frames@.len() && slot_key(#[trigger] self.frames@[j]) == g;
                        lemma_map_of_index(self.frames@, j);
                    }
                }
                None
            },
        }
    }

    /// Forgets `frame_id`.
    pub fn remove(&mut self, frame_id: FrameId)
        requires
            old(self).inv(),
        ensures
            final(self).inv(),
            final(self).spec_k() == old(self).spec_k(),
            final(self).spec_clock() == old(self).spec_clock(),
            final(self).entries() == old(self).entries().remove(frame_id.0),
    {
        match self.find(frame_id) {
            Some(i) => {
                let ghost before = self.frames@;
                self.frames.remove(i);
                proof {
                    lemma_map_of_remove(before, i as int);
                }
            },
            None => {
                assert(self.entries() =~= old(self).entries().remove(frame_id.0));
            },
        }
    }

    /// How many known frames are evictable.
    pub fn size(&self) -> (n: usize)
        requires
            self.inv(),
        ensures
            n == self.entries().dom().filter(|g: u32| self.entries()[g].1).len(),
    {
        let mut n: usize = 0;
        let mut i: usize = 0;
        proof {
            let e = self.frames@.take(0);
            assert(e =~= Seq::<FrameSlot>::empty());
            assert(map_of(e) =~= Map::<u32, FrameView>::empty());
            assert(map_of(e).dom().filter(|g: u32| map_of(e)[g].1) =~= Set::<u32>::empty());
        }
        while i < self.frames.len()
            invariant
                i <= self.frames@.len(),
                n <= i,
                distinct_keys(self.frames@),
                n == map_of(self.frames@.take(i as int)).dom().filter(
                    |g: u32| map_of(self.frames@.take(i as int))[g].1,
                ).len(),
            decreases self.frames@.len() - i,
        {
            let ghost prefix = self.frames@.take(i as int);
            let ghost next = self.frames@.take(i as int + 1);
            proof {
                assert(next.drop_last() =~= prefix);
                lemma_evictable_count_step(next);
            }
            if self.frames[i].evictable {
                n = n + 1;
            }
            i = i + 1;
        }
        assert(self.frames@.take(i as int) =~= self.frames@);
        n
    }
}

spec fn evictable_ids(m: Map<u32, FrameView>) -> Set<u32> {
    m.dom().filter(|g: u32| m[g].1)
}

/// Counting evictable frames one slot at a time.
proof fn lemma_evictable_count_step(slots: Seq<FrameSlot>)
    requires
        slots.len() > 0,
        distinct_keys(slots),
    ensures
        map_of(slots).dom().filter(|g: u32| map_of(slots)[g].1).len() == map_of(
            slots.drop_last(),
        ).dom().filter(|g: u32| map_of(slots.drop_last())[g].1).len() + if slots.last().evictable {
            1int
        } else {
            0int
        },
{
    let init = slots.drop_last();
    let last = slots.last();
    assert forall|a: int, b: int| 0 <= a < b < init.len() implies slot_key(#[trigger] init[a]) != slot_key(
        #[trigger] init[b],
    ) by {
        assert(init[a] == slots[a]);
        assert(init[b] == slots[b]);
    }
    lemma_map_of_dom(init, slot_key(last));
    if map_of(init).dom().contains(slot_key(last)) {
        let j = choose|j: int| 0 <= j < init.len() && slot_key(#[trigger] init[j]) == slot_key(last);
        assert(init[j] == slots[j]);
        assert(slot_key(slots[j]) != slot_key(slots[slots.len() - 1]));
    }
    lemma_map_of_finite(init);
    let a = evictable_ids(map_of(init));
    let b = evictable_ids(map_of(slots));
    if last.evictable {
        assert(b =~= a.insert(slot_key(last)));
    } else {
        assert(b =~= a);
    }
}

proof fn lemma_map_of_finite(slots: Seq<FrameSlot>)
    ensures
        map_of(slots).dom().finite(),
        evictable_ids(map_of(slots)).finite(),
    decreases slots.len(),
{
    if slots.len() > 0 {
        lemma_map_of_finite(slots.drop_last());
    }
    let m = map_of(slots);
    assert(evictable_ids(m).subset_of(m.dom()));
    vstd::set_lib::lemma_set_subset_finite(m.dom(), evictable_ids(m));
}

} // verus!
