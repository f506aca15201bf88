//! The version chains of every row that a live transaction touched, with
//! the bookkeeping that commits, rolls back and prunes them.

use vstd::prelude::*;

use crate::ids::{Rid, TxnId};
use crate::keyed::KeyedVec;
use crate::txn::mvcc::{globally_visible, not_created_by, visible_to, VersionChain, VersionEntry};

verus! {

/// The map key of a record identifier: its page number above its slot.
pub open spec fn rid_key(rid: Rid) -> u64 {
    (rid.page_id.0 as int * 65536 + rid.slot as int) as u64
}

pub proof fn lemma_rid_key_injective(a: Rid, b: Rid)
    ensures
        rid_key(a) == rid_key(b) ==> a == b,
{
    let ka = a.page_id.0 as int * 65536 + a.slot as int;
    let kb = b.page_id.0 as int * 65536 + b.slot as int;
    assert(0 <= ka < 0x1_0000_0000_0000);
    assert(0 <= kb < 0x1_0000_0000_0000);
    if ka == kb {
        assert(a.page_id.0 == b.page_id.0);
        assert(a.slot == b.slot);
    }
}

fn key_of(rid: Rid) -> (k: u64)
    ensures
        k == rid_key(rid),
{
    (rid.page_id.0 as u64) * 65536 + (rid.slot as u64)
}

/// What the store holds: the version chain of each row, the rows each live
/// transaction created, and the rows waiting to be pruned under the
/// timestamp from which they may be.
pub struct StoreView {
    pub chains: Map<u64, Seq<VersionEntry>>,
    pub write_sets: Map<u64, Seq<Rid>>,
    pub candidates: Map<u64, Seq<Rid>>,
}

/// The value under `k`, or the empty sequence.
pub open spec fn seq_or_empty<T>(m: Map<u64, Seq<T>>, k: u64) -> Seq<T> {
    if m.dom().contains(k) {
        m[k]
    } else {
        Seq::empty()
    }
}

/// The version a transaction writes when it creates a row.
pub open spec fn fresh_entry(txn_id: TxnId) -> VersionEntry {
    VersionEntry { creator_txn_id: txn_id, begin_ts: None, end_ts: None }
}

/// Whether one of `rids` is stored under `k`.
pub open spec fn touches(rids: Seq<Rid>, k: u64) -> bool {
    exists|i: int| 0 <= i < rids.len() && rid_key(#[trigger] rids[i]) == k
}

pub open spec fn commit_entry(e: VersionEntry, txn_id: TxnId, commit_ts: u64) -> VersionEntry {
    if e.creator_txn_id == txn_id {
        VersionEntry { begin_ts: Some(commit_ts), ..e }
    } else {
        e
    }
}

/// A chain with every version `txn_id` created stamped as committed.
pub open spec fn committed_chain(s: Seq<VersionEntry>, txn_id: TxnId, commit_ts: u64) -> Seq<
    VersionEntry,
> {
    Seq::new(s.len(), |i: int| commit_entry(s[i], txn_id, commit_ts))
}

/// Whether a chain can go once every reader's timestamp is at least
/// `watermark`.
pub open spec fn prunable(s: Seq<VersionEntry>, watermark: u64) -> bool {
    s.len() == 0 || match (s[0].begin_ts, s[0].end_ts) {
        (Some(begin_ts), None) => begin_ts <= watermark,
        _ => false,
    }
}

/// Whether a reader at `read_ts` sees some version of the chain.
pub open spec fn any_visible(s: Seq<VersionEntry>, read_ts: u64) -> bool {
    exists|i: int| 0 <= i < s.len() && globally_visible(#[trigger] s[i], read_ts)
}

/// Whether `reader` at `read_ts` sees some version of the chain.
pub open spec fn any_visible_to(s: Seq<VersionEntry>, reader: TxnId, read_ts: u64) -> bool {
    exists|i: int| 0 <= i < s.len() && visible_to(#[trigger] s[i], reader, read_ts)
}

/// Whether a reader at `read_ts` sees the row: a row with no chain is
/// visible to everyone.
pub open spec fn row_visible(v: StoreView, rid: Rid, read_ts: u64) -> bool {
    !v.chains.dom().contains(rid_key(rid)) || any_visible(v.chains[rid_key(rid)], read_ts)
}

pub open spec fn row_visible_to(v: StoreView, rid: Rid, reader: TxnId, read_ts: u64) -> bool {
    !v.chains.dom().contains(rid_key(rid)) || any_visible_to(
        v.chains[rid_key(rid)],
        reader,
        read_ts,
    )
}

/// The store after `txn_id` creates a version of `rid`.
pub open spec fn after_record(v: StoreView, txn_id: TxnId, rid: Rid) -> StoreView {
    StoreView {
        chains: v.chains.insert(
            rid_key(rid),
            seq![fresh_entry(txn_id)] + seq_or_empty(v.chains, rid_key(rid)),
        ),
        write_sets: v.write_sets.insert(txn_id.0, seq_or_empty(v.write_sets, txn_id.0).push(rid)),
        candidates: v.candidates,
    }
}

/// The chains after every chain one of `rids` names has `txn_id`'s
/// versions committed at `commit_ts`.
pub open spec fn commit_chains(
    chains: Map<u64, Seq<VersionEntry>>,
    rids: Seq<Rid>,
    txn_id: TxnId,
    commit_ts: u64,
) -> Map<u64, Seq<VersionEntry>> {
    Map::new(
        |k: u64| chains.dom().contains(k),
        |k: u64|
            if touches(rids, k) {
                committed_chain(chains[k], txn_id, commit_ts)
            } else {
                chains[k]
            },
    )
}

/// The store after `txn_id` commits at `commit_ts`: its versions are
/// stamped, its write set is dropped, and its rows wait to be pruned from
/// `commit_ts` on. A transaction that wrote nothing leaves it unchanged.
pub open spec fn after_commit(v: StoreView, txn_id: TxnId, commit_ts: u64) -> StoreView {
    if v.write_sets.dom().contains(txn_id.0) {
        let rids = v.write_sets[txn_id.0];
        StoreView {
            chains: commit_chains(v.chains, rids, txn_id, commit_ts),
            write_sets: v.write_sets.remove(txn_id.0),
            candidates: v.candidates.insert(commit_ts, seq_or_empty(v.candidates, commit_ts) + rids),
        }
    } else {
        v
    }
}

/// The chains after `txn_id`'s versions are dropped from every chain one
/// of `rids` names.
pub open spec fn abort_chains(
    chains: Map<u64, Seq<VersionEntry>>,
    rids: Seq<Rid>,
    txn_id: TxnId,
) -> Map<u64, Seq<VersionEntry>> {
    Map::new(
        |k: u64| chains.dom().contains(k),
        |k: u64|
            if touches(rids, k) {
                chains[k].filter(not_created_by(txn_id))
            } else {
                chains[k]
            },
    )
}

/// The rows whose chain holds nothing once `txn_id`'s versions are gone.
pub open spec fn emptied_by(chains: Map<u64, Seq<VersionEntry>>, txn_id: TxnId) -> spec_fn(
    Rid,
) -> bool {
    |r: Rid|
        chains.dom().contains(rid_key(r)) && chains[rid_key(r)].filter(not_created_by(txn_id)).len()
            == 0
}

/// The store after `txn_id` rolls back: its versions are dropped, its
/// write set too, and the rows left with an empty chain wait to be pruned
/// from `next_ts` on.
pub open spec fn after_abort(v: StoreView, txn_id: TxnId, next_ts: u64) -> StoreView {
    if v.write_sets.dom().contains(txn_id.0) {
        let rids = v.write_sets[txn_id.0];
        let emptied = rids.filter(emptied_by(v.chains, txn_id));
        StoreView {
            chains: abort_chains(v.chains, rids, txn_id),
            write_sets: v.write_sets.remove(txn_id.0),
            candidates: if emptied.len() == 0 {
                v.candidates
            } else {
                v.candidates.insert(next_ts, seq_or_empty(v.candidates, next_ts) + emptied)
            },
        }
    } else {
        v
    }
}

/// Whether pruning at `watermark` drops the chain under `k`: it is
/// prunable and a row waiting under a timestamp at or below the watermark
/// names it.
pub open spec fn doomed(v: StoreView, watermark: u64, k: u64) -> bool {
    v.chains.dom().contains(k) && prunable(v.chains[k], watermark) && exists|ts: u64|
        #![trigger v.candidates[ts]]
        v.candidates.dom().contains(ts) && ts <= watermark && touches(v.candidates[ts], k)
}

/// The store after pruning at `watermark`.
pub open spec fn after_prune(v: StoreView, watermark: u64) -> StoreView {
    StoreView {
        chains: Map::new(|k: u64| v.chains.dom().contains(k) && !doomed(v, watermark, k), |k: u64| v.chains[k]),
        write_sets: v.write_sets,
        candidates: Map::new(
            |ts: u64| v.candidates.dom().contains(ts) && ts > watermark,
            |ts: u64| v.candidates[ts],
        ),
    }
}

/// Whether a row waiting under one of the timestamps in `done`, at or below
/// `watermark`, names the chain under `k`, and that chain is prunable.
pub open spec fn doomed_by(v: StoreView, watermark: u64, done: Seq<u64>, k: u64) -> bool {
    prunable(v.chains[k], watermark) && exists|ts: u64|
        #![trigger v.candidates[ts], done.contains(ts)]
        done.contains(ts) && ts <= watermark && v.candidates.dom().contains(ts) && touches(
            v.candidates[ts],
            k,
        )
}

pub proof fn lemma_filter_idempotent<A>(s: Seq<A>, p: spec_fn(A) -> bool)
    ensures
        s.filter(p).filter(p) == s.filter(p),
    decreases s.len(),
{
    reveal(Seq::filter);
    if s.len() > 0 {
        lemma_filter_idempotent(s.drop_last(), p);
        let sub = s.drop_last().filter(p);
        if p(s.last()) {
            assert(sub.push(s.last()).drop_last() =~= sub);
            assert(sub.push(s.last()).last() == s.last());
        }
    }
}

proof fn lemma_committed_idempotent(s: Seq<VersionEntry>, txn_id: TxnId, ts: u64)
    ensures
        committed_chain(committed_chain(s, txn_id, ts), txn_id, ts) == committed_chain(
            s,
            txn_id,
            ts,
        ),
{
    assert(committed_chain(committed_chain(s, txn_id, ts), txn_id, ts) =~= committed_chain(
        s,
        txn_id,
        ts,
    ));
}

proof fn lemma_touches_push(rids: Seq<Rid>, r: Rid, k: u64)
    ensures
        touches(rids.push(r), k) == (touches(rids, k) || rid_key(r) == k),
{
    let p = rids.push(r);
    if touches(rids, k) {
        let i = choose|i: int| 0 <= i < rids.len() && rid_key(#[trigger] rids[i]) == k;
        assert(p[i] == rids[i]);
    }
    if rid_key(r) == k {
        assert(p[rids.len() as int] == r);
    }
    if touches(p, k) {
        let i = choose|i: int| 0 <= i < p.len() && rid_key(#[trigger] p[i]) == k;
        if i < rids.len() {
            assert(p[i] == rids[i]);
        }
    }
}

/// The version chains of the rows live transactions have written.
pub struct VersionStore {
    chains: KeyedVec<VersionChain>,
    write_sets: KeyedVec<Vec<Rid>>,
    prune_candidates: KeyedVec<Vec<Rid>>,
}

impl VersionStore {
    pub closed spec fn view(&self) -> StoreView {
        StoreView {
            chains: self.chains.view().map_values(|c: VersionChain| c.entries()),
            write_sets: self.write_sets.view().map_values(|v: Vec<Rid>| v@),
            candidates: self.prune_candidates.view().map_values(|v: Vec<Rid>| v@),
        }
    }

    pub closed spec fn inv(&self) -> bool {
        &&& self.chains.inv()
        &&& self.write_sets.inv()
        &&& self.prune_candidates.inv()
    }

    pub fn new() -> (s: Self)
        ensures
            s.inv(),
            s.view().chains == Map::<u64, Seq<VersionEntry>>::empty(),
            s.view().write_sets == Map::<u64, Seq<Rid>>::empty(),
            s.view().candidates == Map::<u64, Seq<Rid>>::empty(),
    {
        let s = VersionStore {
            chains: KeyedVec::new(),
            write_sets: KeyedVec::new(),
            prune_candidates: KeyedVec::new(),
        };
        assert(s.view().chains =~= Map::<u64, Seq<VersionEntry>>::empty());
        assert(s.view().write_sets =~= Map::<u64, Seq<Rid>>::empty());
        assert(s.view().candidates =~= Map::<u64, Seq<Rid>>::empty());
        s
    }

    /// Records that `txn_id` created a version of `rid`.
    pub fn record_insert(&mut self, txn_id: TxnId, rid: Rid)
        requires
            old(self).inv(),
        ensures
            final(self).inv(),
            final(self).view() == after_record(old(self).view(), txn_id, rid),
    {
        let k = key_of(rid);
        let mut chain = match self.chains.remove(k) {
            Some(c) => c,
            None => VersionChain::new(),
        };
        chain.push(VersionEntry { creator_txn_id: txn_id, begin_ts: None, end_ts: None });
        self.chains.insert(k, chain);
        let mut rids = match self.write_sets.remove(txn_id.0) {
            Some(v) => v,
            None => Vec::new(),
        };
        rids.push(rid);
        self.write_sets.insert(txn_id.0, rids);
        proof {
            let v = after_record(old(self).view(), txn_id, rid);
            assert(self.view().chains =~= v.chains);
            assert(self.view().write_sets =~= v.write_sets);
            assert(self.view().candidates =~= v.candidates);
        }
    }
    /// Stamps every version `txn_id` created as committed at `commit_ts`,
    /// drops its write set, and queues its rows for pruning from
    /// `commit_ts` on.
    pub fn commit_versions(&mut self, txn_id: TxnId, commit_ts: u64)
        requires
            old(self).inv(),
        ensures
            final(self).inv(),
            final(self).view() == after_commit(old(self).view(), txn_id, commit_ts),
    {
        let ghost v0 = self.view();
        let mut rids = match self.write_sets.remove(txn_id.0) {
            Some(v) => v,
            None => {
                assert(self.view().write_sets =~= v0.write_sets);
                return ;
            },
        };
        let ghost ws1 = self.write_sets;
        let ghost cands0 = self.prune_candidates;
        proof {
            assert(commit_chains(v0.chains, rids@.take(0), txn_id, commit_ts) =~= v0.chains);
        }
        let mut i: usize = 0;
        while i < rids.len()
            invariant
                self.inv(),
                i <= rids@.len(),
                self.write_sets == ws1,
                self.prune_candidates == cands0,
                self.view().chains == commit_chains(v0.chains, rids@.take(i as int), txn_id, commit_ts),
            decreases rids@.len() - i,
        {
            let rid = rids[i];
            let k = key_of(rid);
            let ghost before = self.view().chains;
            let ghost raw = self.chains.view();
            match self.chains.remove(k) {
                Some(mut chain) => {
                    let ghost c0 = chain.entries();
                    assert(c0 == before[k]);
                    chain.mark_committed(txn_id, commit_ts);
                    assert(chain.entries() =~= committed_chain(c0, txn_id, commit_ts));
                    self.chains.insert(k, chain);
                    assert(self.chains.view() == raw.insert(k, chain));
                    assert(self.view().chains[k] == committed_chain(before[k], txn_id, commit_ts));
                },
                None => {
                    assert(self.chains.view() =~= raw);
                },
            }
            proof {
                let pre = rids@.take(i as int);
                let post = rids@.take(i as int + 1);
                assert(post =~= pre.push(rid));
                let target = commit_chains(v0.chains, post, txn_id, commit_ts);
                assert forall|kk: u64| #[trigger] target.dom().contains(kk) implies self.view().chains.dom().contains(kk) && self.view().chains[kk] == target[kk] by {
                    lemma_touches_push(pre, rid, kk);
                    assert(before.dom().contains(kk));
                    if kk == k {
                        lemma_committed_idempotent(v0.chains[kk], txn_id, commit_ts);
                        assert(touches(post, kk));
                    } else {
                        assert(self.chains.view()[kk] == raw[kk]);
                        assert(self.view().chains[kk] == before[kk]);
                    }
                }
                assert forall|kk: u64| #[trigger] self.view().chains.dom().contains(kk) implies target.dom().contains(kk) by {}
                assert(self.view().chains =~= target);
            }
            i = i + 1;
        }
        let mut list = match self.prune_candidates.remove(commit_ts) {
            Some(v) => v,
            None => Vec::new(),
        };
        let ghost rids0 = rids@;
        list.append(&mut rids);
        self.prune_candidates.insert(commit_ts, list);
        proof {
            let v = after_commit(v0, txn_id, commit_ts);
            assert(rids0.take(rids0.len() as int) =~= rids0);
            assert(self.view().chains =~= v.chains);
            assert(self.view().write_sets =~= v.write_sets);
            assert(self.view().candidates =~= v.candidates);
        }
    }
    /// Drops every version `txn_id` created and its write set; the rows
    /// whose chain is left empty wait to be pruned from `next_ts` on.
    pub fn abort_versions(&mut self, txn_id: TxnId, next_ts: u64)
        requires
            old(self).inv(),
        ensures
            final(self).inv(),
            final(self).view() == after_abort(old(self).view(), txn_id, next_ts),
    {
        let ghost v0 = self.view();
        let rids = match self.write_sets.remove(txn_id.0) {
            Some(v) => v,
            None => {
                assert(self.view().write_sets =~= v0.write_sets);
                return ;
            },
        };
        let ghost ws1 = self.write_sets;
        let ghost cands0 = self.prune_candidates;
        let ghost q = emptied_by(v0.chains, txn_id);
        let ghost p = not_created_by(txn_id);
        proof {
            assert(abort_chains(v0.chains, rids@.take(0), txn_id) =~= v0.chains);
            reveal(Seq::filter);
            assert(rids@.take(0).filter(q) =~= Seq::<Rid>::empty());
        }
        let mut emptied: Vec<Rid> = Vec::new();
        let mut i: usize = 0;
        while i < rids.len()
            invariant
                self.inv(),
                i <= rids@.len(),
                self.write_sets == ws1,
                self.prune_candidates == cands0,
                q == emptied_by(v0.chains, txn_id),
                p == not_created_by(txn_id),
                self.view().chains == abort_chains(v0.chains, rids@.take(i as int), txn_id),
                emptied@ == rids@.take(i as int).filter(q),
            decreases rids@.len() - i,
        {
            let rid = rids[i];
            let k = key_of(rid);
            let ghost before = self.view().chains;
            let ghost raw = self.chains.view();
            let ghost pre = rids@.take(i as int);
            let ghost post = rids@.take(i as int + 1);
            proof {
                assert(post =~= pre.push(rid));
                pre.lemma_filter_push(rid, q);
            }
            match self.chains.remove(k) {
                Some(mut chain) => {
                    let ghost c0 = chain.entries();
                    assert(c0 == before[k]);
                    chain.remove_creator(txn_id);
                    proof {
                        lemma_filter_idempotent(v0.chains[k], p);
                        lemma_touches_push(pre, rid, k);
                        assert(chain.entries() == v0.chains[k].filter(p));
                    }
                    let now_empty = chain.is_empty();
                    self.chains.insert(k, chain);
                    assert(self.chains.view() == raw.insert(k, chain));
                    assert(before.dom().contains(k));
                    assert(v0.chains.dom().contains(k));
                    if now_empty {
                        emptied.push(rid);
                        assert(q(rid));
                    } else {
                        assert(!q(rid));
                    }
                },
                None => {
                    assert(self.chains.view() =~= raw);
                    assert(!before.dom().contains(k));
                    assert(!v0.chains.dom().contains(k));
                    assert(!q(rid));
                },
            }
            proof {
                let target = abort_chains(v0.chains, post, txn_id);
                assert forall|kk: u64| #[trigger] target.dom().contains(kk) implies self.view().chains.dom().contains(kk) && self.view().chains[kk] == target[kk] by {
                    lemma_touches_push(pre, rid, kk);
                    assert(before.dom().contains(kk));
                    if kk == k {
                        assert(touches(post, kk));
                    } else {
                        assert(self.chains.view()[kk] == raw[kk]);
                        assert(self.view().chains[kk] == before[kk]);
                    }
                }
                assert forall|kk: u64| #[trigger] self.view().chains.dom().contains(kk) implies target.dom().contains(kk) by {}
                assert(self.view().chains =~= target);
            }
            i = i + 1;
        }
        proof {
            assert(rids@.take(rids@.len() as int) =~= rids@);
        }
        if emptied.len() > 0 {
            let mut list = match self.prune_candidates.remove(next_ts) {
                Some(v) => v,
                None => Vec::new(),
            };
            list.append(&mut emptied);
            self.prune_candidates.insert(next_ts, list);
        }
        proof {
            let v = after_abort(v0, txn_id, next_ts);
            assert(self.view().chains =~= v.chains);
            assert(self.view().write_sets =~= v.write_sets);
            assert(self.view().candidates =~= v.candidates);
        }
    }
    /// Drops the chains that no reader at or above `watermark` needs: those
    /// queued under a timestamp at or below it whose chain is prunable.
    pub fn prune(&mut self, watermark: u64)
        requires
            old(self).inv(),
        ensures
            final(self).inv(),
            final(self).view() == after_prune(old(self).view(), watermark),
    {
        let ghost v0 = self.view();
        let ks = self.prune_candidates.keys();
        let ghost ws0 = self.write_sets;
        proof {
            assert(ks@.take(0) =~= Seq::<u64>::empty());
            assert(self.view().candidates =~= Map::new(
                |ts: u64| v0.candidates.dom().contains(ts) && !(ts <= watermark && ks@.take(0).contains(ts)),
                |ts: u64| v0.candidates[ts],
            ));
            assert(self.view().chains =~= Map::new(
                |k: u64| v0.chains.dom().contains(k) && !doomed_by(v0, watermark, ks@.take(0), k),
                |k: u64| v0.chains[k],
            ));
        }
        let mut j: usize = 0;
        while j < ks.len()
            invariant
                self.inv(),
                j <= ks@.len(),
                self.write_sets == ws0,
                forall|t: u64| v0.candidates.dom().contains(t) <==> ks@.contains(t),
                forall|a: int, b: int| 0 <= a < b < ks@.len() ==> ks@[a] != ks@[b],
                self.view().candidates == Map::new(
                    |ts: u64| v0.candidates.dom().contains(ts) && !(ts <= watermark && ks@.take(j as int).contains(ts)),
                    |ts: u64| v0.candidates[ts],
                ),
                self.view().chains == Map::new(
                    |k: u64| v0.chains.dom().contains(k) && !doomed_by(v0, watermark, ks@.take(j as int), k),
                    |k: u64| v0.chains[k],
                ),
            decreases ks@.len() - j,
        {
            let ts = ks[j];
            let ghost done = ks@.take(j as int);
            let ghost done1 = ks@.take(j as int + 1);
            proof {
                assert(done1 =~= done.push(ts));
                assert forall|t: u64| done1.contains(t) <==> (done.contains(t) || t == ts) by {
                    if done1.contains(t) {
                        let a = choose|a: int| 0 <= a < done1.len() && done1[a] == t;
                        if a < done.len() {
                            assert(done[a] == t);
                        }
                    }
                    if done.contains(t) {
                        let a = choose|a: int| 0 <= a < done.len() && done[a] == t;
                        assert(done1[a] == t);
                    }
                    if t == ts {
                        assert(done1[j as int] == t);
                    }
                }
                assert(!done.contains(ts)) by {
                    if done.contains(ts) {
                        let a = choose|a: int| 0 <= a < done.len() && done[a] == ts;
                        assert(ks@[a] == ks@[j as int]);
                    }
                }
                assert(ks@.contains(ts)) by {
                    assert(ks@[j as int] == ts);
                }
            }
            if ts <= watermark {
                let ghost cands_before = self.view().candidates;
                assert(cands_before.dom().contains(ts));
                let ghost rawc = self.prune_candidates.view();
                assert(cands_before[ts] == v0.candidates[ts]);
                let rids = match self.prune_candidates.remove(ts) {
                    Some(v) => {
                        assert(v == rawc[ts]);
                        assert(v@ == cands_before[ts]);
                        v
                    },
                    None => {
                        assert(!rawc.dom().contains(ts));
                        assert(false);
                        Vec::new()
                    },
                };
                assert(rids@ == v0.candidates[ts]);
                assert(self.prune_candidates.view() == rawc.remove(ts));
                let ghost chains_done = self.view().chains;
                proof {
                    let tc = Map::new(
                        |t: u64| v0.candidates.dom().contains(t) && !(t <= watermark && done1.contains(t)),
                        |t: u64| v0.candidates[t],
                    );
                    assert forall|t: u64|
                        #![trigger tc.dom().contains(t)]
                        #![trigger self.view().candidates.dom().contains(t)]
                        tc.dom().contains(t) <==> self.view().candidates.dom().contains(t) by {
                        assert(done1.contains(t) <==> (done.contains(t) || t == ts));
                        assert(cands_before.dom().contains(t) <==> rawc.dom().contains(t));
                    }
                    assert forall|t: u64| #[trigger] tc.dom().contains(t) implies self.view().candidates[t] == tc[t] by {
                        assert(done1.contains(t) <==> (done.contains(t) || t == ts));
                        assert(cands_before.dom().contains(t));
                        assert(t != ts);
                        assert(self.prune_candidates.view()[t] == rawc[t]);
                        assert(cands_before[t] == v0.candidates[t]);
                        assert(cands_before[t] == rawc[t]@);
                        assert(self.view().candidates[t] == self.prune_candidates.view()[t]@);
                    }
                    assert(self.view().candidates =~= tc);
                    assert(self.view().chains =~= Map::new(
                        |k: u64| v0.chains.dom().contains(k) && !doomed_by(v0, watermark, done, k)
                            && !(prunable(v0.chains[k], watermark) && touches(rids@.take(0), k)),
                        |k: u64| v0.chains[k],
                    ));
                }
                let ghost cands_after = self.prune_candidates;
                let mut m: usize = 0;
                while m < rids.len()
                    invariant
                        self.inv(),
                        m <= rids@.len(),
                        self.write_sets == ws0,
                        self.prune_candidates == cands_after,
                        self.view().chains == Map::new(
                            |k: u64| v0.chains.dom().contains(k) && !doomed_by(v0, watermark, done, k)
                                && !(prunable(v0.chains[k], watermark) && touches(rids@.take(m as int), k)),
                            |k: u64| v0.chains[k],
                        ),
                    decreases rids@.len() - m,
                {
                    let rid = rids[m];
                    let k = key_of(rid);
                    let ghost raw = self.chains.view();
                    let ghost before = self.view().chains;
                    let ghost pre = rids@.take(m as int);
                    let ghost post = rids@.take(m as int + 1);
                    let drop = match self.chains.get(k) {
                        Some(c) => {
                            assert(c.entries() == before[k]);
                            c.is_prunable(watermark)
                        },
                        None => false,
                    };
                    if drop {
                        self.chains.remove(k);
                    }
                    proof {
                        assert(post =~= pre.push(rid));
                        let target = Map::new(
                            |kk: u64| v0.chains.dom().contains(kk) && !doomed_by(v0, watermark, done, kk)
                                && !(prunable(v0.chains[kk], watermark) && touches(post, kk)),
                            |kk: u64| v0.chains[kk],
                        );
                        assert forall|kk: u64| #[trigger] target.dom().contains(kk) implies self.view().chains.dom().contains(kk) && self.view().chains[kk] == target[kk] by {
                            lemma_touches_push(pre, rid, kk);
                            assert(before.dom().contains(kk));
                            assert(before[kk] == v0.chains[kk]);
                            if kk != k {
                                assert(self.chains.view().dom().contains(kk));
                                assert(self.chains.view()[kk] == raw[kk]);
                            } else {
                                assert(raw.dom().contains(kk));
                                assert(touches(post, kk));
                                assert(!prunable(v0.chains[kk], watermark));
                                assert(!drop);
                            }
                        }
                        assert forall|kk: u64| #[trigger] self.view().chains.dom().contains(kk) implies target.dom().contains(kk) by {
                            lemma_touches_push(pre, rid, kk);
                            assert(before.dom().contains(kk));
                            if kk == k {
                                assert(!drop);
                                assert(raw.dom().contains(kk));
                            }
                        }
                        assert(self.view().chains =~= target);
                    }
                    m = m + 1;
                }
                proof {
                    assert(rids@.take(rids@.len() as int) =~= rids@);
                    let target = Map::new(
                        |k: u64| v0.chains.dom().contains(k) && !doomed_by(v0, watermark, done1, k),
                        |k: u64| v0.chains[k],
                    );
                    assert forall|k: u64| v0.chains.dom().contains(k) implies doomed_by(v0, watermark, done1, k) == (doomed_by(v0, watermark, done, k) || (prunable(v0.chains[k], watermark) && touches(rids@, k))) by {
                        if doomed_by(v0, watermark, done1, k) {
                            let t = choose|t: u64|
                                #![trigger v0.candidates[t], done1.contains(t)]
                                done1.contains(t) && t <= watermark && v0.candidates.dom().contains(t) && touches(v0.candidates[t], k);
                            if t != ts {
                                assert(done.contains(t));
                            }
                        }
                        if doomed_by(v0, watermark, done, k) {
                            let t = choose|t: u64|
                                #![trigger v0.candidates[t], done.contains(t)]
                                done.contains(t) && t <= watermark && v0.candidates.dom().contains(t) && touches(v0.candidates[t], k);
                            assert(done1.contains(t));
                        }
                        if prunable(v0.chains[k], watermark) && touches(rids@, k) {
                            assert(done1.contains(ts));
                            assert(v0.candidates[ts] == rids@);
                        }
                    }
                    assert(self.view().chains =~= target);
                }
            } else {
                proof {
                    assert forall|k: u64| v0.chains.dom().contains(k) implies doomed_by(v0, watermark, done1, k) == doomed_by(v0, watermark, done, k) by {
                        if doomed_by(v0, watermark, done1, k) {
                            let t = choose|t: u64|
                                #![trigger v0.candidates[t], done1.contains(t)]
                                done1.contains(t) && t <= watermark && v0.candidates.dom().contains(t) && touches(v0.candidates[t], k);
                            assert(done.contains(t));
                        }
                        if doomed_by(v0, watermark, done, k) {
                            let t = choose|t: u64|
                                #![trigger v0.candidates[t], done.contains(t)]
                                done.contains(t) && t <= watermark && v0.candidates.dom().contains(t) && touches(v0.candidates[t], k);
                            assert(done1.contains(t));
                        }
                    }
                    assert(self.view().chains =~= Map::new(
                        |k: u64| v0.chains.dom().contains(k) && !doomed_by(v0, watermark, done1, k),
                        |k: u64| v0.chains[k],
                    ));
                    assert(self.view().candidates =~= Map::new(
                        |t: u64| v0.candidates.dom().contains(t) && !(t <= watermark && done1.contains(t)),
                        |t: u64| v0.candidates[t],
                    ));
                }
            }
            j = j + 1;
        }
        proof {
            assert(ks@.take(ks@.len() as int) =~= ks@);
            let v = after_prune(v0, watermark);
            assert forall|k: u64| v0.chains.dom().contains(k) implies doomed_by(v0, watermark, ks@, k) == doomed(v0, watermark, k) by {
                if doomed(v0, watermark, k) {
                    let t = choose|t: u64|
                        #![trigger v0.candidates[t]]
                        v0.candidates.dom().contains(t) && t <= watermark && touches(v0.candidates[t], k);
                    assert(ks@.contains(t));
                }
            }
            assert(self.view().chains =~= v.chains);
            assert(self.view().write_sets =~= v.write_sets);
            assert(self.view().candidates =~= v.candidates);
        }
    }
    /// Whether a reader at `read_ts` sees `rid`: a row with no chain is
    /// visible to everyone.
    pub fn is_visible(&self, rid: Rid, read_ts: u64) -> (b: bool)
        requires
            self.inv(),
        ensures
            b == row_visible(self.view(), rid, read_ts),
    {
        match self.chains.get(key_of(rid)) {
            Some(chain) => {
                let r = chain.visible_version(read_ts);
                proof {
                    let s = chain.entries();
                    if any_visible(s, read_ts) {
                        let i = choose|i: int| 0 <= i < s.len() && globally_visible(#[trigger] s[i], read_ts);
                        assert(globally_visible(s[i], read_ts));
                    }
                }
                r.is_some()
            },
            None => true,
        }
    }

    /// Whether `reader_txn_id` at `read_ts` sees `rid`, counting the
    /// versions it created itself.
    pub fn is_visible_to(&self, rid: Rid, reader_txn_id: TxnId, read_ts: u64) -> (b: bool)
        requires
            self.inv(),
        ensures
            b == row_visible_to(self.view(), rid, reader_txn_id, read_ts),
    {
        match self.chains.get(key_of(rid)) {
            Some(chain) => {
                let r = chain.visible_version_for(reader_txn_id, read_ts);
                proof {
                    let s = chain.entries();
                    if any_visible_to(s, reader_txn_id, read_ts) {
                        let i = choose|i: int| 0 <= i < s.len() && visible_to(#[trigger] s[i], reader_txn_id, read_ts);
                        assert(visible_to(s[i], reader_txn_id, read_ts));
                    }
                }
                r.is_some()
            },
            None => true,
        }
    }

    /// How many rows have a chain.
    pub fn chain_count(&self) -> (n: usize)
        requires
            self.inv(),
        ensures
            n == self.view().chains.dom().len(),
    {
        let n = self.chains.len();
        assert(self.view().chains.dom() =~= self.chains.view().dom());
        n
    }
}

/// A transaction always sees the row it has just written itself.
pub proof fn lemma_own_insert_visible(v: StoreView, txn_id: TxnId, rid: Rid, read_ts: u64)
    ensures
        row_visible_to(after_record(v, txn_id, rid), rid, txn_id, read_ts),
{
    let s = after_record(v, txn_id, rid).chains[rid_key(rid)];
    assert(s[0] == fresh_entry(txn_id));
    assert(visible_to(s[0], txn_id, read_ts));
}

/// A row written into a store that had no chain for it is invisible to
/// every reader but its writer until the writer commits.
pub proof fn lemma_uncommitted_insert_invisible(
    v: StoreView,
    txn_id: TxnId,
    rid: Rid,
    reader: TxnId,
    read_ts: u64,
)
    requires
        !v.chains.dom().contains(rid_key(rid)),
        reader != txn_id,
    ensures
        !row_visible(after_record(v, txn_id, rid), rid, read_ts),
        !row_visible_to(after_record(v, txn_id, rid), rid, reader, read_ts),
{
    let s = after_record(v, txn_id, rid).chains[rid_key(rid)];
    assert(s =~= seq![fresh_entry(txn_id)]);
}

/// Once its writer commits at `commit_ts`, a row is visible to every
/// reader at or after `commit_ts`.
pub proof fn lemma_committed_insert_visible(
    v: StoreView,
    txn_id: TxnId,
    rid: Rid,
    commit_ts: u64,
    read_ts: u64,
)
    requires
        commit_ts <= read_ts,
    ensures
        row_visible(after_commit(after_record(v, txn_id, rid), txn_id, commit_ts), rid, read_ts),
{
    let v1 = after_record(v, txn_id, rid);
    let rids = v1.write_sets[txn_id.0];
    let k = rid_key(rid);
    assert(rids[rids.len() - 1] == rid);
    assert(touches(rids, k));
    let s = after_commit(v1, txn_id, commit_ts).chains[k];
    assert(s == committed_chain(v1.chains[k], txn_id, commit_ts));
    assert(globally_visible(s[0], read_ts));
}

/// A rolled-back writer leaves none of its versions behind in the chains
/// it touched.
pub proof fn lemma_abort_removes_versions(v: StoreView, txn_id: TxnId, next_ts: u64, k: u64, i: int)
    requires
        v.write_sets.dom().contains(txn_id.0),
        touches(v.write_sets[txn_id.0], k),
        after_abort(v, txn_id, next_ts).chains.dom().contains(k),
        0 <= i < after_abort(v, txn_id, next_ts).chains[k].len(),
    ensures
        after_abort(v, txn_id, next_ts).chains[k][i].creator_txn_id != txn_id,
{
    let s = v.chains[k];
    s.lemma_filter_pred(not_created_by(txn_id), i);
}

/// A row written and rolled back in a store that had no chain for it is
/// invisible to every reader, its writer included.
pub proof fn lemma_aborted_insert_invisible(
    v: StoreView,
    txn_id: TxnId,
    rid: Rid,
    next_ts: u64,
    reader: TxnId,
    read_ts: u64,
)
    requires
        !v.chains.dom().contains(rid_key(rid)),
    ensures
        !row_visible(after_abort(after_record(v, txn_id, rid), txn_id, next_ts), rid, read_ts),
        !row_visible_to(
            after_abort(after_record(v, txn_id, rid), txn_id, next_ts),
            rid,
            reader,
            read_ts,
        ),
{
    let v1 = after_record(v, txn_id, rid);
    let rids = v1.write_sets[txn_id.0];
    let k = rid_key(rid);
    assert(rids[rids.len() - 1] == rid);
    assert(touches(rids, k));
    assert(v1.chains[k] =~= seq![fresh_entry(txn_id)]);
    reveal_with_fuel(Seq::filter, 2);
    assert(seq![fresh_entry(txn_id)].drop_last() =~= Seq::<VersionEntry>::empty());
    assert(v1.chains[k].filter(not_created_by(txn_id)) =~= Seq::<VersionEntry>::empty());
}

/// Pruning at `watermark` changes what no reader at or after the watermark
/// sees, for every row whose chain still holds a version.
pub proof fn lemma_prune_keeps_visibility(v: StoreView, watermark: u64, rid: Rid, read_ts: u64)
    requires
        watermark <= read_ts,
        v.chains.dom().contains(rid_key(rid)) ==> v.chains[rid_key(rid)].len() > 0,
    ensures
        row_visible(after_prune(v, watermark), rid, read_ts) == row_visible(v, rid, read_ts),
{
    let k = rid_key(rid);
    if v.chains.dom().contains(k) && doomed(v, watermark, k) {
        let s = v.chains[k];
        assert(globally_visible(s[0], read_ts));
    }
}

} // verus!
