//! The transaction manager: ids, timestamps, the set of live
//! transactions, and what begin, commit and abort do to the log, the
//! version store and the lock table.

use vstd::prelude::*;

use crate::block_device::BlockDevice;
use crate::disk::DiskManager;
use crate::error::{StorageError, TxnError};
use crate::ids::{Lsn, TxnId};
use crate::keyed::KeyedVec;
use crate::log_manager::{after_append, after_flush, LogManager, LogView, SegmentStore};
use crate::recovery::{append_checked, undo_transaction};
use crate::txn::isolation::IsolationLevel;
use crate::txn::lock_manager::{after_release, LockManager, LockView};
use crate::txn::transaction::{Transaction, TransactionState};
use crate::txn::version_store::{after_abort, after_commit, after_prune, StoreView, VersionStore};
use crate::wal::{KindView, LogRecordKind};

verus! {

/// An abort that has begun: the transaction and its last record, from
/// which its undo starts.
pub struct PendingAbort {
    txn_id: TxnId,
    last_lsn: Option<Lsn>,
}

impl PendingAbort {
    pub closed spec fn spec_txn_id(&self) -> TxnId {
        self.txn_id
    }

    pub closed spec fn spec_last_lsn(&self) -> Option<Lsn> {
        self.last_lsn
    }

    pub fn txn_id(&self) -> (t: TxnId)
        ensures
            t == self.spec_txn_id(),
    {
        self.txn_id
    }

    /// Rolls the transaction's writes back, if it logged any.
    pub fn undo<D: BlockDevice, S: SegmentStore>(
        &self,
        disk: &mut DiskManager<D>,
        log: &mut LogManager<S>,
    ) -> (r: Result<(), TxnError>)
        requires
            old(disk).inv(),
            old(log).inv(),
        ensures
            final(disk).inv(),
            final(log).inv(),
            final(disk).spec_page_size() == old(disk).spec_page_size(),
            self.spec_last_lsn() is None ==> r is Ok && final(log).view() == old(log).view(),
            self.spec_last_lsn() is Some && r is Ok ==> exists|v: LogView|
                final(log).view() == #[trigger] after_append(
                    after_append(v, self.spec_txn_id().0, KindView::Abort),
                    self.spec_txn_id().0,
                    KindView::End,
                ),
            r is Err ==> r->Err_0 is Storage,
    {
        match self.last_lsn {
            Some(last_lsn) => match undo_transaction(disk, log, self.txn_id, last_lsn) {
                Ok(()) => {
                    proof {
                        let v = choose|v: LogView|
                            log.view() == #[trigger] after_append(
                                after_append(v, self.txn_id.0, KindView::Abort),
                                self.txn_id.0,
                                KindView::End,
                            );
                        assert(log.view() == after_append(
                            after_append(v, self.spec_txn_id().0, KindView::Abort),
                            self.spec_txn_id().0,
                            KindView::End,
                        ));
                    }
                    Ok(())
                },
                Err(e) => Err(TxnError::Storage(e)),
            },
            None => Ok(()),
        }
    }
}

/// What the manager holds: the live transactions by id, the next id and
/// timestamp it hands out, and its lock table and version store.
pub struct ManagerView {
    pub active: Map<u64, Transaction>,
    pub next_txn_id: u64,
    pub next_ts: u64,
    pub locks: LockView,
    pub versions: StoreView,
}

/// The lowest read timestamp of a live transaction, or the next
/// timestamp when none is live.
pub open spec fn spec_oldest_read_ts(active: Map<u64, Transaction>, next_ts: u64) -> u64 {
    if exists|t: u64| active.dom().contains(t) {
        let t = choose|t: u64|
            active.dom().contains(t) && forall|u: u64| #[trigger]
                active.dom().contains(u) ==> active[t].read_ts <= active[u].read_ts;
        active[t].read_ts
    } else {
        next_ts
    }
}

pub struct TransactionManager {
    active: KeyedVec<Transaction>,
    next_txn_id: u64,
    lock_manager: LockManager,
    version_store: VersionStore,
    next_ts: u64,
}

impl TransactionManager {
    pub closed spec fn view(&self) -> ManagerView {
        ManagerView {
            active: self.active.view(),
            next_txn_id: self.next_txn_id,
            next_ts: self.next_ts,
            locks: self.lock_manager.view(),
            versions: self.version_store.view(),
        }
    }

    pub closed spec fn inv(&self) -> bool {
        &&& self.active.inv()
        &&& self.lock_manager.inv()
        &&& self.version_store.inv()
        &&& forall|t: u64| #[trigger] self.active.view().dom().contains(t) ==> self.active.view()[t].txn_id.0 == t
    }

    /// A manager whose first id is past `highest_seen`, the highest id the
    /// log has used.
    pub fn new(highest_seen: Option<TxnId>) -> (m: Self)
        requires
            highest_seen matches Some(t) ==> t.0 < u64::MAX,
        ensures
            m.inv(),
            m.view().active == Map::<u64, Transaction>::empty(),
            m.view().next_txn_id == (match highest_seen {
                Some(t) => (t.0 + 1) as u64,
                None => 0,
            }),
            m.view().next_ts == 0,
            m.view().locks.holders == Map::<u64, Seq<(TxnId, crate::txn::lock_manager::LockMode)>>::empty(),
            m.view().locks.finished == Seq::<u64>::empty(),
            m.view().versions.chains == Map::<u64, Seq<crate::txn::mvcc::VersionEntry>>::empty(),
            m.view().versions.write_sets == Map::<u64, Seq<crate::ids::Rid>>::empty(),
    {
        let next_txn_id = match highest_seen {
            Some(t) => t.0 + 1,
            None => 0,
        };
        TransactionManager {
            active: KeyedVec::new(),
            next_txn_id,
            lock_manager: LockManager::new(),
            version_store: VersionStore::new(),
            next_ts: 0,
        }
    }

    pub fn lock_manager(&self) -> (l: &LockManager)
        ensures
            l.view() == self.view().locks,
    {
        &self.lock_manager
    }

    pub fn version_store(&self) -> (s: &VersionStore)
        ensures
            s.view() == self.view().versions,
    {
        &self.version_store
    }

    /// The lock table, to take locks in.
    pub fn lock_manager_mut(&mut self) -> (l: &mut LockManager)
        requires
            old(self).inv(),
        ensures
            l.view() == old(self).view().locks,
            l.inv(),
            final(l).inv() ==> final(self).inv(),
            final(self).view() == (ManagerView { locks: final(l).view(), ..old(self).view() }),
    {
        &mut self.lock_manager
    }
    /// The version store, to record writes in.
    pub fn version_store_mut(&mut self) -> (s: &mut VersionStore)
        requires
            old(self).inv(),
        ensures
            s.view() == old(self).view().versions,
            s.inv(),
            final(s).inv() ==> final(self).inv(),
            final(self).view() == (ManagerView { versions: final(s).view(), ..old(self).view() }),
    {
        &mut self.version_store
    }

    /// The live transaction `txn_id`.
    pub fn get(&self, txn_id: TxnId) -> (r: Result<Transaction, TxnError>)
        requires
            self.inv(),
        ensures
            self.view().active.dom().contains(txn_id.0) ==> (r matches Ok(t) && t == self.view().active[txn_id.0]),
            !self.view().active.dom().contains(txn_id.0) ==> (r matches Err(TxnError::UnknownTransaction(id)) && id == txn_id.0),
    {
        match self.active.get(txn_id.0) {
            Some(t) => Ok(*t),
            None => Err(TxnError::UnknownTransaction(txn_id.0)),
        }
    }

    /// The lowest read timestamp of a live transaction, or the next
    /// timestamp when none is live: no reader needs a version older than
    /// this.
    pub fn oldest_active_read_ts(&self) -> (r: u64)
        requires
            self.inv(),
        ensures
            r == spec_oldest_read_ts(self.view().active, self.view().next_ts),
    {
        let ks = self.active.keys();
        let mut best: Option<u64> = None;
        let ghost mut who: u64 = 0;
        let mut i: usize = 0;
        while i < ks.len()
            invariant
                self.inv(),
                i <= ks@.len(),
                forall|k: u64| self.active.view().dom().contains(k) <==> ks@.contains(k),
                match best {
                    Some(b) => self.active.view().dom().contains(who) && self.active.view()[who].read_ts == b
                        && forall|j: int| 0 <= j < i ==> b <= self.active.view()[#[trigger] ks@[j]].read_ts,
                    None => i == 0,
                },
            decreases ks@.len() - i,
        {
            let k = ks[i];
            assert(ks@.contains(k));
            let ts = match self.active.get(k) {
                Some(t) => t.read_ts,
                None => 0,
            };
            match best {
                Some(b) => {
                    if ts < b {
                        best = Some(ts);
                        proof {
                            who = k;
                        }
                    }
                },
                None => {
                    best = Some(ts);
                    proof {
                        who = k;
                    }
                },
            }
            i = i + 1;
        }
        let ghost a = self.view().active;
        match best {
            Some(b) => {
                proof {
                    assert forall|u: u64| #[trigger] a.dom().contains(u) implies b <= a[u].read_ts by {
                        assert(ks@.contains(u));
                        let j = choose|j: int| 0 <= j < ks@.len() && ks@[j] == u;
                        assert(b <= self.active.view()[ks@[j]].read_ts);
                    }
                    assert(a.dom().contains(who));
                    let t = choose|t: u64|
                        a.dom().contains(t) && forall|u: u64| #[trigger]
                            a.dom().contains(u) ==> a[t].read_ts <= a[u].read_ts;
                    assert(a[t].read_ts <= a[who].read_ts);
                    assert(b <= a[t].read_ts);
                }
                b
            },
            None => {
                proof {
                    assert forall|t: u64| !a.dom().contains(t) by {
                        if a.dom().contains(t) {
                            assert(ks@.contains(t));
                        }
                    }
                }
                self.next_ts
            },
        }
    }

    /// The lowest id of a live transaction, or the next id when none is
    /// live.
    pub fn oldest_active_txn_id(&self) -> (r: TxnId)
        requires
            self.inv(),
        ensures
            self.view().active.dom().contains(r.0) || (r.0 == self.view().next_txn_id && forall|t: u64|
                !self.view().active.dom().contains(t)),
            forall|t: u64| #[trigger] self.view().active.dom().contains(t) ==> r.0 <= t,
    {
        let ks = self.active.keys();
        let mut best: Option<u64> = None;
        let mut i: usize = 0;
        while i < ks.len()
            invariant
                self.inv(),
                i <= ks@.len(),
                forall|k: u64| self.active.view().dom().contains(k) <==> ks@.contains(k),
                match best {
                    Some(b) => ks@.contains(b) && forall|j: int| 0 <= j < i ==> b <= #[trigger] ks@[j],
                    None => i == 0,
                },
            decreases ks@.len() - i,
        {
            let k = ks[i];
            match best {
                Some(b) => {
                    if k < b {
                        best = Some(k);
                    }
                },
                None => {
                    best = Some(k);
                },
            }
            assert(ks@.contains(k));
            i = i + 1;
        }
        match best {
            Some(b) => {
                proof {
                    assert forall|t: u64| #[trigger] self.view().active.dom().contains(t) implies b <= t by {
                        assert(ks@.contains(t));
                        let j = choose|j: int| 0 <= j < ks@.len() && ks@[j] == t;
                    }
                }
                TxnId(b)
            },
            None => {
                proof {
                    assert forall|t: u64| !self.view().active.dom().contains(t) by {
                        if self.view().active.dom().contains(t) {
                            assert(ks@.contains(t));
                        }
                    }
                }
                TxnId(self.next_txn_id)
            },
        }
    }

    /// The position of the oldest live transaction's `Begin` record, if
    /// any transaction is live: the log is kept from there on.
    pub fn earliest_active_begin_lsn(&self) -> (r: Option<Lsn>)
        requires
            self.inv(),
        ensures
            match r {
                Some(l) => (exists|t: u64| #[trigger] self.view().active.dom().contains(t)
                    && self.view().active[t].begin_lsn == l) && forall|t: u64| #[trigger]
                    self.view().active.dom().contains(t) ==> l.0 <= self.view().active[t].begin_lsn.0,
                None => forall|t: u64| !self.view().active.dom().contains(t),
            },
    {
        let ks = self.active.keys();
        let mut best: Option<u64> = None;
        let ghost mut who: u64 = 0;
        let mut i: usize = 0;
        while i < ks.len()
            invariant
                self.inv(),
                i <= ks@.len(),
                forall|k: u64| self.active.view().dom().contains(k) <==> ks@.contains(k),
                match best {
                    Some(b) => self.active.view().dom().contains(who) && self.active.view()[who].begin_lsn.0 == b
                        && forall|j: int| 0 <= j < i ==> b <= self.active.view()[#[trigger] ks@[j]].begin_lsn.0,
                    None => i == 0,
                },
            decreases ks@.len() - i,
        {
            let k = ks[i];
            assert(ks@.contains(k));
            let l = match self.active.get(k) {
                Some(t) => t.begin_lsn.0,
                None => 0,
            };
            match best {
                Some(b) => {
                    if l < b {
                        best = Some(l);
                        proof {
                            who = k;
                        }
                    }
                },
                None => {
                    best = Some(l);
                    proof {
                        who = k;
                    }
                },
            }
            i = i + 1;
        }
        match best {
            Some(b) => {
                proof {
                    assert forall|u: u64| #[trigger] self.view().active.dom().contains(u) implies b <= self.view().active[u].begin_lsn.0 by {
                        assert(ks@.contains(u));
                        let j = choose|j: int| 0 <= j < ks@.len() && ks@[j] == u;
                        assert(b <= self.active.view()[ks@[j]].begin_lsn.0);
                    }
                    assert(self.view().active.dom().contains(who));
                }
                Some(Lsn(b))
            },
            None => {
                proof {
                    assert forall|t: u64| !self.view().active.dom().contains(t) by {
                        if self.view().active.dom().contains(t) {
                            assert(ks@.contains(t));
                        }
                    }
                }
                None
            },
        }
    }
    /// Starts a transaction: hands out the next id and timestamp and logs
    /// its `Begin`.
    pub fn begin<S: SegmentStore>(&mut self, log: &mut LogManager<S>, isolation_level: IsolationLevel) -> (r: Result<
        TxnId,
        TxnError,
    >)
        requires
            old(self).inv(),
            old(log).inv(),
            old(self).view().next_txn_id < u64::MAX,
            old(self).view().next_ts < u64::MAX,
        ensures
            final(self).inv(),
            final(log).inv(),
            final(self).view().next_txn_id == old(self).view().next_txn_id + 1,
            final(self).view().next_ts == old(self).view().next_ts + 1,
            final(self).view().locks == old(self).view().locks,
            final(self).view().versions == old(self).view().versions,
            r matches Ok(t) ==> {
                &&& t.0 == old(self).view().next_txn_id
                &&& final(log).view() == after_append(old(log).view(), t.0, KindView::Begin)
                &&& final(self).view().active == old(self).view().active.insert(
                    t.0,
                    Transaction {
                        txn_id: t,
                        isolation_level,
                        state: TransactionState::Growing,
                        begin_lsn: Lsn(old(log).view().next_lsn),
                        read_ts: old(self).view().next_ts,
                    },
                )
            },
            r is Err ==> final(self).view().active == old(self).view().active && final(log).view()
                == old(log).view(),
    {
        let txn_id = TxnId(self.next_txn_id);
        self.next_txn_id = self.next_txn_id + 1;
        let read_ts = self.next_ts;
        self.next_ts = self.next_ts + 1;
        let begin_lsn = match append_checked(log, txn_id, LogRecordKind::Begin) {
            Ok(l) => l,
            Err(e) => return Err(TxnError::Storage(e)),
        };
        self.active.insert(txn_id.0, Transaction::new(txn_id, isolation_level, begin_lsn, read_ts));
        Ok(txn_id)
    }

    /// Commits `txn_id`: logs its commit and makes it durable, stamps its
    /// versions with a fresh commit timestamp, logs its end, drops it from
    /// the live set, prunes the versions no live reader needs, and
    /// releases its locks.
    #[verifier::rlimit(40)]
    pub fn commit<S: SegmentStore>(&mut self, txn_id: TxnId, log: &mut LogManager<S>) -> (r: Result<
        (),
        TxnError,
    >)
        requires
            old(self).inv(),
            old(log).inv(),
            old(self).view().next_ts < u64::MAX,
        ensures
            final(self).inv(),
            final(log).inv(),
            !old(self).view().active.dom().contains(txn_id.0) ==> (r matches Err(
                TxnError::UnknownTransaction(id),
            ) && id == txn_id.0) && final(self).view() == old(self).view() && final(log).view()
                == old(log).view(),
            old(self).view().active.dom().contains(txn_id.0) && old(self).view().active[txn_id.0].state
                == TransactionState::Aborted ==> (r matches Err(TxnError::AbortInProgress(id)) && id
                == txn_id.0) && final(self).view() == old(self).view() && final(log).view() == old(
                log,
            ).view(),
            r is Ok ==> ({
                let v = old(self).view();
                let cts = v.next_ts;
                let active = v.active.remove(txn_id.0);
                &&& v.active.dom().contains(txn_id.0)
                &&& final(self).view().active == active
                &&& final(self).view().next_ts == cts + 1
                &&& final(self).view().next_txn_id == v.next_txn_id
                &&& final(self).view().versions == after_prune(
                    after_commit(v.versions, txn_id, cts),
                    spec_oldest_read_ts(active, (cts + 1) as u64),
                )
                &&& final(self).view().locks == after_release(v.locks, txn_id.0)
                &&& final(log).view().durable_lsn > old(log).view().next_lsn
            }),
            r is Ok ==> exists|vc: LogView|
                final(log).view() == #[trigger] after_append(vc, txn_id.0, KindView::End) && (vc == after_append(
                    old(log).view(),
                    txn_id.0,
                    KindView::Commit,
                ) || vc == after_flush(after_append(old(log).view(), txn_id.0, KindView::Commit))),
    {
        let state = match self.active.get(txn_id.0) {
            Some(t) => t.state,
            None => return Err(TxnError::UnknownTransaction(txn_id.0)),
        };
        if matches!(state, TransactionState::Aborted) {
            return Err(TxnError::AbortInProgress(txn_id.0));
        }
        let commit_lsn = match append_checked(log, txn_id, LogRecordKind::Commit) {
            Ok(l) => l,
            Err(e) => return Err(TxnError::Storage(e)),
        };
        let ghost log1 = log.view();
        match log.flush(commit_lsn) {
            Ok(()) => {},
            Err(e) => return Err(TxnError::Storage(e)),
        }
        proof {
            crate::log_manager::lemma_record_len_positive(KindView::Commit);
            let ov = old(log).view();
            let prev = if ov.last_lsns.dom().contains(txn_id.0) {
                Some(ov.last_lsns[txn_id.0])
            } else {
                None
            };
            crate::log_manager::lemma_record_len(ov.next_lsn, prev, txn_id.0, KindView::Commit);
            assert(log.view().durable_lsn > old(log).view().next_lsn);
        }
        let ghost v = old(self).view();
        let commit_ts = self.next_ts;
        self.next_ts = self.next_ts + 1;
        self.version_store.commit_versions(txn_id, commit_ts);
        let ghost vs1 = self.version_store.view();
        let ghost durable = log.view().durable_lsn;
        let ghost vc = log.view();
        match append_checked(log, txn_id, LogRecordKind::End) {
            Ok(_) => {},
            Err(e) => return Err(TxnError::Storage(e)),
        }
        assert(log.view() == after_append(vc, txn_id.0, KindView::End));
        assert(log.view().durable_lsn == durable);
        self.active.remove(txn_id.0);
        let watermark = self.oldest_active_read_ts();
        self.version_store.prune(watermark);
        self.lock_manager.release_all(txn_id);
        Ok(())
    }
    /// Marks `txn_id` as aborting and gives what its undo needs.
    pub fn begin_abort<S: SegmentStore>(&mut self, txn_id: TxnId, log: &LogManager<S>) -> (r: Result<
        PendingAbort,
        TxnError,
    >)
        requires
            old(self).inv(),
            log.inv(),
        ensures
            final(self).inv(),
            !old(self).view().active.dom().contains(txn_id.0) ==> (r matches Err(
                TxnError::UnknownTransaction(id),
            ) && id == txn_id.0) && final(self).view() == old(self).view(),
            old(self).view().active.dom().contains(txn_id.0) && old(self).view().active[txn_id.0].state
                == TransactionState::Aborted ==> (r matches Err(TxnError::AbortInProgress(id)) && id
                == txn_id.0) && final(self).view() == old(self).view(),
            r matches Ok(p) ==> {
                let v = old(self).view();
                &&& v.active.dom().contains(txn_id.0)
                &&& v.active[txn_id.0].state == TransactionState::Growing
                &&& p.spec_txn_id() == txn_id
                &&& p.spec_last_lsn() == (if log.view().last_lsns.dom().contains(txn_id.0) {
                    Some(Lsn(log.view().last_lsns[txn_id.0]))
                } else {
                    None
                })
                &&& final(self).view() == (ManagerView {
                    active: v.active.insert(
                        txn_id.0,
                        Transaction { state: TransactionState::Aborted, ..v.active[txn_id.0] },
                    ),
                    ..v
                })
            },
    {
        let t = match self.active.get(txn_id.0) {
            Some(t) => *t,
            None => return Err(TxnError::UnknownTransaction(txn_id.0)),
        };
        if matches!(t.state, TransactionState::Aborted) {
            return Err(TxnError::AbortInProgress(txn_id.0));
        }
        self.active.insert(txn_id.0, Transaction { state: TransactionState::Aborted, ..t });
        let last_lsn = log.last_lsn_for(txn_id);
        proof {
            match last_lsn {
                Some(l) => assert(Some(l.0) == crate::log_manager::opt_lsn(last_lsn)),
                None => {},
            }
        }
        Ok(PendingAbort { txn_id, last_lsn })
    }

    /// Finishes an abort whose undo is done: drops the transaction's
    /// versions and its live entry, prunes the versions no live reader
    /// needs, and releases its locks.
    pub fn finish_abort(&mut self, pending: PendingAbort) -> (r: Result<(), TxnError>)
        requires
            old(self).inv(),
        ensures
            final(self).inv(),
            ({
                let v = old(self).view();
                let t = pending.spec_txn_id();
                let active = v.active.remove(t.0);
                if v.active.dom().contains(t.0) {
                    &&& r is Ok
                    &&& final(self).view().active == active
                    &&& final(self).view().next_ts == v.next_ts
                    &&& final(self).view().next_txn_id == v.next_txn_id
                    &&& final(self).view().versions == after_prune(
                        after_abort(v.versions, t, v.next_ts),
                        spec_oldest_read_ts(active, v.next_ts),
                    )
                    &&& final(self).view().locks == after_release(v.locks, t.0)
                } else {
                    &&& r matches Err(TxnError::UnknownTransaction(id)) && id == t.0
                    &&& final(self).view() == v
                }
            }),
    {
        let txn_id = pending.txn_id;
        match self.active.remove(txn_id.0) {
            Some(_) => {},
            None => {
                assert(self.view().active =~= old(self).view().active);
                return Err(TxnError::UnknownTransaction(txn_id.0));
            },
        }
        self.version_store.abort_versions(txn_id, self.next_ts);
        let watermark = self.oldest_active_read_ts();
        self.version_store.prune(watermark);
        self.lock_manager.release_all(txn_id);
        Ok(())
    }

    /// Gives up an abort whose undo failed: the transaction runs again.
    pub fn cancel_abort(&mut self, pending: PendingAbort)
        requires
            old(self).inv(),
        ensures
            final(self).inv(),
            ({
                let v = old(self).view();
                let t = pending.spec_txn_id().0;
                final(self).view() == if v.active.dom().contains(t) {
                    ManagerView {
                        active: v.active.insert(
                            t,
                            Transaction { state: TransactionState::Growing, ..v.active[t] },
                        ),
                        ..v
                    }
                } else {
                    v
                }
            }),
    {
        match self.active.get(pending.txn_id.0) {
            Some(t) => {
                let t2 = Transaction { state: TransactionState::Growing, ..*t };
                self.active.insert(pending.txn_id.0, t2);
            },
            None => {},
        }
    }

    /// Aborts `txn_id`: marks it aborting, rolls its writes back, and
    /// finishes the abort; when the roll-back fails, the transaction runs
    /// again and the failure is returned.
    pub fn abort<D: BlockDevice, S: SegmentStore>(
        &mut self,
        txn_id: TxnId,
        disk: &mut DiskManager<D>,
        log: &mut LogManager<S>,
    ) -> (r: Result<(), TxnError>)
        requires
            old(self).inv(),
            old(disk).inv(),
            old(log).inv(),
        ensures
            final(self).inv(),
            final(disk).inv(),
            final(log).inv(),
            !old(self).view().active.dom().contains(txn_id.0) ==> (r matches Err(
                TxnError::UnknownTransaction(id),
            ) && id == txn_id.0) && final(self).view() == old(self).view(),
            old(self).view().active.dom().contains(txn_id.0) && old(self).view().active[txn_id.0].state
                == TransactionState::Aborted ==> (r matches Err(TxnError::AbortInProgress(id)) && id
                == txn_id.0) && final(self).view() == old(self).view(),
            r is Ok ==> !final(self).view().active.dom().contains(txn_id.0) && final(self).view().locks
                == after_release(old(self).view().locks, txn_id.0),
    {
        let pending = match self.begin_abort(txn_id, log) {
            Ok(p) => p,
            Err(e) => return Err(e),
        };
        match pending.undo(disk, log) {
            Ok(()) => self.finish_abort(pending),
            Err(e) => {
                self.cancel_abort(pending);
                Err(e)
            },
        }
    }

    /// Each live transaction that has logged a record, with its last one:
    /// the active-transaction table of a checkpoint.
    pub fn active_snapshot<S: SegmentStore>(&self, log: &LogManager<S>) -> (r: Vec<(TxnId, Lsn)>)
        requires
            self.inv(),
            log.inv(),
        ensures
            forall|i: int| 0 <= i < r@.len() ==> {
                let t = (#[trigger] r@[i]).0.0;
                &&& self.view().active.dom().contains(t)
                &&& log.view().last_lsns.dom().contains(t)
                &&& r@[i].1.0 == log.view().last_lsns[t]
            },
            forall|t: u64|
                #![trigger self.view().active.dom().contains(t), log.view().last_lsns.dom().contains(t)]
                self.view().active.dom().contains(t) && log.view().last_lsns.dom().contains(t) ==> exists|i: int|
                    0 <= i < r@.len() && (#[trigger] r@[i]).0.0 == t,
    {
        let ks = self.active.keys();
        let mut out: Vec<(TxnId, Lsn)> = Vec::new();
        let mut i: usize = 0;
        while i < ks.len()
            invariant
                self.inv(),
                log.inv(),
                i <= ks@.len(),
                forall|k: u64| self.active.view().dom().contains(k) <==> ks@.contains(k),
                forall|x: int| 0 <= x < out@.len() ==> {
                    let t = (#[trigger] out@[x]).0.0;
                    &&& self.view().active.dom().contains(t)
                    &&& log.view().last_lsns.dom().contains(t)
                    &&& out@[x].1.0 == log.view().last_lsns[t]
                },
                forall|y: int|
                    0 <= y < i && log.view().last_lsns.dom().contains(#[trigger] ks@[y]) ==> exists|x: int|
                        0 <= x < out@.len() && (#[trigger] out@[x]).0.0 == ks@[y],
            decreases ks@.len() - i,
        {
            let k = ks[i];
            assert(ks@.contains(k));
            match log.last_lsn_for(TxnId(k)) {
                Some(l) => {
                    let ghost old_out = out@;
                    out.push((TxnId(k), l));
                    proof {
                        assert(out@[out@.len() - 1].0.0 == k);
                        assert forall|y: int|
                            0 <= y < i + 1 && log.view().last_lsns.dom().contains(#[trigger] ks@[y]) implies exists|x: int|
                                0 <= x < out@.len() && (#[trigger] out@[x]).0.0 == ks@[y] by {
                            if y < i {
                                let x = choose|x: int| 0 <= x < old_out.len() && (#[trigger] old_out[x]).0.0 == ks@[y];
                                assert(out@[x] == old_out[x]);
                                assert(out@[x].0.0 == ks@[y]);
                            } else {
                                assert(out@[out@.len() - 1].0.0 == ks@[y]);
                            }
                        }
                    }
                },
                None => {},
            }
            i = i + 1;
        }
        proof {
            assert forall|t: u64|
                #![trigger self.view().active.dom().contains(t), log.view().last_lsns.dom().contains(t)]
                self.view().active.dom().contains(t) && log.view().last_lsns.dom().contains(t) implies exists|i: int|
                    0 <= i < out@.len() && (#[trigger] out@[i]).0.0 == t by {
                assert(ks@.contains(t));
                let y = choose|y: int| 0 <= y < ks@.len() && ks@[y] == t;
                assert(log.view().last_lsns.dom().contains(ks@[y]));
            }
        }
        out
    }
}

} // verus!
