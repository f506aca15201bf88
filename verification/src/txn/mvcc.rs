//! Multi-version visibility: which version of a row a reader sees.

use vstd::prelude::*;

use crate::ids::TxnId;

verus! {

/// One version of a row: who created it, when it was committed, and when
/// it was superseded (each unset until it happens).
#[derive(Debug, Clone, Copy, PartialEq, Eq, Structural)]
pub struct VersionEntry {
    pub creator_txn_id: TxnId,
    pub begin_ts: Option<u64>,
    pub end_ts: Option<u64>,
}

/// A committed version is visible at `read_ts` when it was committed at or
/// before `read_ts` and not superseded at or before it.
pub open spec fn globally_visible(e: VersionEntry, read_ts: u64) -> bool {
    match e.begin_ts {
        Some(b) => b <= read_ts && match e.end_ts {
            Some(end) => end > read_ts,
            None => true,
        },
        None => false,
    }
}

/// A reader also sees the versions it created itself.
pub open spec fn visible_to(e: VersionEntry, reader: TxnId, read_ts: u64) -> bool {
    e.creator_txn_id == reader || globally_visible(e, read_ts)
}

/// Keeps the versions not created by `txn`.
pub open spec fn not_created_by(txn: TxnId) -> spec_fn(VersionEntry) -> bool {
    |e: VersionEntry| e.creator_txn_id != txn
}

/// The versions of one row, newest first.
#[derive(Debug, Clone)]
pub struct VersionChain {
    versions: Vec<VersionEntry>,
}

impl VersionChain {
    pub closed spec fn entries(&self) -> Seq<VersionEntry> {
        self.versions@
    }

    pub fn new() -> (c: VersionChain)
        ensures
            c.entries() == Seq::<VersionEntry>::empty(),
    {
        VersionChain { versions: Vec::new() }
    }

    /// Adds `entry` as the newest version.
    pub fn push(&mut self, entry: VersionEntry)
        ensures
            final(self).entries() == seq![entry] + old(self).entries(),
    {
        self.versions.insert(0, entry);
        assert(self.versions@ =~= seq![entry] + old(self).versions@);
    }

    /// The newest version visible at `read_ts`.
    pub fn visible_version(&self, read_ts: u64) -> (r: Option<VersionEntry>)
        ensures
            match r {
                Some(e) => exists|i: int|
                    0 <= i < self.entries().len() && self.entries()[i] == e && globally_visible(
                        e,
                        read_ts,
                    ) && forall|j: int|
                        0 <= j < i ==> !globally_visible(#[trigger] self.entries()[j], read_ts),
                None => forall|j: int|
                    0 <= j < self.entries().len() ==> !globally_visible(
                        #[trigger] self.entries()[j],
                        read_ts,
                    ),
            },
    {
        let mut i: usize = 0;
        while i < self.versions.len()
            invariant
                i <= self.versions@.len(),
                forall|j: int| 0 <= j < i ==> !globally_visible(#[trigger] self.versions@[j], read_ts),
            decreases self.versions@.len() - i,
        {
            if Self::is_globally_visible(&self.versions[i], read_ts) {
                proof {
                    assert(self.entries()[i as int] == self.versions@[i as int]);
                }
                return Some(self.versions[i]);
            }
            i = i + 1;
        }
        None
    }

    /// The newest version `reader_txn_id` sees at `read_ts`: one it created
    /// itself, or one visible to everyone.
    pub fn visible_version_for(&self, reader_txn_id: TxnId, read_ts: u64) -> (r: Option<
        VersionEntry,
    >)
        ensures
            match r {
                Some(e) => exists|i: int|
                    0 <= i < self.entries().len() && self.entries()[i] == e && visible_to(
                        e,
                        reader_txn_id,
                        read_ts,
                    ) && forall|j: int|
                        0 <= j < i ==> !visible_to(
                            #[trigger] self.entries()[j],
                            reader_txn_id,
                            read_ts,
                        ),
                None => forall|j: int|
                    0 <= j < self.entries().len() ==> !visible_to(
                        #[trigger] self.entries()[j],
                        reader_txn_id,
                        read_ts,
                    ),
            },
    {
        let mut i: usize = 0;
        while i < self.versions.len()
            invariant
                i <= self.versions@.len(),
                forall|j: int|
                    0 <= j < i ==> !visible_to(#[trigger] self.versions@[j], reader_txn_id, read_ts),
            decreases self.versions@.len() - i,
        {
            let entry = self.versions[i];
            if entry.creator_txn_id.0 == reader_txn_id.0 || Self::is_globally_visible(
                &entry,
                read_ts,
            ) {
                proof {
                    assert(self.entries()[i as int] == entry);
                }
                return Some(entry);
            }
            i = i + 1;
        }
        None
    }

    fn is_globally_visible(entry: &VersionEntry, read_ts: u64) -> (b: bool)
        ensures
            b == globally_visible(*entry, read_ts),
    {
        match entry.begin_ts {
            Some(begin_ts) => if begin_ts <= read_ts {
                match entry.end_ts {
                    Some(end_ts) => end_ts > read_ts,
                    None => true,
                }
            } else {
                false
            },
            None => false,
        }
    }

    /// Stamps every version `txn_id` created as committed at `commit_ts`.
    pub fn mark_committed(&mut self, txn_id: TxnId, commit_ts: u64)
        ensures
            final(self).entries().len() == old(self).entries().len(),
            forall|i: int|
                0 <= i < old(self).entries().len() ==> #[trigger] final(self).entries()[i] == if old(
                    self,
                ).entries()[i].creator_txn_id == txn_id {
                    VersionEntry { begin_ts: Some(commit_ts), ..old(self).entries()[i] }
                } else {
                    old(self).entries()[i]
                },
    {
        let mut i: usize = 0;
        while i < self.versions.len()
            invariant
                i <= self.versions@.len(),
                self.versions@.len() == old(self).versions@.len(),
                forall|j: int|
                    0 <= j < i ==> #[trigger] self.versions@[j] == if old(self).versions@[j].creator_txn_id
                        == txn_id {
                        VersionEntry { begin_ts: Some(commit_ts), ..old(self).versions@[j] }
                    } else {
                        old(self).versions@[j]
                    },
                forall|j: int| i <= j < self.versions@.len() ==> #[trigger] self.versions@[j] == old(self).versions@[j],
            decreases self.versions@.len() - i,
        {
            let entry = self.versions[i];
            if entry.creator_txn_id.0 == txn_id.0 {
                self.versions.set(i, VersionEntry { begin_ts: Some(commit_ts), ..entry });
            }
            i = i + 1;
        }
    }

    /// Drops every version `txn_id` created.
    pub fn remove_creator(&mut self, txn_id: TxnId)
        ensures
            final(self).entries() == old(self).entries().filter(not_created_by(txn_id)),
    {
        let mut kept: Vec<VersionEntry> = Vec::new();
        let mut i: usize = 0;
        while i < self.versions.len()
            invariant
                i <= self.versions@.len(),
                kept@ == self.versions@.take(i as int).filter(not_created_by(txn_id)),
            decreases self.versions@.len() - i,
        {
            let entry = self.versions[i];
            proof {
                let t = self.versions@.take(i as int + 1);
                assert(t.drop_last() =~= self.versions@.take(i as int));
                assert(t.last() == entry);
            }
            let ghost t = self.versions@.take(i as int + 1);
            proof {
                self.versions@.take(i as int).lemma_filter_push(entry, not_created_by(txn_id));
                assert(self.versions@.take(i as int).push(entry) =~= t);
            }
            if entry.creator_txn_id.0 != txn_id.0 {
                kept.push(entry);
                proof {
                    assert((not_created_by(txn_id))(entry));
                    assert(t.filter(not_created_by(txn_id)) == t.drop_last().filter(not_created_by(txn_id)).push(entry));
                }
            } else {
                proof {
                    assert(!(not_created_by(txn_id))(entry));
                    assert(t.filter(not_created_by(txn_id)) == t.drop_last().filter(not_created_by(txn_id)));
                }
            }
            i = i + 1;
        }
        proof {
            assert(self.versions@.take(i as int) =~= self.versions@);
        }
        self.versions = kept;
    }

    pub fn is_empty(&self) -> (b: bool)
        ensures
            b == (self.entries().len() == 0),
    {
        self.versions.len() == 0
    }

    /// Whether the chain can be dropped once every reader's timestamp is at
    /// least `watermark`: it is empty, or its newest version is committed at
    /// or before `watermark` and not superseded, so every such reader sees
    /// it as if there were no chain at all.
    pub fn is_prunable(&self, watermark: u64) -> (b: bool)
        ensures
            b == (self.entries().len() == 0 || match (self.entries()[0].begin_ts, self.entries()[0].end_ts) {
                (Some(begin_ts), None) => begin_ts <= watermark,
                _ => false,
            }),
    {
        if self.versions.len() == 0 {
            return true;
        }
        let newest = self.versions[0];
        match (newest.begin_ts, newest.end_ts) {
            (Some(begin_ts), None) => begin_ts <= watermark,
            _ => false,
        }
    }
}

} // verus!
