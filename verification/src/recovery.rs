//! Crash recovery: restoring torn pages from the double-write buffer, and
//! the analysis of the log that decides which transactions won.

use vstd::prelude::*;

use crate::block_device::BlockDevice;
use crate::crc::{crc32, spec_crc32};
use crate::disk::DiskManager;
use crate::dwb::DoubleWriteBuffer;
use crate::error::StorageError;
use crate::ids::{Lsn, PageId, TxnId};
use crate::keyed::KeyedVec;
use crate::page::{checksum_ok, spec_checksum_ok, Page, PAGE_SIZE};
use crate::wal::{
    kind_fits, record_len, KindView, LogRecord, LogRecordKind, LoggedRecord, RecordView, CHECKPOINT_TXN_ID,
};
use crate::log_manager::{after_append, after_flush, first_pending, opt_lsn, spec_iter_cut, spec_iter_from, spec_read_at, LogManager, LogView, SegmentStore};
use crate::segment::SEGMENT_HEADER_LEN;
use crate::disk::{page_offset, LAST_CHECKPOINT_LSN_START};
use crate::block_device::{resized, written};
use crate::codec::{le_u64_at, read_u64, splice};
use crate::fmt::push_str;
use crate::page::spec_stamped;
use vstd::bytes::*;

verus! {

fn all_zero_page(bytes: &[u8; PAGE_SIZE]) -> (z: bool)
    ensures
        z == crate::page::all_zero(bytes@),
{
    let mut i: usize = 0;
    while i < PAGE_SIZE
        invariant
            i <= PAGE_SIZE,
            bytes@.len() == PAGE_SIZE,
            forall|k: int| 0 <= k < i ==> bytes@[k] == 0,
        decreases PAGE_SIZE - i,
    {
        if bytes[i] != 0 {
            return false;
        }
        i = i + 1;
    }
    true
}

/// Slot `i` of a double-write buffer whose device holds `w`.
pub open spec fn dwb_slot(w: Seq<u8>, i: int) -> Seq<u8> {
    w.subrange(crate::dwb::slot_offset(i), crate::dwb::slot_offset(i) + PAGE_SIZE)
}

/// Whether entry `e` (page id and slot CRC) in slot `i` of the buffer `w`
/// restores its page in the file `c` of `ps`-byte pages: the slot's CRC
/// matches, the slot is not all zero, the page is allocated and it does
/// not pass its checksum there.
pub open spec fn restores_page(c: Seq<u8>, ps: usize, w: Seq<u8>, e: (u32, u32), i: int) -> bool {
    let slot = dwb_slot(w, i);
    let at = page_offset(e.0, ps);
    &&& spec_crc32(slot) == e.1
    &&& !crate::page::all_zero(slot)
    &&& at + ps <= c.len()
    &&& !spec_checksum_ok(c.subrange(at, at + PAGE_SIZE))
}

/// The file `c` once the first `n` entries of `batch` have been restored
/// from `w`, in order: each one that restores its page writes its slot
/// there, checksum stamped.
pub open spec fn restored_through(c: Seq<u8>, ps: usize, w: Seq<u8>, batch: Seq<(u32, u32)>, n: int) -> Seq<u8>
    decreases n,
{
    if n <= 0 {
        c
    } else {
        let prev = restored_through(c, ps, w, batch, n - 1);
        if restores_page(prev, ps, w, batch[n - 1], n - 1) {
            written(prev, page_offset(batch[n - 1].0, ps) as nat, spec_stamped(dwb_slot(w, n - 1)))
        } else {
            prev
        }
    }
}

/// Why a restore from the buffer `w` of `batch` fails for `page_id`, the
/// file being `c` afterwards: the slot of an entry for the page holds
/// another entry's page (its CRC is that other entry's), or the page, once
/// restored, does not pass its checksum.
pub open spec fn restore_fails_for(c: Seq<u8>, ps: usize, w: Seq<u8>, batch: Seq<(u32, u32)>, page_id: u32) -> bool {
    let at = page_offset(page_id, ps);
    ||| exists|i: int, j: int|
        0 <= i < batch.len() && 0 <= j < batch.len() && #[trigger] batch[i].0 == page_id && spec_crc32(dwb_slot(w, i))
            != batch[i].1 && #[trigger] batch[j].1 == spec_crc32(dwb_slot(w, i))
    ||| at + PAGE_SIZE <= c.len() && !spec_checksum_ok(c.subrange(at, at + PAGE_SIZE))
}

/// Whether the slot of some entry of `batch` in the buffer `w` holds
/// another entry's page: its CRC is not its own entry's but another's.
pub open spec fn slot_mislabeled(w: Seq<u8>, batch: Seq<(u32, u32)>) -> bool {
    exists|i: int, j: int|
        #![trigger batch[i], batch[j]]
        0 <= i < batch.len() && 0 <= j < batch.len() && spec_crc32(dwb_slot(w, i)) != batch[i].1 && batch[j].1
            == spec_crc32(dwb_slot(w, i))
}

/// Restores, from the double-write buffer, every page of an interrupted
/// flush batch that reached the database file torn, then clears the batch.
///
/// A slot whose CRC does not match its entry is skipped, unless its CRC is
/// that of another entry (the slot holds the wrong page), which fails the
/// recovery. A restored page that does not read back with a valid checksum
/// fails the recovery too, and the batch is left in place for a retry.
pub fn recover_double_write<D: BlockDevice, W: BlockDevice>(
    disk: &mut DiskManager<D>,
    dwb: &mut DoubleWriteBuffer<W>,
) -> (r: Result<(), StorageError>)
    requires
        old(disk).inv(),
        old(dwb).inv(),
    ensures
        final(disk).inv(),
        final(dwb).inv(),
        final(disk).spec_page_size() == old(disk).spec_page_size(),
        final(dwb).spec_capacity() == old(dwb).spec_capacity(),
        r is Ok && old(dwb).recorded_batch() is None ==> final(disk).contents() == old(
            disk,
        ).contents() && final(dwb).contents() == old(dwb).contents(),
        r is Ok ==> final(dwb).recorded_batch() is None,
        r is Ok && old(dwb).recorded_batch() is Some ==> !slot_mislabeled(
            old(dwb).contents(),
            old(dwb).recorded_batch()->0,
        ),
        r is Err ==> *final(dwb) == *old(dwb) || (old(dwb).recorded_batch() is Some && final(disk).contents()
            == restored_through(
            old(disk).contents(),
            old(disk).spec_page_size(),
            old(dwb).contents(),
            old(dwb).recorded_batch()->0,
            old(dwb).recorded_batch()->0.len() as int,
        )),
        match r {
            Err(StorageError::DoubleWriteRestoreFailed { page_id }) => {
                &&& old(dwb).recorded_batch() is Some
                &&& exists|i: int|
                    0 <= i < old(dwb).recorded_batch()->0.len()
                        && #[trigger] old(dwb).recorded_batch()->0[i].0 == page_id
            },
            Err(StorageError::PageNotFound(_)) => old(dwb).recorded_batch() is Some,
            Err(StorageError::Io(_)) => true,
            Err(_) => false,
            Ok(()) => true,
        },
        r is Ok && old(dwb).recorded_batch() is Some ==> final(disk).contents() == restored_through(
            old(disk).contents(),
            old(disk).spec_page_size(),
            old(dwb).contents(),
            old(dwb).recorded_batch()->0,
            old(dwb).recorded_batch()->0.len() as int,
        ),
        r matches Err(StorageError::DoubleWriteRestoreFailed { page_id }) ==> restore_fails_for(
            final(disk).contents(),
            old(disk).spec_page_size(),
            old(dwb).contents(),
            old(dwb).recorded_batch()->0,
            page_id,
        ),
        r matches Err(StorageError::DoubleWriteRestoreFailed { page_id }) ==> *final(dwb) == *old(dwb) && exists|n: int|
            0 <= n <= old(dwb).recorded_batch()->0.len() && final(disk).contents() == #[trigger] restored_through(
                old(disk).contents(),
                old(disk).spec_page_size(),
                old(dwb).contents(),
                old(dwb).recorded_batch()->0,
                n,
            ),
{
    let ghost c0 = disk.contents();
    let ghost ps = disk.spec_page_size();
    let ghost w0 = dwb.contents();
    let entries = match dwb.read_batch() {
        Ok(Some(entries)) => entries,
        Ok(None) => return Ok(()),
        Err(e) => return Err(e),
    };
    let ghost batch = entries@.map_values(|e: (PageId, u32)| (e.0.0, e.1));
    proof {
        assert(batch.len() == entries@.len());
        assert(batch.len() <= dwb.spec_capacity());
        dwb.lemma_capacity_bounds();
    }
    let mut restored_pages: Vec<PageId> = Vec::new();
    let ghost mut origin: Seq<int> = Seq::empty();
    let mut index: usize = 0;
    while index < entries.len()
        invariant
            disk.inv(),
            dwb.inv(),
            disk.spec_page_size() == old(disk).spec_page_size(),
            dwb.spec_capacity() == old(dwb).spec_capacity(),
            dwb.spec_capacity() <= crate::dwb::MAX_CAPACITY,
            dwb.contents() == old(dwb).contents(),
            *dwb == *old(dwb),
            c0 == old(disk).contents(),
            ps == old(disk).spec_page_size(),
            w0 == old(dwb).contents(),
            disk.contents() == restored_through(c0, ps, w0, batch, index as int),
            old(dwb).recorded_batch() == Some(batch),
            batch == entries@.map_values(|e: (PageId, u32)| (e.0.0, e.1)),
            entries@.len() <= dwb.spec_capacity(),
            index <= entries@.len(),
            origin.len() == restored_pages@.len(),
            forall|k: int|
                0 <= k < restored_pages@.len() ==> 0 <= #[trigger] origin[k] < batch.len()
                    && batch[origin[k]].0 == restored_pages@[k].0,
            forall|i: int, j: int|
                #![trigger batch[i], batch[j]]
                0 <= i < index && 0 <= j < batch.len() && spec_crc32(dwb_slot(w0, i)) != batch[i].1 ==> batch[j].1
                    != spec_crc32(dwb_slot(w0, i)),
        decreases entries@.len() - index,
    {
        let (page_id, slot_crc) = entries[index];
        let slot = match dwb.read_slot(index) {
            Ok(s) => s,
            Err(e) => return Err(e),
        };
        let actual_crc = crc32(slot.as_slice());
        proof {
            assert(slot@ =~= dwb_slot(w0, index as int));
            assert(batch[index as int].1 == slot_crc);
        }
        if actual_crc != slot_crc {
            let mut j: usize = 0;
            while j < entries.len()
                invariant
                    disk.inv(),
                    dwb.inv(),
                    disk.spec_page_size() == old(disk).spec_page_size(),
                    dwb.spec_capacity() == old(dwb).spec_capacity(),
                    old(dwb).recorded_batch() == Some(batch),
                    *dwb == *old(dwb),
                    c0 == old(disk).contents(),
                    ps == old(disk).spec_page_size(),
                    w0 == old(dwb).contents(),
                    disk.contents() == restored_through(c0, ps, w0, batch, index as int),
                    j <= entries@.len(),
                    index < entries@.len(),
                    actual_crc == spec_crc32(dwb_slot(w0, index as int)),
                    actual_crc != batch[index as int].1,
                    batch == entries@.map_values(|e: (PageId, u32)| (e.0.0, e.1)),
                    page_id == entries@[index as int].0,
                    forall|jj: int| 0 <= jj < j ==> #[trigger] batch[jj].1 != actual_crc,
                decreases entries@.len() - j,
            {
                if entries[j].1 == actual_crc {
                    proof {
                        assert(batch[j as int].1 == spec_crc32(dwb_slot(w0, index as int)));
                        assert(batch[index as int].1 != spec_crc32(dwb_slot(w0, index as int)));
                        assert(batch[index as int].0 == page_id.0);
                        assert(old(dwb).recorded_batch()->0[index as int].0 == page_id.0);
                    }
                    return Err(StorageError::DoubleWriteRestoreFailed { page_id: page_id.0 });
                }
                j = j + 1;
            }
            proof {
                assert forall|i: int, jj: int|
                    #![trigger batch[i], batch[jj]]
                    0 <= i < index + 1 && 0 <= jj < batch.len() && spec_crc32(dwb_slot(w0, i)) != batch[i].1 implies batch[jj].1
                        != spec_crc32(dwb_slot(w0, i)) by {
                    if i == index as int {
                        assert(batch[jj].1 != actual_crc);
                    }
                }
            }
            index = index + 1;
            continue;
        }
        if all_zero_page(&slot) {
            index = index + 1;
            continue;
        }
        match disk.read_page_unchecked(page_id) {
            Ok(real_page) => {
                if !checksum_ok(real_page.data()) {
                    let restored = Page::from_bytes(page_id, &slot);
                    match disk.write_page(page_id, &restored) {
                        Ok(()) => {},
                        Err(e) => return Err(e),
                    }
                    restored_pages.push(page_id);
                    proof {
                        assert(batch[index as int].0 == page_id.0);
                        origin = origin.push(index as int);
                    }
                }
            },
            Err(StorageError::PageNotFound(_)) => {},
            Err(e) => return Err(e),
        }
        index = index + 1;
    }
    match disk.sync() {
        Ok(()) => {},
        Err(e) => return Err(e),
    }
    let mut k: usize = 0;
    while k < restored_pages.len()
        invariant
            disk.inv(),
            dwb.inv(),
            disk.spec_page_size() == old(disk).spec_page_size(),
            dwb.spec_capacity() == old(dwb).spec_capacity(),
            k <= restored_pages@.len(),
            old(dwb).recorded_batch() == Some(batch),
            *dwb == *old(dwb),
            c0 == old(disk).contents(),
            ps == old(disk).spec_page_size(),
            w0 == old(dwb).contents(),
            disk.contents() == restored_through(c0, ps, w0, batch, batch.len() as int),
            origin.len() == restored_pages@.len(),
            forall|m: int|
                0 <= m < restored_pages@.len() ==> 0 <= #[trigger] origin[m] < batch.len()
                    && batch[origin[m]].0 == restored_pages@[m].0,
        decreases restored_pages@.len() - k,
    {
        let page_id = restored_pages[k];
        let check = match disk.read_page_unchecked(page_id) {
            Ok(p) => p,
            Err(e) => return Err(e),
        };
        if !checksum_ok(check.data()) {
            proof {
                assert(restored_pages@[k as int] == page_id);
                assert(batch[origin[k as int]].0 == page_id.0);
                assert(old(dwb).recorded_batch()->0[origin[k as int]].0 == page_id.0);
            }
            return Err(StorageError::DoubleWriteRestoreFailed { page_id: page_id.0 });
        }
        k = k + 1;
    }
    dwb.clear_batch()
}

// ---------------------------------------------------------------------
// Analysis
// ---------------------------------------------------------------------

/// The active-transaction and dirty-page tables a checkpoint recorded, if
/// one of `recs` is the end of a checkpoint: the first such.
pub open spec fn first_checkpoint(recs: Seq<RecordView>) -> Option<(Seq<(u64, u64)>, Seq<(u32, u64)>)>
    decreases recs.len(),
{
    if recs.len() == 0 {
        None
    } else if recs[0].txn_id == CHECKPOINT_TXN_ID && recs[0].kind is CheckpointEnd {
        Some((recs[0].kind->att, recs[0].kind->dpt))
    } else {
        first_checkpoint(recs.subrange(1, recs.len() as int))
    }
}

/// The transaction table a checkpoint's entries give: each transaction's
/// last LSN, none committed; a later entry for a transaction wins.
pub open spec fn seed_att(att: Seq<(u64, u64)>) -> Map<u64, (u64, bool)>
    decreases att.len(),
{
    if att.len() == 0 {
        Map::empty()
    } else {
        seed_att(att.drop_last()).insert(att.last().0, (att.last().1, false))
    }
}

/// The dirty-page table a checkpoint's entries give.
pub open spec fn seed_dpt(dpt: Seq<(u32, u64)>) -> Map<u32, u64>
    decreases dpt.len(),
{
    if dpt.len() == 0 {
        Map::empty()
    } else {
        seed_dpt(dpt.drop_last()).insert(dpt.last().0, dpt.last().1)
    }
}

/// The transaction table after one record.
pub open spec fn att_step(att: Map<u64, (u64, bool)>, r: RecordView) -> Map<u64, (u64, bool)> {
    let t = r.txn_id;
    if t == CHECKPOINT_TXN_ID {
        att
    } else {
        match r.kind {
            KindView::End => att.remove(t),
            KindView::Commit => att.insert(t, (r.lsn, true)),
            KindView::Begin => att.insert(t, (r.lsn, false)),
            KindView::Update { .. } | KindView::Clr { .. } | KindView::AllocPage { .. }
            | KindView::Abort => if att.dom().contains(t) {
                att.insert(t, (r.lsn, att[t].1))
            } else {
                att.insert(t, (r.lsn, false))
            },
            _ => att,
        }
    }
}

/// The page a record changes, if it changes one.
pub open spec fn touched_page(k: KindView) -> Option<u32> {
    match k {
        KindView::Update { page_id, .. } => Some(page_id),
        KindView::Clr { page_id, .. } => Some(page_id),
        KindView::AllocPage { page_id } => Some(page_id),
        _ => None,
    }
}

/// The dirty-page table after one record: a page first changed here gets
/// this record's LSN as the point redo starts from.
pub open spec fn dpt_step(dpt: Map<u32, u64>, r: RecordView) -> Map<u32, u64> {
    if r.txn_id == CHECKPOINT_TXN_ID {
        dpt
    } else {
        match touched_page(r.kind) {
            Some(p) => if dpt.dom().contains(p) {
                dpt
            } else {
                dpt.insert(p, r.lsn)
            },
            None => dpt,
        }
    }
}

/// Whether record `r`, logged outside a checkpoint, changes page `p`.
pub open spec fn changes_page(r: RecordView, p: u32) -> bool {
    r.txn_id != CHECKPOINT_TXN_ID && touched_page(r.kind) == Some(p)
}

/// A page the dirty-page table already holds keeps its LSN through any
/// further records.
pub proof fn lemma_dpt_keeps_seeded(dpt0: Map<u32, u64>, recs: Seq<RecordView>, p: u32)
    requires
        dpt0.dom().contains(p),
    ensures
        dpt_after(dpt0, recs).dom().contains(p),
        dpt_after(dpt0, recs)[p] == dpt0[p],
    decreases recs.len(),
{
    if recs.len() > 0 {
        lemma_dpt_keeps_seeded(dpt0, recs.drop_last(), p);
    }
}

/// The dirty-page table records a page at its first change: a page not
/// in the seed is in the table exactly when some record changes it, and
/// then with the LSN of the first record that does.
pub proof fn lemma_dpt_first_change(dpt0: Map<u32, u64>, recs: Seq<RecordView>, p: u32)
    requires
        !dpt0.dom().contains(p),
    ensures
        dpt_after(dpt0, recs).dom().contains(p) <==> exists|i: int| 0 <= i < recs.len() && #[trigger] changes_page(recs[i], p),
        dpt_after(dpt0, recs).dom().contains(p) ==> exists|i: int|
            0 <= i < recs.len() && #[trigger] changes_page(recs[i], p) && dpt_after(dpt0, recs)[p] == recs[i].lsn
                && forall|j: int| 0 <= j < i ==> !changes_page(#[trigger] recs[j], p),
    decreases recs.len(),
{
    if recs.len() > 0 {
        let init = recs.drop_last();
        let last = recs.last();
        let n = recs.len() - 1;
        lemma_dpt_first_change(dpt0, init, p);
        let prev = dpt_after(dpt0, init);
        assert(recs[n] == last);
        assert forall|i: int| 0 <= i < n implies #[trigger] recs[i] == init[i] by {}
        if prev.dom().contains(p) {
            let i = choose|i: int|
                0 <= i < init.len() && #[trigger] changes_page(init[i], p) && prev[p] == init[i].lsn && forall|j: int|
                    0 <= j < i ==> !changes_page(#[trigger] init[j], p);
            assert(recs[i] == init[i]);
            assert(changes_page(recs[i], p));
            assert forall|j: int| 0 <= j < i implies !changes_page(#[trigger] recs[j], p) by {
                assert(recs[j] == init[j]);
            }
        } else if changes_page(last, p) {
            assert(changes_page(recs[n], p));
            assert forall|j: int| 0 <= j < n implies !changes_page(#[trigger] recs[j], p) by {
                assert(recs[j] == init[j]);
            }
        } else {
            assert forall|i: int| 0 <= i < recs.len() implies !#[trigger] changes_page(recs[i], p) by {
                if i < n {
                    assert(recs[i] == init[i]);
                }
            }
        }
    }
}

/// Redo starts early enough: when the log's LSNs rise, a page that is
/// not in the seed and that some record changes is in the dirty-page
/// table with an LSN no later than that of any record changing it, so
/// redo from the table's LSN replays every logged change to the page.
pub proof fn lemma_dpt_at_most_every_change(dpt0: Map<u32, u64>, recs: Seq<RecordView>, p: u32, j: int)
    requires
        !dpt0.dom().contains(p),
        forall|a: int, b: int| 0 <= a < b < recs.len() ==> #[trigger] recs[a].lsn < #[trigger] recs[b].lsn,
        0 <= j < recs.len(),
        changes_page(recs[j], p),
    ensures
        dpt_after(dpt0, recs).dom().contains(p),
        dpt_after(dpt0, recs)[p] <= recs[j].lsn,
{
    lemma_dpt_first_change(dpt0, recs, p);
    let i = choose|i: int|
        0 <= i < recs.len() && #[trigger] changes_page(recs[i], p) && dpt_after(dpt0, recs)[p] == recs[i].lsn
            && forall|k: int| 0 <= k < i ==> !changes_page(#[trigger] recs[k], p);
    if j < i {
        assert(!changes_page(recs[j], p));
    }
    if i < j {
        assert(recs[i].lsn < recs[j].lsn);
    }
}

pub open spec fn att_after(att: Map<u64, (u64, bool)>, recs: Seq<RecordView>) -> Map<u64, (u64, bool)>
    decreases recs.len(),
{
    if recs.len() == 0 {
        att
    } else {
        att_step(att_after(att, recs.drop_last()), recs.last())
    }
}

pub open spec fn dpt_after(dpt: Map<u32, u64>, recs: Seq<RecordView>) -> Map<u32, u64>
    decreases recs.len(),
{
    if recs.len() == 0 {
        dpt
    } else {
        dpt_step(dpt_after(dpt, recs.drop_last()), recs.last())
    }
}

/// The tables the analysis pass ends with: seeded from the first
/// checkpoint end, then every record outside checkpoints replayed.
pub open spec fn spec_analysis(recs: Seq<RecordView>) -> (Map<u64, (u64, bool)>, Map<u32, u64>) {
    let (att0, dpt0) = match first_checkpoint(recs) {
        Some((a, d)) => (seed_att(a), seed_dpt(d)),
        None => (Map::empty(), Map::empty()),
    };
    (att_after(att0, recs), dpt_after(dpt0, recs))
}

/// Checkpoint records are only ever logged under the checkpoint
/// transaction.
pub open spec fn checkpoints_well_placed(recs: Seq<RecordView>) -> bool {
    forall|i: int|
        0 <= i < recs.len() && (#[trigger] recs[i]).txn_id != CHECKPOINT_TXN_ID ==> !(recs[i].kind is CheckpointBegin) && !(recs[i].kind is CheckpointEnd)
}

/// What the analysis pass found: each transaction still open at the end
/// of the log with its last LSN and whether it committed, and each dirty
/// page with the LSN redo starts from for it.
pub struct Analysis {
    pub att: KeyedVec<(u64, bool)>,
    pub dpt: KeyedVec<u64>,
}

impl Analysis {
    pub closed spec fn att_view(&self) -> Map<u64, (u64, bool)> {
        self.att.view()
    }

    /// The dirty-page table, keyed by page number.
    pub closed spec fn dpt_view(&self) -> Map<u32, u64> {
        Map::new(
            |p: u32| self.dpt.view().dom().contains(p as u64),
            |p: u32| self.dpt.view()[p as u64],
        )
    }

    pub closed spec fn inv(&self) -> bool {
        &&& self.att.inv()
        &&& self.dpt.inv()
        &&& forall|k: u64| #[trigger] self.dpt.view().dom().contains(k) ==> k <= u32::MAX
    }
}

fn seed_from(att_list: &Vec<(TxnId, Lsn)>, dpt_list: &Vec<(PageId, Lsn)>) -> (r: Analysis)
    ensures
        r.inv(),
        r.att_view() == seed_att(crate::wal::att_view(att_list@)),
        r.dpt_view() == seed_dpt(crate::wal::dpt_view(dpt_list@)),
{
    let mut att: KeyedVec<(u64, bool)> = KeyedVec::new();
    let ghost av = crate::wal::att_view(att_list@);
    let mut i: usize = 0;
    while i < att_list.len()
        invariant
            i <= att_list@.len(),
            att.inv(),
            av == crate::wal::att_view(att_list@),
            att.view() == seed_att(av.take(i as int)),
        decreases att_list@.len() - i,
    {
        let (t, l) = att_list[i];
        att.insert(t.0, (l.0, false));
        assert(av.take(i + 1).drop_last() =~= av.take(i as int));
        i = i + 1;
    }
    assert(av.take(i as int) =~= av);
    let mut dpt: KeyedVec<u64> = KeyedVec::new();
    let ghost dv = crate::wal::dpt_view(dpt_list@);
    let mut j: usize = 0;
    let ghost pages = |m: Map<u64, u64>| Map::new(|p: u32| m.dom().contains(p as u64), |p: u32| m[p as u64]);
    assert(pages(dpt.view()) =~= seed_dpt(dv.take(0)));
    while j < dpt_list.len()
        invariant
            j <= dpt_list@.len(),
            dpt.inv(),
            dv == crate::wal::dpt_view(dpt_list@),
            forall|k: u64| #[trigger] dpt.view().dom().contains(k) ==> k <= u32::MAX,
            pages == (|m: Map<u64, u64>| Map::new(|p: u32| m.dom().contains(p as u64), |p: u32| m[p as u64])),
            pages(dpt.view()) == seed_dpt(dv.take(j as int)),
        decreases dpt_list@.len() - j,
    {
        let (p, l) = dpt_list[j];
        dpt.insert(p.0 as u64, l.0);
        assert(dv.take(j + 1).drop_last() =~= dv.take(j as int));
        assert(pages(dpt.view()) =~= seed_dpt(dv.take(j + 1)));
        j = j + 1;
    }
    assert(dv.take(j as int) =~= dv);
    let r = Analysis { att, dpt };
    assert(r.dpt_view() == pages(dpt.view()));
    r
}

/// Replays one record into the tables.
fn apply_record(a: &mut Analysis, rec: &LoggedRecord)
    requires
        old(a).inv(),
        rec@.txn_id != CHECKPOINT_TXN_ID ==> !(rec@.kind is CheckpointBegin) && !(
        rec@.kind is CheckpointEnd),
    ensures
        final(a).inv(),
        final(a).att_view() == att_step(old(a).att_view(), rec@),
        final(a).dpt_view() == dpt_step(old(a).dpt_view(), rec@),
        forall|p: u32|
            #![trigger final(a).dpt_view()[p]]
            changes_page(rec@, p) ==> final(a).dpt_view().dom().contains(p) && final(a).dpt_view()[p] == (if old(
                a,
            ).dpt_view().dom().contains(p) {
                old(a).dpt_view()[p]
            } else {
                rec@.lsn
            }),
        forall|p: u32| !changes_page(rec@, p) ==> #[trigger] final(a).dpt_view().dom().contains(p) == old(a).dpt_view().dom().contains(p)
            && final(a).dpt_view()[p] == old(a).dpt_view()[p],
{
    let t = rec.txn_id.0;
    if t == CHECKPOINT_TXN_ID {
        return ;
    }
    let lsn = rec.lsn.0;
    let page: Option<u32> = match &rec.kind {
        LogRecordKind::End => {
            a.att.remove(t);
            None
        },
        LogRecordKind::Commit => {
            a.att.insert(t, (lsn, true));
            None
        },
        LogRecordKind::Begin => {
            a.att.insert(t, (lsn, false));
            None
        },
        LogRecordKind::Abort => {
            keep_touch(&mut a.att, t, lsn);
            None
        },
        LogRecordKind::Update { page_id, .. } => {
            keep_touch(&mut a.att, t, lsn);
            Some(page_id.0)
        },
        LogRecordKind::Clr { page_id, .. } => {
            keep_touch(&mut a.att, t, lsn);
            Some(page_id.0)
        },
        LogRecordKind::AllocPage { page_id } => {
            keep_touch(&mut a.att, t, lsn);
            Some(page_id.0)
        },
        _ => None,
    };
    assert(page == touched_page(rec@.kind));
    match page {
        Some(p) => {
            if !a.dpt.contains_key(p as u64) {
                let ghost before = a.dpt.view();
                a.dpt.insert(p as u64, lsn);
                assert(a.dpt_view() =~= old(a).dpt_view().insert(p, lsn));
            }
        },
        None => {},
    }
}

/// Notes `lsn` as `t`'s last record, keeping whether it committed.
fn keep_touch(att: &mut KeyedVec<(u64, bool)>, t: u64, lsn: u64)
    requires
        old(att).inv(),
    ensures
        final(att).inv(),
        final(att).view() == (if old(att).view().dom().contains(t) {
            old(att).view().insert(t, (lsn, old(att).view()[t].1))
        } else {
            old(att).view().insert(t, (lsn, false))
        }),
{
    let committed = match att.get(t) {
        Some(e) => e.1,
        None => false,
    };
    att.insert(t, (lsn, committed));
}

/// The analysis pass of recovery: seeds the tables from the first
/// checkpoint end among `records`, then replays every record outside
/// checkpoints.
pub fn analyze(records: &Vec<LoggedRecord>) -> (r: Analysis)
    requires
        checkpoints_well_placed(records@.map_values(|x: LoggedRecord| x@)),
    ensures
        r.inv(),
        (r.att_view(), r.dpt_view()) == spec_analysis(records@.map_values(|x: LoggedRecord| x@)),
{
    let ghost rv = records@.map_values(|x: LoggedRecord| x@);
    let n = records.len();
    let mut a = Analysis { att: KeyedVec::new(), dpt: KeyedVec::new() };
    proof {
        assert(a.dpt_view() =~= Map::<u32, u64>::empty());
        assert(rv.subrange(0, rv.len() as int) =~= rv);
    }
    let mut i: usize = 0;
    let mut found = false;
    while i < n && !found
        invariant
            i <= n,
            n == records@.len(),
            rv == records@.map_values(|x: LoggedRecord| x@),
            a.inv(),
            found ==> match first_checkpoint(rv) {
                Some((at, dp)) => a.att_view() == seed_att(at) && a.dpt_view() == seed_dpt(dp),
                None => false,
            },
            !found ==> first_checkpoint(rv) == first_checkpoint(rv.subrange(i as int, n as int))
                && a.att_view() == Map::<u64, (u64, bool)>::empty() && a.dpt_view() == Map::<
                u32,
                u64,
            >::empty(),
        decreases n - i + (if found { 0int } else { 1int }),
    {
        let rec = &records[i];
        let ghost tail = rv.subrange(i as int, n as int);
        assert(tail[0] == rec@);
        if rec.txn_id.0 == CHECKPOINT_TXN_ID {
            match &rec.kind {
                LogRecordKind::CheckpointEnd { att, dpt } => {
                    a = seed_from(att, dpt);
                    found = true;
                },
                _ => {
                    assert(tail.subrange(1, tail.len() as int) =~= rv.subrange(i + 1, n as int));
                    i = i + 1;
                },
            }
        } else {
            assert(tail.subrange(1, tail.len() as int) =~= rv.subrange(i + 1, n as int));
            i = i + 1;
        }
    }
    proof {
        if !found {
            assert(rv.subrange(n as int, n as int) =~= Seq::<RecordView>::empty());
        }
    }
    let ghost att0 = a.att_view();
    let ghost dpt0 = a.dpt_view();
    let mut j: usize = 0;
    assert(rv.take(0) =~= Seq::<RecordView>::empty());
    while j < n
        invariant
            j <= n,
            n == records@.len(),
            rv == records@.map_values(|x: LoggedRecord| x@),
            checkpoints_well_placed(rv),
            a.inv(),
            a.att_view() == att_after(att0, rv.take(j as int)),
            a.dpt_view() == dpt_after(dpt0, rv.take(j as int)),
        decreases n - j,
    {
        assert(rv[j as int] == records@[j as int]@);
        apply_record(&mut a, &records[j]);
        assert(rv.take(j + 1).drop_last() =~= rv.take(j as int));
        j = j + 1;
    }
    assert(rv.take(n as int) =~= rv);
    a
}

/// The LSN redo starts from: the oldest first change of any dirty page.
pub fn redo_start(a: &Analysis) -> (r: Option<Lsn>)
    requires
        a.inv(),
    ensures
        match r {
            Some(l) => (exists|p: u32| #[trigger] a.dpt_view().dom().contains(p) && a.dpt_view()[p]
                == l.0) && forall|p: u32| #[trigger] a.dpt_view().dom().contains(p) ==> l.0
                <= a.dpt_view()[p],
            None => a.dpt_view().dom() == Set::<u32>::empty(),
        },
{
    let ks = a.dpt.keys();
    let mut best: Option<u64> = None;
    let mut i: usize = 0;
    while i < ks.len()
        invariant
            i <= ks@.len(),
            a.inv(),
            forall|k: u64| a.dpt.view().dom().contains(k) <==> ks@.contains(k),
            match best {
                Some(b) => (exists|j: int| 0 <= j < i && a.dpt.view()[ks@[j]] == b) && forall|j: int|
                    0 <= j < i ==> b <= a.dpt.view()[#[trigger] ks@[j]],
                None => i == 0,
            },
        decreases ks@.len() - i,
    {
        let v = match a.dpt.get(ks[i]) {
            Some(v) => *v,
            None => {
                assert(ks@.contains(ks@[i as int]));
                0
            },
        };
        match best {
            Some(b) => {
                if v < b {
                    best = Some(v);
                }
            },
            None => {
                best = Some(v);
            },
        }
        i = i + 1;
    }
    proof {
        match best {
            Some(b) => {
                let j = choose|j: int| 0 <= j < i && a.dpt.view()[ks@[j]] == b;
                assert(ks@.contains(ks@[j]));
                let p = ks@[j] as u32;
                assert(a.dpt_view().dom().contains(p));
                assert forall|q: u32| #[trigger] a.dpt_view().dom().contains(q) implies b <= a.dpt_view()[q] by {
                    assert(ks@.contains(q as u64));
                    let jj = choose|jj: int| 0 <= jj < ks@.len() && ks@[jj] == q as u64;
                }
            },
            None => {
                assert forall|q: u32| !a.dpt_view().dom().contains(q) by {
                    if a.dpt_view().dom().contains(q) {
                        assert(ks@.contains(q as u64));
                    }
                }
                assert(a.dpt_view().dom() =~= Set::<u32>::empty());
            },
        }
    }
    match best {
        Some(b) => Some(Lsn(b)),
        None => None,
    }
}

/// Whether transaction `t` is open and uncommitted in `att`.
pub open spec fn uncommitted(att: Map<u64, (u64, bool)>) -> spec_fn(u64) -> bool {
    |t: u64| att.dom().contains(t) && !att[t].1
}

/// The transactions that never committed, with their last LSN: the ones
/// to roll back, each once.
pub fn losers(a: &Analysis) -> (r: Vec<(TxnId, Lsn)>)
    requires
        a.inv(),
    ensures
        forall|i: int| 0 <= i < r@.len() ==> a.att_view().dom().contains((#[trigger] r@[i]).0.0)
            && a.att_view()[r@[i].0.0] == (r@[i].1.0, false),
        forall|t: u64|
            #![trigger a.att_view().dom().contains(t)]
            a.att_view().dom().contains(t) && !a.att_view()[t].1 ==> r@.map_values(
                |e: (TxnId, Lsn)| e.0.0,
            ).contains(t),
        r@.map_values(|e: (TxnId, Lsn)| e.0.0).no_duplicates(),
{
    let ks = a.att.keys();
    let ghost p = uncommitted(a.att_view());
    let mut out: Vec<(TxnId, Lsn)> = Vec::new();
    let mut i: usize = 0;
    proof {
        reveal(Seq::filter);
        assert(out@.map_values(|e: (TxnId, Lsn)| e.0.0) =~= ks@.take(0).filter(p));
    }
    while i < ks.len()
        invariant
            i <= ks@.len(),
            a.inv(),
            p == uncommitted(a.att_view()),
            forall|k: u64| a.att.view().dom().contains(k) <==> ks@.contains(k),
            forall|x: int, y: int| 0 <= x < y < ks@.len() ==> ks@[x] != ks@[y],
            out@.map_values(|e: (TxnId, Lsn)| e.0.0) == ks@.take(i as int).filter(p),
            out@.map_values(|e: (TxnId, Lsn)| e.0.0).no_duplicates(),
            forall|x: int| 0 <= x < out@.len() ==> a.att.view().dom().contains((#[trigger] out@[x]).0.0)
                && a.att.view()[out@[x].0.0] == (out@[x].1.0, false),
        decreases ks@.len() - i,
    {
        let k = ks[i];
        assert(ks@.contains(k));
        let e = match a.att.get(k) {
            Some(e) => *e,
            None => (0, true),
        };
        let ghost ids = out@.map_values(|e: (TxnId, Lsn)| e.0.0);
        proof {
            assert(ks@.take(i + 1) =~= ks@.take(i as int).push(k));
            ks@.take(i as int).lemma_filter_push(k, p);
        }
        if !e.1 {
            proof {
                if ids.contains(k) {
                    ks@.take(i as int).lemma_filter_contains_rev(p, k);
                    let y = choose|y: int| 0 <= y < i && ks@.take(i as int)[y] == k;
                    assert(ks@[y] == ks@[i as int]);
                }
            }
            out.push((TxnId(k), Lsn(e.0)));
            proof {
                assert(out@.map_values(|e: (TxnId, Lsn)| e.0.0) =~= ids.push(k));
                assert(p(k));
                let nid = ids.push(k);
                assert forall|x: int, y: int| 0 <= x < nid.len() && 0 <= y < nid.len() && x != y implies nid[x] != nid[y] by {
                    if x < ids.len() && y < ids.len() {
                    } else if x == ids.len() {
                        assert(ids.contains(nid[y]));
                    } else {
                        assert(ids.contains(nid[x]));
                    }
                }
            }
        } else {
            assert(!p(k));
        }
        i = i + 1;
    }
    proof {
        assert(ks@.take(i as int) =~= ks@);
        assert forall|t: u64|
            #![trigger a.att_view().dom().contains(t)]
            a.att_view().dom().contains(t) && !a.att_view()[t].1 implies out@.map_values(
                |e: (TxnId, Lsn)| e.0.0,
            ).contains(t) by {
            assert(ks@.contains(t));
            let y = choose|y: int| 0 <= y < ks@.len() && ks@[y] == t;
            assert(p(ks@[y]));
            ks@.lemma_filter_contains(p, y);
        }
    }
    out
}

pub proof fn lemma_att_after_concat(m: Map<u64, (u64, bool)>, a: Seq<RecordView>, b: Seq<RecordView>)
    ensures
        att_after(m, a + b) == att_after(att_after(m, a), b),
    decreases b.len(),
{
    if b.len() == 0 {
        assert(a + b =~= a);
    } else {
        assert((a + b).drop_last() =~= a + b.drop_last());
        lemma_att_after_concat(m, a, b.drop_last());
    }
}

/// Records of other transactions leave a transaction's entry alone.
pub proof fn lemma_att_after_others(m: Map<u64, (u64, bool)>, b: Seq<RecordView>, t: u64)
    requires
        forall|j: int| 0 <= j < b.len() ==> (#[trigger] b[j]).txn_id != t,
    ensures
        att_after(m, b).dom().contains(t) == m.dom().contains(t),
        m.dom().contains(t) ==> att_after(m, b)[t] == m[t],
    decreases b.len(),
{
    if b.len() > 0 {
        assert forall|j: int| 0 <= j < b.drop_last().len() implies (#[trigger] b.drop_last()[j]).txn_id != t by {
            assert(b.drop_last()[j] == b[j]);
        }
        lemma_att_after_others(m, b.drop_last(), t);
        assert(b.last() == b[b.len() - 1]);
    }
}

/// The effect on a transaction's entry of its last record `recs[i]`:
/// what that one record made of it.
proof fn lemma_last_record_decides(m: Map<u64, (u64, bool)>, recs: Seq<RecordView>, i: int)
    requires
        0 <= i < recs.len(),
        forall|j: int| i < j < recs.len() ==> (#[trigger] recs[j]).txn_id != recs[i].txn_id,
    ensures
        ({
            let t = recs[i].txn_id;
            let before = att_after(m, recs.take(i));
            let after = att_step(before, recs[i]);
            &&& att_after(m, recs).dom().contains(t) == after.dom().contains(t)
            &&& after.dom().contains(t) ==> att_after(m, recs)[t] == after[t]
        }),
{
    let t = recs[i].txn_id;
    let a = recs.take(i + 1);
    let b = recs.skip(i + 1);
    assert(recs =~= a + b);
    lemma_att_after_concat(m, a, b);
    assert(a.drop_last() =~= recs.take(i));
    assert forall|j: int| 0 <= j < b.len() implies (#[trigger] b[j]).txn_id != t by {
        assert(b[j] == recs[i + 1 + j]);
    }
    lemma_att_after_others(att_after(m, a), b, t);
}

/// A transaction whose last record is its commit ends the analysis as a
/// winner, at its commit's LSN.
pub proof fn lemma_last_commit_wins(m: Map<u64, (u64, bool)>, recs: Seq<RecordView>, i: int)
    requires
        0 <= i < recs.len(),
        recs[i].txn_id != CHECKPOINT_TXN_ID,
        recs[i].kind is Commit,
        forall|j: int| i < j < recs.len() ==> (#[trigger] recs[j]).txn_id != recs[i].txn_id,
    ensures
        att_after(m, recs).dom().contains(recs[i].txn_id),
        att_after(m, recs)[recs[i].txn_id] == (recs[i].lsn, true),
{
    lemma_last_record_decides(m, recs, i);
}

/// A transaction whose last record is its end is not in the table.
pub proof fn lemma_last_end_leaves(m: Map<u64, (u64, bool)>, recs: Seq<RecordView>, i: int)
    requires
        0 <= i < recs.len(),
        recs[i].txn_id != CHECKPOINT_TXN_ID,
        recs[i].kind is End,
        forall|j: int| i < j < recs.len() ==> (#[trigger] recs[j]).txn_id != recs[i].txn_id,
    ensures
        !att_after(m, recs).dom().contains(recs[i].txn_id),
{
    lemma_last_record_decides(m, recs, i);
}

/// A transaction whose last record is its begin is a loser, to be undone
/// from its begin.
pub proof fn lemma_last_begin_loses(m: Map<u64, (u64, bool)>, recs: Seq<RecordView>, i: int)
    requires
        0 <= i < recs.len(),
        recs[i].txn_id != CHECKPOINT_TXN_ID,
        recs[i].kind is Begin,
        forall|j: int| i < j < recs.len() ==> (#[trigger] recs[j]).txn_id != recs[i].txn_id,
    ensures
        att_after(m, recs).dom().contains(recs[i].txn_id),
        att_after(m, recs)[recs[i].txn_id] == (recs[i].lsn, false),
{
    lemma_last_record_decides(m, recs, i);
}

// ---------------------------------------------------------------------
// Redo and undo decisions
// ---------------------------------------------------------------------

/// What redo does with a record, given the LSN stamped on the page it
/// changes: an update or compensation newer than the page is written
/// again; a page allocation is made sure of; anything else is skipped.
pub enum RedoAction {
    Write { page_id: PageId, offset: u16, bytes: Vec<u8> },
    Allocate { page_id: PageId },
    Skip,
}

/// The page whose LSN redo must know for `kind`: the page an update or a
/// compensation writes.
pub fn redo_page(kind: &LogRecordKind) -> (r: Option<PageId>)
    ensures
        r == (match kind {
            LogRecordKind::Update { page_id, .. } => Some(*page_id),
            LogRecordKind::Clr { page_id, .. } => Some(*page_id),
            _ => None::<PageId>,
        }),
{
    match kind {
        LogRecordKind::Update { page_id, .. } => Some(*page_id),
        LogRecordKind::Clr { page_id, .. } => Some(*page_id),
        _ => None,
    }
}

/// Decides redo for `record`; `page_lsn` is the LSN stamped on the page
/// `redo_page` names, if it names one.
pub fn redo_action(record: &LoggedRecord, page_lsn: Lsn) -> (r: RedoAction)
    ensures
        match (&record.kind, r) {
            (LogRecordKind::Update { page_id, offset, after, .. }, RedoAction::Write { page_id: p, offset: o, bytes }) =>
                page_lsn.0 < record.lsn.0 && p == *page_id && o == *offset && bytes@ == after@,
            (LogRecordKind::Update { .. }, RedoAction::Skip) => page_lsn.0 >= record.lsn.0,
            (LogRecordKind::Clr { page_id, offset, after, .. }, RedoAction::Write { page_id: p, offset: o, bytes }) =>
                page_lsn.0 < record.lsn.0 && p == *page_id && o == *offset && bytes@ == after@,
            (LogRecordKind::Clr { .. }, RedoAction::Skip) => page_lsn.0 >= record.lsn.0,
            (LogRecordKind::AllocPage { page_id }, RedoAction::Allocate { page_id: p }) => p == *page_id,
            (LogRecordKind::Update { .. }, _) => false,
            (LogRecordKind::Clr { .. }, _) => false,
            (LogRecordKind::AllocPage { .. }, _) => false,
            (_, RedoAction::Skip) => true,
            (_, _) => false,
        },
{
    match &record.kind {
        LogRecordKind::Update { page_id, offset, after, .. } => {
            if page_lsn.0 < record.lsn.0 {
                RedoAction::Write { page_id: *page_id, offset: *offset, bytes: copy_bytes(after) }
            } else {
                RedoAction::Skip
            }
        },
        LogRecordKind::Clr { page_id, offset, after, .. } => {
            if page_lsn.0 < record.lsn.0 {
                RedoAction::Write { page_id: *page_id, offset: *offset, bytes: copy_bytes(after) }
            } else {
                RedoAction::Skip
            }
        },
        LogRecordKind::AllocPage { page_id } => RedoAction::Allocate { page_id: *page_id },
        _ => RedoAction::Skip,
    }
}

fn copy_bytes(src: &Vec<u8>) -> (r: Vec<u8>)
    ensures
        r@ == src@,
{
    let mut out: Vec<u8> = Vec::new();
    crate::codec::push_bytes(&mut out, src.as_slice());
    out
}

/// One step of rolling a transaction back: the compensation to log and
/// apply, if the record at the cursor is an update, and where the cursor
/// goes next.
pub struct UndoStep {
    pub compensation: Option<LogRecordKind>,
    pub next: Option<Lsn>,
}

/// Decides the undo step for `record`: an update is compensated by
/// writing its before-image back, and the cursor moves to the record
/// before it; a compensation sends the cursor to the record it names
/// (none for LSN 0); a begin ends the walk; anything else moves to the
/// record before it.
pub fn undo_step(record: &LoggedRecord) -> (r: UndoStep)
    ensures
        match &record.kind {
            LogRecordKind::Update { page_id, offset, before, .. } => r.next == record.prev_lsn && (
            match r.compensation {
                Some(LogRecordKind::Clr { page_id: p, offset: o, after, undo_next_lsn }) => p == *page_id && o
                    == *offset && after@ == before@ && undo_next_lsn == (match record.prev_lsn {
                    Some(l) => l,
                    None => Lsn(0),
                }),
                _ => false,
            }),
            LogRecordKind::Clr { undo_next_lsn, .. } => r.compensation is None && r.next == (if undo_next_lsn.0
                != 0 {
                Some(*undo_next_lsn)
            } else {
                None
            }),
            LogRecordKind::Begin => r.compensation is None && r.next is None,
            _ => r.compensation is None && r.next == record.prev_lsn,
        },
{
    match &record.kind {
        LogRecordKind::Update { page_id, offset, before, .. } => {
            let undo_next_lsn = match record.prev_lsn {
                Some(l) => l,
                None => Lsn(0),
            };
            UndoStep {
                compensation: Some(
                    LogRecordKind::Clr {
                        page_id: *page_id,
                        offset: *offset,
                        after: copy_bytes(before),
                        undo_next_lsn,
                    },
                ),
                next: record.prev_lsn,
            }
        },
        LogRecordKind::Clr { undo_next_lsn, .. } => UndoStep {
            compensation: None,
            next: if undo_next_lsn.0 != 0 {
                Some(*undo_next_lsn)
            } else {
                None
            },
        },
        LogRecordKind::Begin => UndoStep { compensation: None, next: None },
        _ => UndoStep { compensation: None, next: record.prev_lsn },
    }
}

// ---------------------------------------------------------------------
// Redo and undo against the database file and the log
// ---------------------------------------------------------------------

pub open spec fn no_room_reason() -> Seq<char> {
    "log record does not fit the write-ahead log"@
}

pub open spec fn misplaced_checkpoint_reason() -> Seq<char> {
    "checkpoint record logged outside the checkpoint transaction"@
}

pub open spec fn record_too_large_reason() -> Seq<char> {
    "log record does not fit the write-ahead log"@
}

pub open spec fn write_past_page_reason() -> Seq<char> {
    "logged write runs past the end of the page"@
}

pub open spec fn last_page_reason() -> Seq<char> {
    "logged page allocation names the last page id"@
}

/// Whether a record of kind `k` fits the log's formats and what is left
/// of its LSN space and byte count.
pub open spec fn appendable(v: LogView, k: KindView) -> bool {
    &&& kind_fits(k)
    &&& record_len(k) <= u32::MAX
    &&& v.next_lsn + record_len(k) <= u64::MAX
    &&& v.bytes_appended + record_len(k) <= u64::MAX
}

/// Appends a record for `txn_id` when it fits the log's formats and LSN
/// space.
pub fn append_checked<S: SegmentStore>(log: &mut LogManager<S>, txn_id: TxnId, kind: LogRecordKind) -> (r: Result<
    Lsn,
    StorageError,
>)
    requires
        old(log).inv(),
    ensures
        final(log).inv(),
        r is Ok ==> final(log).view() == after_append(old(log).view(), txn_id.0, kind@) && r->Ok_0.0
            == old(log).view().next_lsn && old(log).view().next_lsn + record_len(kind@) <= u64::MAX,
        r is Err ==> final(log).view() == old(log).view(),
        r is Ok <==> appendable(old(log).view(), kind@),
        r is Err ==> (r matches Err(StorageError::CorruptLogHeader { reason }) && reason@ == record_too_large_reason()),
{
    let ghost k = kind@;
    if !kind.fits() {
        let mut reason = String::new();
        push_str(&mut reason, "log record does not fit the write-ahead log");
        return Err(StorageError::CorruptLogHeader { reason });
    }
    let n = kind.encoded_len();
    if n > 0xFFFF_FFFFu64 || n > u64::MAX - log.next_lsn().0 || n > u64::MAX - log.bytes_appended() {
        let mut reason = String::new();
        push_str(&mut reason, "log record does not fit the write-ahead log");
        return Err(StorageError::CorruptLogHeader { reason });
    }
    log.append(LogRecord { txn_id, kind })
}

/// The page bytes after writing `bytes` at `offset` and stamping `lsn` as
/// the page's LSN.
pub open spec fn stamped_write(page: Seq<u8>, offset: int, bytes: Seq<u8>, lsn: u64) -> Seq<u8> {
    splice(splice(page, offset, bytes), 4, spec_u64_to_le_bytes(lsn))
}

/// Writes `bytes` at `offset` of page `page_id` in the file and stamps
/// `lsn` on it.
pub fn stamp_write<D: BlockDevice>(
    disk: &mut DiskManager<D>,
    page_id: PageId,
    offset: u16,
    bytes: &[u8],
    lsn: Lsn,
) -> (r: Result<(), StorageError>)
    requires
        old(disk).inv(),
    ensures
        final(disk).inv(),
        final(disk).spec_page_size() == old(disk).spec_page_size(),
        final(disk).next_page_id() == old(disk).next_page_id(),
        r is Ok ==> ({
            let at = page_offset(page_id.0, old(disk).spec_page_size());
            &&& offset + bytes@.len() <= PAGE_SIZE
            &&& at + PAGE_SIZE <= old(disk).contents().len()
            &&& final(disk).contents() == written(
                old(disk).contents(),
                at as nat,
                spec_stamped(
                    stamped_write(
                        old(disk).contents().subrange(at, at + PAGE_SIZE),
                        offset as int,
                        bytes@,
                        lsn.0,
                    ),
                ),
            )
        }),
{
    let mut page = match disk.read_page_unchecked(page_id) {
        Ok(p) => p,
        Err(e) => return Err(e),
    };
    if offset as usize > PAGE_SIZE || bytes.len() > PAGE_SIZE - offset as usize {
        let mut reason = String::new();
        push_str(&mut reason, "logged write runs past the end of the page");
        return Err(StorageError::CorruptPage { page_id: page_id.0, reason });
    }
    page.write_bytes(offset as usize, bytes);
    page.set_page_lsn(lsn);
    disk.write_page(page_id, &page)
}

/// The LSN stamped on page `page_id` in the file.
fn disk_page_lsn<D: BlockDevice>(disk: &DiskManager<D>, page_id: PageId) -> (r: Result<Lsn, StorageError>)
    requires
        disk.inv(),
    ensures
        r matches Ok(l) ==> ({
            let at = page_offset(page_id.0, disk.spec_page_size());
            at + PAGE_SIZE <= disk.contents().len() && l.0 == le_u64_at(
                disk.contents().subrange(at, at + PAGE_SIZE),
                4,
            )
        }),
{
    match disk.read_page_unchecked(page_id) {
        Ok(p) => Ok(p.page_lsn()),
        Err(e) => Err(e),
    }
}

/// The compensation an update record is undone by: its before-image
/// written back, pointing the undo at the record before it (0 for none).
pub open spec fn clr_for(rec: RecordView) -> KindView {
    match rec.kind {
        KindView::Update { page_id, offset, before, .. } => KindView::Clr {
            page_id,
            offset,
            after: before,
            undo_next_lsn: match rec.prev_lsn {
                Some(l) => l,
                None => 0,
            },
        },
        _ => rec.kind,
    }
}

/// Undoing update `rec` for `txn` took the log from `a` to `b`: it
/// appended the compensation, then made it durable (a flush that had
/// nothing to do leaves the log as it was).
pub open spec fn undo_logged(a: LogView, b: LogView, txn: u64, rec: RecordView) -> bool {
    let k = clr_for(rec);
    ||| b == after_append(a, txn, k)
    ||| b == after_flush(after_append(a, txn, k))
}

/// Undoing update `rec`, whose compensation got LSN `lsn`, took the file
/// of `ps`-byte pages from `c` to `d`: its page got the before-image back
/// and `lsn` stamped.
pub open spec fn undo_written(c: Seq<u8>, d: Seq<u8>, ps: usize, rec: RecordView, lsn: u64) -> bool {
    match rec.kind {
        KindView::Update { page_id, offset, before, .. } => {
            let at = page_offset(page_id, ps);
            &&& at + PAGE_SIZE <= c.len()
            &&& d == written(c, at as nat, spec_stamped(stamped_write(c.subrange(at, at + PAGE_SIZE), offset as int, before, lsn)))
        },
        _ => false,
    }
}

/// Where an undo walk goes after record `rec`: an update or any other
/// record to the record before it, a compensation to the record it names
/// (nowhere for LSN 0), a begin nowhere.
pub open spec fn undo_next_of(rec: RecordView) -> Option<u64> {
    match rec.kind {
        KindView::Clr { undo_next_lsn, .. } => if undo_next_lsn != 0 {
            Some(undo_next_lsn)
        } else {
            None
        },
        KindView::Begin => None,
        _ => rec.prev_lsn,
    }
}

/// The LSN an undo walk from `from` reads next, having read `recs` at
/// `lsns`: `from` first, then where the last record sends it, as long as
/// that lies before the record (a record pointing at itself or forward
/// ends the walk).
pub open spec fn undo_cursor(from: u64, lsns: Seq<u64>, recs: Seq<RecordView>) -> Option<u64> {
    if lsns.len() == 0 {
        Some(from)
    } else {
        match undo_next_of(recs.last()) {
            Some(l) => if l < lsns.last() {
                Some(l)
            } else {
                None
            },
            None => None,
        }
    }
}

/// The walk from `from` read `recs` at `lsns`, each where it had got to.
#[verifier::opaque]
pub open spec fn walked(from: u64, lsns: Seq<u64>, recs: Seq<RecordView>) -> bool {
    &&& lsns.len() == recs.len()
    &&& forall|i: int|
        0 <= i < lsns.len() ==> undo_cursor(from, lsns.take(i), recs.take(i)) == Some(#[trigger] lsns[i])
}

/// The walk read `recs` at `lsns`, each where the walk from `from` had got
/// to, and it ended: the cursor ran out, or the log `v` holds no record
/// where it points.
pub open spec fn undo_walk(v: LogView, from: u64, lsns: Seq<u64>, recs: Seq<RecordView>) -> bool {
    &&& walked(from, lsns, recs)
    &&& match undo_cursor(from, lsns, recs) {
        Some(l) => spec_read_at(v, l) is None,
        None => true,
    }
}

/// The records `recs` were read in turn, each from the log as it stood
/// then, at the LSN `lsns` gives; each update among them was undone and
/// the other records left the log and the file alone. `views` are the
/// log and `disks` the file before and after each step.
#[verifier::opaque]
pub open spec fn undo_trail(
    ps: usize,
    txn: u64,
    views: Seq<LogView>,
    disks: Seq<Seq<u8>>,
    lsns: Seq<u64>,
    recs: Seq<RecordView>,
) -> bool {
    &&& views.len() == recs.len() + 1
    &&& disks.len() == recs.len() + 1
    &&& lsns.len() == recs.len()
    &&& forall|i: int|
        0 <= i < recs.len() ==> {
            &&& spec_read_at(views[i], lsns[i]) == Some(#[trigger] recs[i])
            &&& if recs[i].kind is Update {
                &&& undo_logged(views[i], views[i + 1], txn, recs[i])
                &&& undo_written(disks[i], disks[i + 1], ps, recs[i], views[i].next_lsn)
            } else {
                &&& views[i + 1] == views[i]
                &&& disks[i + 1] == disks[i]
            }
        }
}

/// One more step of an undo walk: reading `rv` where the walk points and
/// undoing it if it is an update extends the trail and the walk.
proof fn lemma_undo_walk_extends(
    ps: usize,
    txn: u64,
    from: u64,
    views: Seq<LogView>,
    disks: Seq<Seq<u8>>,
    lsns: Seq<u64>,
    recs: Seq<RecordView>,
    v_new: LogView,
    c_new: Seq<u8>,
    lsn: u64,
    rv: RecordView,
)
    requires
        undo_trail(ps, txn, views, disks, lsns, recs),
        walked(from, lsns, recs),
        undo_cursor(from, lsns, recs) == Some(lsn),
        spec_read_at(views.last(), lsn) == Some(rv),
        if rv.kind is Update {
            &&& undo_logged(views.last(), v_new, txn, rv)
            &&& undo_written(disks.last(), c_new, ps, rv, views.last().next_lsn)
        } else {
            &&& v_new == views.last()
            &&& c_new == disks.last()
        },
    ensures
        undo_trail(ps, txn, views.push(v_new), disks.push(c_new), lsns.push(lsn), recs.push(rv)),
        walked(from, lsns.push(lsn), recs.push(rv)),
        views.push(v_new).last() == v_new,
        disks.push(c_new).last() == c_new,
        views.push(v_new)[0] == views[0],
        disks.push(c_new)[0] == disks[0],
        recs.push(rv).last() == rv,
        lsns.push(lsn).last() == lsn,
{
    reveal(undo_trail);
    reveal(walked);
    let views1 = views.push(v_new);
    let disks1 = disks.push(c_new);
    let recs1 = recs.push(rv);
    let lsns1 = lsns.push(lsn);
    assert forall|i: int| 0 <= i < recs1.len() implies {
        &&& spec_read_at(views1[i], lsns1[i]) == Some(#[trigger] recs1[i])
        &&& if recs1[i].kind is Update {
            &&& undo_logged(views1[i], views1[i + 1], txn, recs1[i])
            &&& undo_written(disks1[i], disks1[i + 1], ps, recs1[i], views1[i].next_lsn)
        } else {
            &&& views1[i + 1] == views1[i]
            &&& disks1[i + 1] == disks1[i]
        }
    } by {
        if i < recs.len() {
            assert(recs[i] == recs1[i]);
            assert(views[i] == views1[i] && views[i + 1] == views1[i + 1]);
            assert(disks[i] == disks1[i] && disks[i + 1] == disks1[i + 1]);
            assert(lsns[i] == lsns1[i]);
        }
    }
    assert forall|i: int| 0 <= i < lsns1.len() implies undo_cursor(from, lsns1.take(i), recs1.take(i)) == Some(
        #[trigger] lsns1[i],
    ) by {
        if i < lsns.len() {
            assert(lsns1.take(i) =~= lsns.take(i));
            assert(recs1.take(i) =~= recs.take(i));
            assert(lsns[i] == lsns1[i]);
        } else {
            assert(lsns1.take(i) =~= lsns);
            assert(recs1.take(i) =~= recs);
        }
    }
}

/// Rolling `txn` back from `from` took the log from `v0` to `v1` and the
/// file of `ps`-byte pages from `c0` to `c1`: the walk of its records
/// from `from`, each update undone, then its abort and end records.
pub open spec fn undo_ran(ps: usize, txn: u64, from: u64, v0: LogView, c0: Seq<u8>, v1: LogView, c1: Seq<u8>) -> bool {
    exists|views: Seq<LogView>, disks: Seq<Seq<u8>>, lsns: Seq<u64>, recs: Seq<RecordView>|
        #[trigger] undo_trail(ps, txn, views, disks, lsns, recs) && views[0] == v0 && disks[0] == c0 && c1
            == disks.last() && v1 == after_append(after_append(views.last(), txn, KindView::Abort), txn, KindView::End)
            && undo_walk(views.last(), from, lsns, recs)
}

/// Rolls `txn_id` back from its record at `from`: walks its records
/// backwards, logging a compensation for each update and writing its
/// before-image back (the log made durable first), then logs its abort
/// and end.
///
/// The walk goes only backwards: a record pointing at itself or forward
/// ends it.
#[verifier::spinoff_prover]
#[verifier::rlimit(100)]
pub fn undo_transaction<D: BlockDevice, S: SegmentStore>(
    disk: &mut DiskManager<D>,
    log: &mut LogManager<S>,
    txn_id: TxnId,
    from: Lsn,
) -> (r: Result<(), StorageError>)
    requires
        old(disk).inv(),
        old(log).inv(),
    ensures
        final(disk).inv(),
        final(log).inv(),
        final(disk).spec_page_size() == old(disk).spec_page_size(),
        r is Ok ==> final(log).view().last_lsns.dom() == old(log).view().last_lsns.dom().insert(txn_id.0),
        r is Ok ==> exists|v: LogView|
            final(log).view() == #[trigger] after_append(after_append(v, txn_id.0, KindView::Abort), txn_id.0, KindView::End),
        r is Ok ==> undo_ran(
            old(disk).spec_page_size(),
            txn_id.0,
            from.0,
            old(log).view(),
            old(disk).contents(),
            final(log).view(),
            final(disk).contents(),
        ),
{
    let mut cursor: Option<Lsn> = Some(from);
    let ghost ps = disk.spec_page_size();
    let ghost mut views: Seq<LogView> = seq![log.view()];
    let ghost mut disks: Seq<Seq<u8>> = seq![disk.contents()];
    let ghost mut recs: Seq<RecordView> = Seq::empty();
    let ghost mut lsns: Seq<u64> = Seq::empty();
    proof {
        reveal(undo_trail);
        reveal(walked);
    }
    loop
        invariant
            undo_trail(ps, txn_id.0, views, disks, lsns, recs),
            views.len() == recs.len() + 1,
            disks.len() == recs.len() + 1,
            lsns.len() == recs.len(),
            walked(from.0, lsns, recs),
            opt_lsn(cursor) == undo_cursor(from.0, lsns, recs),
            views[0] == old(log).view(),
            disks[0] == old(disk).contents(),
            views.last() == log.view(),
            disks.last() == disk.contents(),
            old(log).view().last_lsns.dom().subset_of(log.view().last_lsns.dom()),
            log.view().last_lsns.dom().subset_of(old(log).view().last_lsns.dom().insert(txn_id.0)),
            disk.inv(),
            log.inv(),
            disk.spec_page_size() == ps,
            ps == old(disk).spec_page_size(),
        ensures
            match undo_cursor(from.0, lsns, recs) {
                Some(l) => spec_read_at(log.view(), l) is None,
                None => true,
            },
        decreases match cursor {
            Some(l) => l.0 as int + 1,
            None => 0,
        },
    {
        let lsn = match cursor {
            Some(l) => l,
            None => break,
        };
        let record = match log.read_at(lsn) {
            Ok(Some(rec)) => rec,
            Ok(None) => break,
            Err(e) => return Err(e),
        };
        let step = undo_step(&record);
        let ghost v_before = log.view();
        let ghost c_before = disk.contents();
        let ghost rv = record@;
        let ghost views0 = views;
        let ghost disks0 = disks;
        let ghost recs0 = recs;
        let ghost lsns0 = lsns;
        match step.compensation {
            Some(clr) => {
                proof {
                    assert(clr is Clr);
                }
                let (page_id, offset, before) = match &clr {
                    LogRecordKind::Clr { page_id, offset, after, .. } => (*page_id, *offset, copy_bytes(after)),
                    _ => {
                        break;
                    },
                };
                let clr_lsn = match append_checked(log, txn_id, clr) {
                    Ok(l) => l,
                    Err(e) => return Err(e),
                };
                match log.flush(clr_lsn) {
                    Ok(()) => {},
                    Err(e) => return Err(e),
                }
                match stamp_write(disk, page_id, offset, before.as_slice(), clr_lsn) {
                    Ok(()) => {},
                    Err(e) => return Err(e),
                }
                proof {
                    assert(rv.kind is Update);
                    assert(clr_for(rv) == clr@);
                    assert(undo_logged(v_before, log.view(), txn_id.0, rv));
                    assert(undo_written(c_before, disk.contents(), ps, rv, v_before.next_lsn));
                }
            },
            None => {
                proof {
                    assert(!(rv.kind is Update));
                }
            },
        }
        proof {
            lemma_undo_walk_extends(ps, txn_id.0, from.0, views, disks, lsns, recs, log.view(), disk.contents(), lsn.0, rv);
            views = views.push(log.view());
            disks = disks.push(disk.contents());
            recs = recs.push(rv);
            lsns = lsns.push(lsn.0);
        }
        cursor = match step.next {
            Some(n) => if n.0 < lsn.0 {
                Some(n)
            } else {
                None
            },
            None => None,
        };
        proof {
            assert(opt_lsn(step.next) == undo_next_of(rv));
        }
    }
    let ghost v0 = log.view();
    match append_checked(log, txn_id, LogRecordKind::Abort) {
        Ok(_) => {},
        Err(e) => return Err(e),
    }
    match append_checked(log, txn_id, LogRecordKind::End) {
        Ok(_) => {},
        Err(e) => return Err(e),
    }
    proof {
        assert(log.view() == after_append(after_append(v0, txn_id.0, KindView::Abort), txn_id.0, KindView::End));
        assert(undo_trail(ps, txn_id.0, views, disks, lsns, recs));
        assert(undo_walk(views.last(), from.0, lsns, recs));
    }
    Ok(())
}

/// Whether every checkpoint record among `records` is logged under the
/// checkpoint transaction.
fn well_placed(records: &Vec<LoggedRecord>) -> (b: bool)
    ensures
        b == checkpoints_well_placed(records@.map_values(|x: LoggedRecord| x@)),
{
    let ghost rv = records@.map_values(|x: LoggedRecord| x@);
    let mut i: usize = 0;
    while i < records.len()
        invariant
            i <= records@.len(),
            rv == records@.map_values(|x: LoggedRecord| x@),
            forall|j: int|
                0 <= j < i && (#[trigger] rv[j]).txn_id != CHECKPOINT_TXN_ID ==> !(rv[j].kind is CheckpointBegin) && !(rv[j].kind is CheckpointEnd),
        decreases records@.len() - i,
    {
        let rec = &records[i];
        assert(rv[i as int] == rec@);
        if rec.txn_id.0 != CHECKPOINT_TXN_ID {
            match &rec.kind {
                LogRecordKind::CheckpointBegin => return false,
                LogRecordKind::CheckpointEnd { .. } => return false,
                _ => {},
            }
        }
        i = i + 1;
    }
    true
}

/// The LSN of the last checkpoint the database header records, if any.
pub fn last_checkpoint_lsn<D: BlockDevice>(disk: &DiskManager<D>) -> (r: Result<Option<Lsn>, StorageError>)
    requires
        disk.inv(),
    ensures
        r matches Ok(o) ==> ({
            let raw = le_u64_at(disk.contents().subrange(0, PAGE_SIZE as int), LAST_CHECKPOINT_LSN_START as int);
            &&& PAGE_SIZE <= disk.contents().len()
            &&& o == (if raw == 0 { None::<Lsn> } else { Some(Lsn(raw)) })
        }),
{
    let header = match disk.read_page_unchecked(PageId(0)) {
        Ok(p) => p,
        Err(e) => return Err(e),
    };
    let raw = read_u64(header.data().as_slice(), LAST_CHECKPOINT_LSN_START);
    if raw == 0 {
        Ok(None)
    } else {
        Ok(Some(Lsn(raw)))
    }
}

/// What reading the log `v` from `from` can give: every record from there
/// on, or those of the sealed segments up to one that could not be read.
pub open spec fn log_gives_from(v: LogView, from: u64, got: Seq<RecordView>) -> bool {
    ||| got == spec_iter_from(v, from)
    ||| exists|j: int| first_pending(v, from) <= j < v.sealed_starts.len() && got == #[trigger] spec_iter_cut(v, from, j)
}

/// The page a redo writes `after` to at `offset`, stamping `lsn`, in the
/// file `c` of `ps`-byte pages, when the page's own LSN is below `lsn`.
pub open spec fn redo_write_ok(c: Seq<u8>, d: Seq<u8>, ps: usize, page_id: u32, offset: u16, after: Seq<u8>, lsn: u64) -> bool {
    let at = page_offset(page_id, ps);
    let page = c.subrange(at, at + PAGE_SIZE);
    &&& at + PAGE_SIZE <= c.len()
    &&& if le_u64_at(page, 4) < lsn {
        d == written(c, at as nat, spec_stamped(stamped_write(page, offset as int, after, lsn)))
    } else {
        d == c
    }
}

/// Redoing `rec` took the file of `ps`-byte pages from `c` to `d`: an
/// update or compensation is written when its page is older than it, an
/// allocation grows the file to hold the page, and anything else leaves
/// the file alone.
pub open spec fn redo_step_ok(c: Seq<u8>, d: Seq<u8>, ps: usize, rec: RecordView) -> bool {
    match rec.kind {
        KindView::Update { page_id, offset, after, .. } => redo_write_ok(c, d, ps, page_id, offset, after, rec.lsn),
        KindView::Clr { page_id, offset, after, .. } => redo_write_ok(c, d, ps, page_id, offset, after, rec.lsn),
        KindView::AllocPage { page_id } => d == c || d == resized(c, ((page_id + 1) * ps) as nat),
        _ => d == c,
    }
}

/// The records `recs` were redone in turn; `disks` is the file before and
/// after each.
pub open spec fn redo_trail(ps: usize, recs: Seq<RecordView>, disks: Seq<Seq<u8>>) -> bool {
    &&& disks.len() == recs.len() + 1
    &&& forall|i: int| 0 <= i < recs.len() ==> redo_step_ok(disks[i], disks[i + 1], ps, #[trigger] recs[i])
}

/// The transactions `todo` rolled back in turn, each from the LSN it
/// carries; `vs` and `cs` are the log and the file before and after each.
pub open spec fn undos_ran(ps: usize, todo: Seq<(u64, u64)>, vs: Seq<LogView>, cs: Seq<Seq<u8>>) -> bool {
    &&& vs.len() == todo.len() + 1
    &&& cs.len() == todo.len() + 1
    &&& forall|i: int|
        0 <= i < todo.len() ==> undo_ran(ps, (#[trigger] todo[i]).0, todo[i].1, vs[i], cs[i], vs[i + 1], cs[i + 1])
}

/// `todo` names, once each and with its last LSN, exactly the
/// transactions the table `att` holds as uncommitted.
pub open spec fn losers_of(att: Map<u64, (u64, bool)>, todo: Seq<(u64, u64)>) -> bool {
    &&& todo.map_values(|e: (u64, u64)| e.0).no_duplicates()
    &&& forall|i: int| 0 <= i < todo.len() ==> att.dom().contains((#[trigger] todo[i]).0) && att[todo[i].0] == (todo[i].1, false)
    &&& forall|t: u64| #![trigger att.dom().contains(t)] att.dom().contains(t) && !att[t].1 ==> todo.map_values(|e: (u64, u64)| e.0).contains(t)
}

/// `m` is the oldest LSN the dirty-page table `dpt` records.
pub open spec fn oldest_dirty(dpt: Map<u32, u64>, m: u64) -> bool {
    &&& exists|p: u32| #[trigger] dpt.dom().contains(p) && dpt[p] == m
    &&& forall|p: u32| #[trigger] dpt.dom().contains(p) ==> m <= dpt[p]
}

/// Where analysis starts reading the log: the last checkpoint's begin the
/// header page `h` records, or the start of the log when it records none.
pub open spec fn analysis_start(h: Seq<u8>) -> u64 {
    let raw = le_u64_at(h, LAST_CHECKPOINT_LSN_START as int);
    if raw == 0 {
        SEGMENT_HEADER_LEN
    } else {
        raw
    }
}

/// Redo brings a logged update to its page: when the page is older than
/// the update, the file holds the update's bytes where it wrote them
/// afterwards (an update of the page body, past its checksum and LSN).
pub proof fn lemma_redo_writes_update(c: Seq<u8>, d: Seq<u8>, ps: usize, rec: RecordView)
    requires
        redo_step_ok(c, d, ps, rec),
        rec.kind matches KindView::Update { page_id, offset, after, .. } && 12 <= offset && offset + after.len()
            <= PAGE_SIZE && le_u64_at(
            c.subrange(page_offset(page_id, ps), page_offset(page_id, ps) + PAGE_SIZE),
            4,
        ) < rec.lsn,
    ensures
        rec.kind matches KindView::Update { page_id, offset, after, .. } && d.subrange(
            page_offset(page_id, ps) + offset,
            page_offset(page_id, ps) + offset + after.len(),
        ) == after,
{
    match rec.kind {
        KindView::Update { page_id, offset, after, .. } => {
            let at = page_offset(page_id, ps);
            let page = c.subrange(at, at + PAGE_SIZE);
            let w = stamped_write(page, offset as int, after, rec.lsn);
            lemma_auto_spec_u64_to_from_le_bytes();
            lemma_auto_spec_u32_to_from_le_bytes();
            let st = spec_stamped(w);
            assert(w.len() == PAGE_SIZE);
            assert(st.len() == PAGE_SIZE);
            assert(st.subrange(offset as int, offset + after.len()) =~= after);
            crate::buffer::lemma_written_reads_back(c, at as nat, st);
            assert(d.subrange(at + offset, at + offset + after.len()) =~= st.subrange(
                offset as int,
                offset + after.len(),
            ));
        },
        _ => {},
    }
}

/// Recovers the database after a crash: analyses the log from the last
/// checkpoint, redoes every logged change the pages lack, rolls back every
/// transaction that never committed, makes the log and the file durable,
/// and gives the highest transaction id the log has used.
pub fn recover<D: BlockDevice, S: SegmentStore>(disk: &mut DiskManager<D>, log: &mut LogManager<S>) -> (r: Result<
    Option<TxnId>,
    StorageError,
>)
    requires
        old(disk).inv(),
        old(log).inv(),
        old(log).view().active_contents.len() >= SEGMENT_HEADER_LEN,
    ensures
        final(disk).inv(),
        final(log).inv(),
        final(disk).spec_page_size() == old(disk).spec_page_size(),
        r matches Ok(o) ==> match o {
            Some(t) => t.0 != CHECKPOINT_TXN_ID && final(log).view().last_lsns.dom().contains(t.0)
                && forall|k: u64|
                #![trigger final(log).view().last_lsns.dom().contains(k)]
                final(log).view().last_lsns.dom().contains(k) && k != CHECKPOINT_TXN_ID ==> k <= t.0,
            None => forall|k: u64|
                #![trigger final(log).view().last_lsns.dom().contains(k)]
                final(log).view().last_lsns.dom().contains(k) ==> k == CHECKPOINT_TXN_ID,
        },
        r is Ok ==> old(log).view().last_lsns.dom().subset_of(final(log).view().last_lsns.dom()),
        r is Ok ==> exists|arecs: Seq<RecordView>, rrecs: Seq<RecordView>, rdisks: Seq<Seq<u8>>, todo: Seq<(u64, u64)>, vs: Seq<LogView>, cs: Seq<Seq<u8>>|
            #![trigger redo_trail(old(disk).spec_page_size(), rrecs, rdisks), undos_ran(old(disk).spec_page_size(), todo, vs, cs), log_gives_from(old(log).view(), analysis_start(old(disk).contents().subrange(0, PAGE_SIZE as int)), arecs)]
            {
                let ps = old(disk).spec_page_size();
                let (att, dpt) = spec_analysis(arecs);
                &&& PAGE_SIZE <= old(disk).contents().len()
                &&& log_gives_from(old(log).view(), analysis_start(old(disk).contents().subrange(0, PAGE_SIZE as int)), arecs)
                &&& (dpt.dom() == Set::<u32>::empty() ==> rrecs.len() == 0)
                &&& (dpt.dom() != Set::<u32>::empty() ==> exists|m: u64| oldest_dirty(dpt, m) && #[trigger] log_gives_from(old(log).view(), m, rrecs))
                &&& redo_trail(ps, rrecs, rdisks)
                &&& rdisks[0] == old(disk).contents()
                &&& losers_of(att, todo)
                &&& undos_ran(ps, todo, vs, cs)
                &&& vs[0] == old(log).view()
                &&& cs[0] == rdisks.last()
                &&& final(disk).contents() == cs.last()
                &&& (final(log).view() == vs.last() || final(log).view() == after_flush(vs.last()))
            },
{
    let ghost ps = disk.spec_page_size();
    let ghost c0 = disk.contents();
    let ghost v0 = log.view();
    let start = match last_checkpoint_lsn(disk) {
        Ok(Some(l)) => l,
        Ok(None) => Lsn(SEGMENT_HEADER_LEN),
        Err(e) => return Err(e),
    };
    let records = match log.iter_from(start) {
        Ok(v) => v,
        Err(e) => return Err(e),
    };
    let ghost arecs = records@.map_values(|x: LoggedRecord| x@);
    proof {
        assert(start.0 == analysis_start(c0.subrange(0, PAGE_SIZE as int)));
        assert(log_gives_from(v0, start.0, arecs));
    }
    if !well_placed(&records) {
        let mut reason = String::new();
        push_str(&mut reason, "checkpoint record logged outside the checkpoint transaction");
        return Err(StorageError::CorruptLogHeader { reason });
    }
    let analysis = analyze(&records);
    let to_undo = losers(&analysis);
    let ghost mut rrecs: Seq<RecordView> = Seq::empty();
    let ghost mut rdisks: Seq<Seq<u8>> = seq![c0];
    match redo_start(&analysis) {
        Some(min_lsn) => {
            let redo_records = match log.iter_from(min_lsn) {
                Ok(v) => v,
                Err(e) => return Err(e),
            };
            proof {
                rrecs = redo_records@.map_values(|x: LoggedRecord| x@);
                assert(oldest_dirty(analysis.dpt_view(), min_lsn.0));
                assert(log_gives_from(v0, min_lsn.0, rrecs));
            }
            let mut i: usize = 0;
            while i < redo_records.len()
                invariant
                    rrecs == redo_records@.map_values(|x: LoggedRecord| x@),
                    i <= redo_records@.len(),
                    redo_trail(ps, rrecs.take(i as int), rdisks),
                    rdisks[0] == c0,
                    rdisks.last() == disk.contents(),
                    log.view() == v0,
                    c0 == old(disk).contents(),
                    v0 == old(log).view(),
                    disk.inv(),
                    log.inv(),
                    disk.spec_page_size() == ps,
                    ps == old(disk).spec_page_size(),
                    old(log).view().last_lsns.dom().subset_of(log.view().last_lsns.dom()),
                decreases redo_records@.len() - i,
            {
                let record = &redo_records[i];
                let ghost c_before = disk.contents();
                let page_lsn = match redo_page(&record.kind) {
                    Some(p) => match disk_page_lsn(disk, p) {
                        Ok(l) => l,
                        Err(e) => return Err(e),
                    },
                    None => Lsn(0),
                };
                match redo_action(record, page_lsn) {
                    RedoAction::Write { page_id, offset, bytes } => {
                        match stamp_write(disk, page_id, offset, bytes.as_slice(), record.lsn) {
                            Ok(()) => {},
                            Err(e) => return Err(e),
                        }
                    },
                    RedoAction::Allocate { page_id } => {
                        if page_id.0 == u32::MAX {
                            let mut reason = String::new();
                            push_str(&mut reason, "logged page allocation names the last page id");
                            return Err(StorageError::CorruptPage { page_id: page_id.0, reason });
                        }
                        match disk.ensure_allocated(page_id) {
                            Ok(()) => {},
                            Err(e) => return Err(e),
                        }
                    },
                    RedoAction::Skip => {},
                }
                proof {
                    let rv = record@;
                    assert(rrecs[i as int] == rv);
                    assert(redo_step_ok(c_before, disk.contents(), ps, rv));
                    let rd0 = rdisks;
                    rdisks = rdisks.push(disk.contents());
                    let t = rrecs.take(i as int + 1);
                    assert forall|k: int| 0 <= k < t.len() implies redo_step_ok(rdisks[k], rdisks[k + 1], ps, #[trigger] t[k]) by {
                        if k < i {
                            assert(t[k] == rrecs.take(i as int)[k]);
                            assert(rdisks[k] == rd0[k] && rdisks[k + 1] == rd0[k + 1]);
                        }
                    }
                }
                i = i + 1;
            }
            proof {
                assert(rrecs.take(i as int) =~= rrecs);
            }
        },
        None => {},
    }
    let ghost d1 = disk.contents();
    let ghost todo = to_undo@.map_values(|e: (TxnId, Lsn)| (e.0.0, e.1.0));
    proof {
        assert(todo.map_values(|e: (u64, u64)| e.0) =~= to_undo@.map_values(|e: (TxnId, Lsn)| e.0.0));
        assert(losers_of(analysis.att_view(), todo));
    }
    let ghost mut vs: Seq<LogView> = seq![log.view()];
    let ghost mut cs: Seq<Seq<u8>> = seq![disk.contents()];
    let mut j: usize = 0;
    while j < to_undo.len()
        invariant
            disk.inv(),
            log.inv(),
            disk.spec_page_size() == ps,
            ps == old(disk).spec_page_size(),
            old(log).view().last_lsns.dom().subset_of(log.view().last_lsns.dom()),
            todo == to_undo@.map_values(|e: (TxnId, Lsn)| (e.0.0, e.1.0)),
            j <= to_undo@.len(),
            undos_ran(ps, todo.take(j as int), vs, cs),
            vs[0] == v0,
            cs[0] == d1,
            vs.last() == log.view(),
            cs.last() == disk.contents(),
        decreases to_undo@.len() - j,
    {
        let (txn_id, last_lsn) = to_undo[j];
        let ghost v_before = log.view();
        let ghost c_before = disk.contents();
        match undo_transaction(disk, log, txn_id, last_lsn) {
            Ok(()) => {},
            Err(e) => return Err(e),
        }
        proof {
            assert(todo[j as int] == (txn_id.0, last_lsn.0));
            let vs0 = vs;
            let cs0 = cs;
            vs = vs.push(log.view());
            cs = cs.push(disk.contents());
            let t = todo.take(j as int + 1);
            assert forall|k: int| 0 <= k < t.len() implies undo_ran(ps, (#[trigger] t[k]).0, t[k].1, vs[k], cs[k], vs[k + 1], cs[k + 1]) by {
                if k < j {
                    assert(t[k] == todo.take(j as int)[k]);
                    assert(vs[k] == vs0[k] && vs[k + 1] == vs0[k + 1]);
                    assert(cs[k] == cs0[k] && cs[k + 1] == cs0[k + 1]);
                }
            }
        }
        j = j + 1;
    }
    proof {
        assert(todo.take(j as int) =~= todo);
    }
    let ghost v_end = log.view();
    match log.flush_all() {
        Ok(()) => {},
        Err(e) => return Err(e),
    }
    match disk.sync() {
        Ok(()) => {},
        Err(e) => return Err(e),
    }
    proof {
        assert(log.view() == vs.last() || log.view() == after_flush(vs.last()));
        assert(redo_trail(ps, rrecs, rdisks));
        assert(undos_ran(ps, todo, vs, cs));
    }
    Ok(log.max_txn_id())
}

} // verus!
