//! Fuzzy checkpoints: the tables recovery starts from, and the log
//! truncation they allow.

use vstd::prelude::*;
use vstd::bytes::*;
use vstd::slice::*;

use crate::block_device::BlockDevice;
use crate::disk::{DiskManager, LAST_CHECKPOINT_LSN_START};
use crate::error::{StorageError, TxnError};
use crate::ids::{Lsn, PageId, TxnId};
use crate::log_manager::{LogManager, SegmentStore};
use crate::page::PAGE_SIZE;
use crate::recovery::{append_checked, stamp_write, stamped_write};
use crate::block_device::written;
use crate::disk::page_offset;
use crate::page::spec_stamped;
use crate::txn::isolation::IsolationLevel;
use crate::txn::manager::TransactionManager;
use crate::wal::{checkpoint_txn, LogRecordKind};

verus! {

/// Writes `bytes` at `offset` of page `page_id` as `txn_id`'s logged
/// update: the before- and after-images are logged and made durable, then
/// the page is written with the update's LSN.
pub fn logged_write<D: BlockDevice, S: SegmentStore>(
    disk: &mut DiskManager<D>,
    log: &mut LogManager<S>,
    txn_id: TxnId,
    page_id: PageId,
    offset: u16,
    bytes: &[u8],
) -> (r: Result<(), StorageError>)
    requires
        old(disk).inv(),
        old(log).inv(),
        offset + bytes@.len() <= PAGE_SIZE,
    ensures
        final(disk).inv(),
        final(log).inv(),
        final(disk).spec_page_size() == old(disk).spec_page_size(),
        final(disk).next_page_id() == old(disk).next_page_id(),
        r is Ok ==> ({
            let at = page_offset(page_id.0, old(disk).spec_page_size());
            &&& at + PAGE_SIZE <= old(disk).contents().len()
            &&& final(disk).contents() == written(
                old(disk).contents(),
                at as nat,
                spec_stamped(
                    stamped_write(
                        old(disk).contents().subrange(at, at + PAGE_SIZE),
                        offset as int,
                        bytes@,
                        old(log).view().next_lsn,
                    ),
                ),
            )
        }),
{
    let page = match disk.read_page_unchecked(page_id) {
        Ok(p) => p,
        Err(e) => return Err(e),
    };
    let start = offset as usize;
    let before_slice = slice_subrange(page.data().as_slice(), start, start + bytes.len());
    let mut before: Vec<u8> = Vec::new();
    crate::codec::push_bytes(&mut before, before_slice);
    let mut after: Vec<u8> = Vec::new();
    crate::codec::push_bytes(&mut after, bytes);
    let lsn = match append_checked(
        log,
        txn_id,
        LogRecordKind::Update { page_id, offset, before, after },
    ) {
        Ok(l) => l,
        Err(e) => return Err(e),
    };
    match log.flush(lsn) {
        Ok(()) => {},
        Err(e) => return Err(e),
    }
    stamp_write(disk, page_id, offset, bytes, lsn)
}

/// Takes a checkpoint: logs its begin and its end with the live
/// transactions' last records (pages are written through to the file, so
/// none is dirty), makes the log durable, records the begin's LSN in the
/// database header under a transaction of its own, syncs the file, and
/// drops the log segments that end before both the checkpoint and the
/// oldest live transaction. Gives the begin's LSN.
pub fn write_checkpoint<D: BlockDevice, S: SegmentStore>(
    disk: &mut DiskManager<D>,
    log: &mut LogManager<S>,
    txn_manager: &mut TransactionManager,
) -> (r: Result<Lsn, TxnError>)
    requires
        old(disk).inv(),
        old(log).inv(),
        old(txn_manager).inv(),
        old(txn_manager).view().next_txn_id < u64::MAX,
        old(txn_manager).view().next_ts < u64::MAX - 1,
    ensures
        final(disk).inv(),
        final(log).inv(),
        final(txn_manager).inv(),
        r matches Ok(l) ==> l.0 == old(log).view().next_lsn,
{
    let ckpt = checkpoint_txn();
    let begin_lsn = match append_checked(log, ckpt, LogRecordKind::CheckpointBegin) {
        Ok(l) => l,
        Err(e) => return Err(TxnError::Storage(e)),
    };
    let att = txn_manager.active_snapshot(log);
    let dpt: Vec<(PageId, Lsn)> = Vec::new();
    match append_checked(log, ckpt, LogRecordKind::CheckpointEnd { att, dpt }) {
        Ok(_) => {},
        Err(e) => return Err(TxnError::Storage(e)),
    }
    match log.flush_all() {
        Ok(()) => {},
        Err(e) => return Err(TxnError::Storage(e)),
    }
    let header_txn = match txn_manager.begin(log, IsolationLevel::ReadCommitted) {
        Ok(t) => t,
        Err(e) => return Err(e),
    };
    let field = u64_to_le_bytes(begin_lsn.0);
    proof {
        lemma_auto_spec_u64_to_from_le_bytes();
    }
    match logged_write(disk, log, header_txn, PageId(0), LAST_CHECKPOINT_LSN_START as u16, field.as_slice()) {
        Ok(()) => {},
        Err(e) => return Err(TxnError::Storage(e)),
    }
    match txn_manager.commit(header_txn, log) {
        Ok(()) => {},
        Err(e) => return Err(e),
    }
    match disk.sync() {
        Ok(()) => {},
        Err(e) => return Err(TxnError::Storage(e)),
    }
    let bound = match txn_manager.earliest_active_begin_lsn() {
        Some(l) => if l.0 < begin_lsn.0 {
            l
        } else {
            begin_lsn
        },
        None => begin_lsn,
    };
    match log.truncate_below(bound) {
        Ok(()) => {},
        Err(e) => return Err(TxnError::Storage(e)),
    }
    Ok(begin_lsn)
}

} // verus!
