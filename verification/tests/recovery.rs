use storage::block_device::MemDevice;
use storage::disk::{DiskManager, LAST_CHECKPOINT_LSN_START};
use storage::error::StorageError;
use storage::ids::{Lsn, PageId, TxnId};
use storage::log_manager::{LogManager, NoSegmentStore};
use storage::page::PAGE_SIZE;
use storage::recovery;
use storage::txn::checkpoint::logged_write;
use storage::wal::{checkpoint_txn, LogRecordKind};

type Log = LogManager<NoSegmentStore<MemDevice>>;

struct Db {
    disk: DiskManager<MemDevice>,
    log: Log,
}

impl Db {
    fn new() -> Db {
        Db {
            disk: DiskManager::open_with_device(MemDevice::new(), PAGE_SIZE).expect("open disk"),
            log: LogManager::open_with_device(MemDevice::new()).expect("open log"),
        }
    }

    fn new_page(&mut self) -> PageId {
        self.disk.allocate_page().expect("allocate")
    }

    fn append(&mut self, txn: TxnId, kind: LogRecordKind) -> Lsn {
        recovery::append_checked(&mut self.log, txn, kind).expect("append")
    }

    /// Logs and applies a write, giving the LSN of its update record.
    fn write(&mut self, txn: TxnId, page_id: PageId, offset: u16, bytes: &[u8]) -> Lsn {
        logged_write(&mut self.disk, &mut self.log, txn, page_id, offset, bytes).expect("write");
        self.disk.read_page(page_id).expect("read").page_lsn()
    }

    fn commit(&mut self, txn: TxnId) -> Lsn {
        let lsn = self.append(txn, LogRecordKind::Commit);
        self.log.flush(lsn).expect("flush");
        lsn
    }

    /// Simulates a process restart: whatever was not written to the
    /// devices is lost, and the disk and the log are opened afresh from them.
    fn restart(self) -> Db {
        let disk = DiskManager::open_with_device(self.disk.into_device(), PAGE_SIZE).expect("reopen disk");
        let log = LogManager::open_with_device(self.log.into_active_device()).expect("reopen log");
        Db { disk, log }
    }

    fn recover(&mut self) -> Result<Option<TxnId>, StorageError> {
        recovery::recover(&mut self.disk, &mut self.log)
    }

    fn bytes_at(&self, page_id: PageId, at: usize, len: usize) -> Vec<u8> {
        self.disk.read_page(page_id).expect("read").data()[at..at + len].to_vec()
    }

    fn set_last_checkpoint_lsn(&mut self, txn: TxnId, lsn: Lsn) {
        logged_write(
            &mut self.disk,
            &mut self.log,
            txn,
            PageId(0),
            LAST_CHECKPOINT_LSN_START as u16,
            &lsn.0.to_le_bytes(),
        )
        .expect("header write");
    }
}

#[test]
fn redo_replays_committed_writes_that_never_reached_disk() -> Result<(), StorageError> {
    let mut db = Db::new();
    let page_id = db.new_page();
    db.append(
        TxnId(1),
        LogRecordKind::Update { page_id, offset: 16, before: vec![0; 6], after: b"hello!".to_vec() },
    );
    db.commit(TxnId(1));
    assert_eq!(db.bytes_at(page_id, 16, 6), vec![0; 6], "the write never reached the file");

    let mut db = db.restart();
    db.recover()?;
    assert_eq!(db.bytes_at(page_id, 16, 6), b"hello!");
    Ok(())
}

#[test]
fn undo_rolls_back_an_uncommitted_transactions_writes() -> Result<(), StorageError> {
    let mut db = Db::new();
    let page_id = db.new_page();
    db.write(TxnId(1), page_id, 16, b"before");
    db.commit(TxnId(1));

    db.write(TxnId(2), page_id, 16, b"after!");
    db.log.flush_all()?;

    let mut db = db.restart();
    db.recover()?;
    assert_eq!(db.bytes_at(page_id, 16, 6), b"before", "the uncommitted write must be undone");
    Ok(())
}

#[test]
fn recovery_is_idempotent_when_run_twice() -> Result<(), StorageError> {
    let mut db = Db::new();
    let page_id = db.new_page();
    db.append(
        TxnId(1),
        LogRecordKind::Update { page_id, offset: 16, before: vec![0; 6], after: b"hello!".to_vec() },
    );
    db.commit(TxnId(1));

    let mut db = db.restart();
    db.recover()?;
    let after_first = db.disk.read_page(page_id)?.data().to_vec();
    db.recover()?;
    let after_second = db.disk.read_page(page_id)?.data().to_vec();
    assert_eq!(after_first, after_second, "redo must be idempotent");
    Ok(())
}

#[test]
fn undo_resumes_from_a_partially_undone_transaction_without_redoing_a_completed_step() -> Result<(), StorageError> {
    let mut db = Db::new();
    let page_id = db.new_page();
    db.write(TxnId(1), page_id, 16, b"000000");
    db.commit(TxnId(1));

    db.write(TxnId(2), page_id, 16, b"111111");
    let second_update_lsn = db.write(TxnId(2), page_id, 16, b"222222");
    db.log.flush_all()?;

    let second_update = db.log.read_at(second_update_lsn)?.expect("a record at this LSN");
    let LogRecordKind::Update { offset, before, .. } = second_update.kind else {
        panic!("expected the second update's own record back");
    };
    let undo_next_lsn = second_update.prev_lsn.expect("txn 2 has a first update");
    let clr_lsn = db.append(TxnId(2), LogRecordKind::Clr { page_id, offset, after: before.clone(), undo_next_lsn });
    db.log.flush_all()?;
    recovery::stamp_write(&mut db.disk, page_id, offset, &before, clr_lsn)?;

    let mut db = db.restart();
    db.recover()?;
    assert_eq!(db.bytes_at(page_id, 16, 6), b"000000", "both updates must end up undone");

    let clrs = db
        .log
        .iter_from(Lsn(1))?
        .into_iter()
        .filter(|r| r.txn_id == TxnId(2) && matches!(r.kind, LogRecordKind::Clr { .. }))
        .count();
    assert_eq!(
        clrs, 2,
        "one Clr from the simulated first attempt, one from resuming - never a third \
         re-undoing the already-undone second update"
    );
    Ok(())
}

#[test]
fn analysis_starts_from_the_checkpoint_and_still_finds_a_loser_that_began_before_it() -> Result<(), StorageError> {
    let mut db = Db::new();
    let page_id = db.new_page();
    db.write(TxnId(1), page_id, 16, b"000000");
    db.commit(TxnId(1));

    let first_update_lsn = db.write(TxnId(2), page_id, 16, b"111111");

    let begin_lsn = db.append(checkpoint_txn(), LogRecordKind::CheckpointBegin);
    db.append(
        checkpoint_txn(),
        LogRecordKind::CheckpointEnd {
            att: vec![(TxnId(2), first_update_lsn)],
            dpt: vec![(page_id, first_update_lsn)],
        },
    );
    db.set_last_checkpoint_lsn(TxnId(9), begin_lsn);
    db.commit(TxnId(9));
    db.append(TxnId(9), LogRecordKind::End);
    db.log.flush_all()?;

    db.write(TxnId(2), page_id, 16, b"222222");
    db.log.flush_all()?;

    let mut db = db.restart();
    db.recover()?;
    assert_eq!(
        db.bytes_at(page_id, 16, 6),
        b"000000",
        "the pre-checkpoint update must still be undone even though analysis started scanning \
         only from the checkpoint's LSN"
    );
    Ok(())
}

#[test]
fn begin_resets_stale_committed_state_left_by_a_reused_txn_id() -> Result<(), StorageError> {
    let mut db = Db::new();
    let page_id = db.new_page();
    db.write(TxnId(1), page_id, 16, b"------");
    db.commit(TxnId(1));
    db.append(TxnId(1), LogRecordKind::End);
    db.log.flush_all()?;

    db.append(TxnId(5), LogRecordKind::Begin);
    db.write(TxnId(5), page_id, 16, b"first!");
    db.commit(TxnId(5));

    db.append(TxnId(5), LogRecordKind::Begin);
    db.write(TxnId(5), page_id, 16, b"second");
    db.log.flush_all()?;

    let mut db = db.restart();
    db.recover()?;
    assert_eq!(
        db.bytes_at(page_id, 16, 6),
        b"first!",
        "generation 1's committed write must survive, and generation 2's uncommitted reuse of \
         the same id must be undone rather than left in place"
    );
    Ok(())
}

#[test]
fn checkpoint_seeding_does_not_resurrect_a_transaction_the_scan_already_saw_end_for() -> Result<(), StorageError> {
    let mut db = Db::new();
    let page_id = db.new_page();
    db.write(TxnId(1), page_id, 16, b"000000");
    db.commit(TxnId(1));
    db.append(TxnId(1), LogRecordKind::End);

    db.append(TxnId(2), LogRecordKind::Begin);
    let update_lsn = db.write(TxnId(2), page_id, 16, b"222222");

    let begin_lsn = db.append(checkpoint_txn(), LogRecordKind::CheckpointBegin);
    db.commit(TxnId(2));
    db.append(TxnId(2), LogRecordKind::End);
    db.append(
        checkpoint_txn(),
        LogRecordKind::CheckpointEnd { att: vec![(TxnId(2), update_lsn)], dpt: vec![(page_id, update_lsn)] },
    );
    db.set_last_checkpoint_lsn(TxnId(9), begin_lsn);
    db.commit(TxnId(9));
    db.append(TxnId(9), LogRecordKind::End);
    db.log.flush_all()?;

    let mut db = db.restart();
    db.recover()?;
    assert_eq!(
        db.bytes_at(page_id, 16, 6),
        b"222222",
        "txn 2's committed write must survive recovery - the checkpoint's own snapshot, \
         captured before txn 2's commit/end were logged, must not resurrect it as still active \
         and get it wrongly undone"
    );
    Ok(())
}

#[test]
fn recover_reports_the_highest_transaction_id_the_log_has_used() -> Result<(), StorageError> {
    let mut db = Db::new();
    let page_id = db.new_page();
    db.write(TxnId(3), page_id, 16, b"abc");
    db.commit(TxnId(3));
    db.write(TxnId(7), page_id, 20, b"xyz");
    db.commit(TxnId(7));
    let mut db = db.restart();
    assert_eq!(db.recover()?, Some(TxnId(7)));
    Ok(())
}

#[test]
fn an_uncommitted_header_update_is_undone_like_any_other_page_mutation() -> Result<(), StorageError> {
    let mut db = Db::new();
    let field = storage::disk::CATALOG_FIRST_PAGE_START;
    let before = db.disk.read_page_unchecked(PageId(0))?.data()[field..field + 4].to_vec();
    assert_eq!(before, vec![0xFF; 4], "no catalog heap yet");

    db.append(TxnId(1), LogRecordKind::Begin);
    let page_id = db.new_page();
    logged_write(&mut db.disk, &mut db.log, TxnId(1), PageId(0), field as u16, &page_id.0.to_le_bytes())?;
    db.log.flush_all()?;

    let mut db = db.restart();
    db.recover()?;
    let after = db.disk.read_page_unchecked(PageId(0))?.data()[field..field + 4].to_vec();
    assert_eq!(after, before, "an uncommitted header update must be undone like any other page mutation");
    Ok(())
}
