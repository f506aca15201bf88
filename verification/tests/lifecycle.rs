use storage::block_device::MemDevice;
use storage::disk::DiskManager;
use storage::error::TxnError;
use storage::ids::{Lsn, PageId, Rid, TxnId};
use storage::log_manager::{LogManager, NoSegmentStore};
use storage::page::PAGE_SIZE;
use storage::recovery;
use storage::txn::checkpoint::{logged_write, write_checkpoint};
use storage::txn::isolation::IsolationLevel;
use storage::txn::manager::TransactionManager;
use storage::wal::LogRecordKind;

struct Db {
    disk: DiskManager<MemDevice>,
    log: LogManager<NoSegmentStore<MemDevice>>,
}

fn open_db() -> Db {
    Db {
        disk: DiskManager::open_with_device(MemDevice::new(), PAGE_SIZE).expect("open disk"),
        log: LogManager::open_with_device(MemDevice::new()).expect("open log"),
    }
}

/// Simulates a process restart: the disk and the log are opened afresh
/// from their devices, losing whatever was never written to them.
fn restart(db: Db) -> Db {
    Db {
        disk: DiskManager::open_with_device(db.disk.into_device(), PAGE_SIZE).expect("reopen disk"),
        log: LogManager::open_with_device(db.log.into_active_device()).expect("reopen log"),
    }
}

fn begin(manager: &mut TransactionManager, db: &mut Db) -> Result<TxnId, TxnError> {
    manager.begin(&mut db.log, IsolationLevel::ReadCommitted)
}

fn commit(manager: &mut TransactionManager, db: &mut Db, txn: TxnId) -> Result<(), TxnError> {
    manager.commit(txn, &mut db.log)
}

fn abort(manager: &mut TransactionManager, db: &mut Db, txn: TxnId) -> Result<(), TxnError> {
    manager.abort(txn, &mut db.disk, &mut db.log)
}

#[test]
fn begin_assigns_a_fresh_id_and_commit_removes_it_from_active() -> Result<(), TxnError> {
    let mut db = open_db();
    let mut manager = TransactionManager::new(None);

    let txn_a = begin(&mut manager, &mut db)?;
    let txn_b = begin(&mut manager, &mut db)?;
    assert_ne!(txn_a, txn_b, "each begin must assign a distinct id");
    assert!(manager.get(txn_a).is_ok());

    commit(&mut manager, &mut db, txn_a)?;
    assert!(manager.get(txn_a).is_err(), "a committed transaction is no longer active");
    assert!(manager.get(txn_b).is_ok(), "committing one transaction must not affect another");
    Ok(())
}

#[test]
fn abort_undoes_writes_via_the_shared_undo_routine() -> Result<(), TxnError> {
    let mut db = open_db();
    let mut manager = TransactionManager::new(None);

    let setup = begin(&mut manager, &mut db)?;
    let page_id = db.disk.allocate_page()?;
    logged_write(&mut db.disk, &mut db.log, setup, page_id, 16, b"before")?;
    commit(&mut manager, &mut db, setup)?;

    let txn = begin(&mut manager, &mut db)?;
    logged_write(&mut db.disk, &mut db.log, txn, page_id, 16, b"after!")?;

    abort(&mut manager, &mut db, txn)?;
    assert!(manager.get(txn).is_err());

    let page = db.disk.read_page(page_id)?;
    assert_eq!(&page.data()[16..22], b"before", "abort must restore the before-image");
    Ok(())
}

#[test]
fn write_checkpoint_records_its_begin_and_captures_active_transactions() -> Result<(), TxnError> {
    let mut db = open_db();
    let mut manager = TransactionManager::new(None);
    assert_eq!(recovery::last_checkpoint_lsn(&db.disk)?, None);

    let txn = begin(&mut manager, &mut db)?;
    let page_id = db.disk.allocate_page()?;
    logged_write(&mut db.disk, &mut db.log, txn, page_id, 16, b"hello!")?;

    let begin_lsn = write_checkpoint(&mut db.disk, &mut db.log, &mut manager)?;
    assert_eq!(recovery::last_checkpoint_lsn(&db.disk)?, Some(begin_lsn));

    let att = manager.active_snapshot(&db.log);
    assert!(att.iter().any(|(id, lsn)| *id == txn && *lsn != Lsn(0)), "the active txn must be in the ATT snapshot");

    let records = db.log.iter_from(begin_lsn)?;
    match &records[1].kind {
        LogRecordKind::CheckpointEnd { att, dpt } => {
            assert!(att.iter().any(|(id, _)| *id == txn));
            assert!(dpt.is_empty(), "pages are written through, so none is dirty");
        }
        other => panic!("expected the checkpoint's end record, got {other:?}"),
    }
    Ok(())
}

#[test]
fn commit_of_an_unknown_transaction_is_an_error() {
    let mut db = open_db();
    let mut manager = TransactionManager::new(None);
    assert!(matches!(commit(&mut manager, &mut db, TxnId(999)), Err(TxnError::UnknownTransaction(999))));
}

#[test]
fn recovery_seeds_the_next_id_past_every_id_the_log_has_ever_used() -> Result<(), TxnError> {
    let mut db = open_db();
    recovery::append_checked(&mut db.log, TxnId(7), LogRecordKind::Begin)?;
    let commit_lsn = recovery::append_checked(&mut db.log, TxnId(7), LogRecordKind::Commit)?;
    db.log.flush(commit_lsn)?;
    recovery::append_checked(&mut db.log, TxnId(7), LogRecordKind::End)?;
    db.log.flush_all()?;

    let mut db = restart(db);
    let highest_seen = recovery::recover(&mut db.disk, &mut db.log)?;
    assert_eq!(highest_seen, Some(TxnId(7)));

    let mut manager = TransactionManager::new(highest_seen);
    let txn = begin(&mut manager, &mut db)?;
    assert!(txn.0 > 7, "the next id handed out ({txn:?}) must exceed the log's highest id (7)");
    Ok(())
}

#[test]
fn a_transaction_begun_after_a_commit_has_a_strictly_greater_read_ts() -> Result<(), TxnError> {
    let mut db = open_db();
    let mut manager = TransactionManager::new(None);

    let earlier = begin(&mut manager, &mut db)?;
    let read_ts_before = manager.get(earlier)?.read_ts;
    commit(&mut manager, &mut db, earlier)?;

    let later = begin(&mut manager, &mut db)?;
    let read_ts_after = manager.get(later)?.read_ts;
    assert!(read_ts_after > read_ts_before);
    Ok(())
}

#[test]
fn a_committed_writers_version_is_visible_only_to_readers_begun_at_or_after_its_commit() -> Result<(), TxnError> {
    let mut db = open_db();
    let mut manager = TransactionManager::new(None);
    let rid = Rid::new(PageId(0), 0);

    let reader_before = begin(&mut manager, &mut db)?;
    let read_ts_before = manager.get(reader_before)?.read_ts;

    let writer = begin(&mut manager, &mut db)?;
    manager.version_store_mut().record_insert(writer, rid);
    assert!(!manager.version_store().is_visible(rid, read_ts_before));

    commit(&mut manager, &mut db, writer)?;
    assert!(
        !manager.version_store().is_visible(rid, read_ts_before),
        "a transaction that began before the writer committed must not see its row"
    );

    let reader_after = begin(&mut manager, &mut db)?;
    let read_ts_after = manager.get(reader_after)?.read_ts;
    assert!(
        manager.version_store().is_visible(rid, read_ts_after),
        "a transaction begun after the writer committed must see its row"
    );
    Ok(())
}

#[test]
fn oldest_active_read_ts_tracks_the_active_set() -> Result<(), TxnError> {
    let mut db = open_db();
    let mut manager = TransactionManager::new(None);

    let next_ts_before_any_txn = manager.oldest_active_read_ts();

    let older = begin(&mut manager, &mut db)?;
    let older_read_ts = manager.get(older)?.read_ts;
    assert_eq!(manager.oldest_active_read_ts(), next_ts_before_any_txn);

    let younger = begin(&mut manager, &mut db)?;
    let younger_read_ts = manager.get(younger)?.read_ts;
    assert!(younger_read_ts > older_read_ts);
    assert_eq!(manager.oldest_active_read_ts(), older_read_ts);

    commit(&mut manager, &mut db, older)?;
    assert_eq!(manager.oldest_active_read_ts(), younger_read_ts);

    commit(&mut manager, &mut db, younger)?;
    assert!(manager.oldest_active_read_ts() > younger_read_ts);
    Ok(())
}

#[test]
fn an_aborted_writers_version_never_resurfaces_for_a_later_committed_writer() -> Result<(), TxnError> {
    let mut db = open_db();
    let mut manager = TransactionManager::new(None);
    let rid = Rid::new(PageId(0), 0);

    let aborted_writer = begin(&mut manager, &mut db)?;
    manager.version_store_mut().record_insert(aborted_writer, rid);
    abort(&mut manager, &mut db, aborted_writer)?;

    let later_writer = begin(&mut manager, &mut db)?;
    manager.version_store_mut().record_insert(later_writer, rid);

    let reader_before_commit = begin(&mut manager, &mut db)?;
    let read_ts_before_commit = manager.get(reader_before_commit)?.read_ts;
    assert!(!manager.version_store().is_visible(rid, read_ts_before_commit));

    commit(&mut manager, &mut db, later_writer)?;
    let reader_after_commit = begin(&mut manager, &mut db)?;
    let read_ts_after_commit = manager.get(reader_after_commit)?.read_ts;
    assert!(manager.version_store().is_visible(rid, read_ts_after_commit));
    Ok(())
}

#[test]
fn commit_with_no_other_transaction_active_prunes_the_chain_immediately() -> Result<(), TxnError> {
    let mut db = open_db();
    let mut manager = TransactionManager::new(None);
    let rid = Rid::new(PageId(0), 0);

    let writer = begin(&mut manager, &mut db)?;
    manager.version_store_mut().record_insert(writer, rid);
    commit(&mut manager, &mut db, writer)?;
    assert_eq!(manager.version_store().chain_count(), 0);
    Ok(())
}

#[test]
fn committed_chain_survives_an_older_reader_and_is_pruned_once_that_reader_ends() -> Result<(), TxnError> {
    let mut db = open_db();
    let mut manager = TransactionManager::new(None);
    let rid = Rid::new(PageId(0), 0);

    let reader = begin(&mut manager, &mut db)?;
    let writer = begin(&mut manager, &mut db)?;
    manager.version_store_mut().record_insert(writer, rid);
    commit(&mut manager, &mut db, writer)?;
    assert_eq!(manager.version_store().chain_count(), 1);

    commit(&mut manager, &mut db, reader)?;
    assert_eq!(manager.version_store().chain_count(), 0);
    Ok(())
}

#[test]
fn a_row_committed_before_a_reader_began_stays_visible_after_its_chain_is_pruned() -> Result<(), TxnError> {
    let mut db = open_db();
    let mut manager = TransactionManager::new(None);
    let rid = Rid::new(PageId(0), 0);

    let writer = begin(&mut manager, &mut db)?;
    manager.version_store_mut().record_insert(writer, rid);
    commit(&mut manager, &mut db, writer)?;
    assert_eq!(manager.version_store().chain_count(), 0);

    let reader = begin(&mut manager, &mut db)?;
    let read_ts = manager.get(reader)?.read_ts;
    assert!(manager.version_store().is_visible(rid, read_ts));
    Ok(())
}

#[test]
fn abort_with_no_other_transaction_active_prunes_the_emptied_chain_immediately() -> Result<(), TxnError> {
    let mut db = open_db();
    let mut manager = TransactionManager::new(None);
    let rid = Rid::new(PageId(0), 0);

    let writer = begin(&mut manager, &mut db)?;
    manager.version_store_mut().record_insert(writer, rid);
    abort(&mut manager, &mut db, writer)?;
    assert_eq!(manager.version_store().chain_count(), 0);
    Ok(())
}

#[test]
fn emptied_chain_survives_an_older_reader_and_is_pruned_once_that_reader_ends() -> Result<(), TxnError> {
    let mut db = open_db();
    let mut manager = TransactionManager::new(None);
    let rid = Rid::new(PageId(0), 0);

    let reader = begin(&mut manager, &mut db)?;
    let writer = begin(&mut manager, &mut db)?;
    manager.version_store_mut().record_insert(writer, rid);
    abort(&mut manager, &mut db, writer)?;
    assert_eq!(manager.version_store().chain_count(), 1);

    commit(&mut manager, &mut db, reader)?;
    assert_eq!(manager.version_store().chain_count(), 0);
    Ok(())
}

#[test]
fn aborting_twice_is_refused_as_unknown_the_second_time() -> Result<(), TxnError> {
    let mut db = open_db();
    let mut manager = TransactionManager::new(None);
    let txn = begin(&mut manager, &mut db)?;
    abort(&mut manager, &mut db, txn)?;
    assert!(matches!(abort(&mut manager, &mut db, txn), Err(TxnError::UnknownTransaction(id)) if id == txn.0));
    Ok(())
}
