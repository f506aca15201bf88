use storage::segment::segment_id_of;
use std::cell::RefCell;
use std::collections::BTreeMap;
use std::rc::Rc;
use std::sync::atomic::{AtomicUsize, Ordering};
use std::sync::Arc;

use storage::block_device::{BlockDevice, MemDevice};
use storage::devices::CountingSegmentStore;
use storage::disk::DiskManager;
use storage::error::StorageError;
use storage::ids::{Lsn, PageId, TxnId};
use storage::log_manager::{LogManager, SegmentStore};
use storage::page::PAGE_SIZE;
use storage::recovery;
use storage::txn::checkpoint::logged_write;
use storage::wal::{LogRecord, LogRecordKind};

const SMALL_SEGMENT: u64 = 512;

/// Segments kept in memory, by id. A log works on copies of them; closing
/// the log writes its copies back.
#[derive(Clone, Default)]
struct MemStore {
    segments: Rc<RefCell<BTreeMap<u64, Vec<u8>>>>,
}

impl SegmentStore for MemStore {
    type Device = MemDevice;

    fn existing_segments(&self) -> Result<Vec<u64>, StorageError> {
        Ok(self.segments.borrow().keys().copied().collect())
    }

    fn open(&self, id: u64) -> Result<MemDevice, StorageError> {
        let mut segments = self.segments.borrow_mut();
        let bytes = segments.entry(id).or_default();
        Ok(MemDevice::from_bytes(bytes))
    }

    fn remove(&self, id: u64) -> Result<(), StorageError> {
        self.segments.borrow_mut().remove(&id);
        Ok(())
    }
}

impl MemStore {
    fn bytes_of(&self, id: u64) -> Vec<u8> {
        self.segments.borrow()[&id].clone()
    }

    fn set_bytes(&self, id: u64, bytes: Vec<u8>) {
        self.segments.borrow_mut().insert(id, bytes);
    }
}

/// Closes `log`, keeping what it flushed in `store`.
fn close<S: SegmentStore>(log: LogManager<S>, store: &MemStore) {
    for (id, device) in log.into_segments() {
        let len = device.size().expect("size") as usize;
        let bytes = device.read_at(0, len).expect("read back");
        if store.segments.borrow().contains_key(&id) {
            store.set_bytes(id, bytes);
        }
    }
}

struct Counters {
    bytes: Arc<AtomicUsize>,
}

fn open_counting(
    store: &MemStore,
    target_segment_size: u64,
) -> Result<(LogManager<CountingSegmentStore<MemStore>>, Counters), StorageError> {
    let calls = Arc::new(AtomicUsize::new(0));
    let bytes = Arc::new(AtomicUsize::new(0));
    let opens = Arc::new(AtomicUsize::new(0));
    let counting = CountingSegmentStore::new(store.clone(), calls, bytes.clone(), opens);
    let log = LogManager::open_with_segment_store(counting, target_segment_size)?;
    Ok((log, Counters { bytes }))
}

fn filler<S: SegmentStore>(log: &mut LogManager<S>, txn_id: TxnId) -> Result<Lsn, StorageError> {
    let lsn = log.append(LogRecord {
        txn_id,
        kind: LogRecordKind::Update {
            page_id: PageId(1),
            offset: 0,
            before: vec![0; 24],
            after: vec![1; 24],
        },
    })?;
    log.flush(lsn)?;
    Ok(lsn)
}

#[test]
fn opening_a_long_log_reads_only_the_live_tail() -> Result<(), StorageError> {
    let store = MemStore::default();
    {
        let (mut log, _) = open_counting(&store, SMALL_SEGMENT)?;
        let mut last_lsn = Lsn(0);
        for i in 0..400u64 {
            last_lsn = filler(&mut log, TxnId(i % 5))?;
        }
        log.truncate_below(last_lsn)?;
        close(log, &store);
    }

    let (log, counters) = open_counting(&store, SMALL_SEGMENT)?;
    drop(log);
    let bytes_read = counters.bytes.load(Ordering::Relaxed) as u64;
    assert!(
        bytes_read < 2 * SMALL_SEGMENT,
        "reopen read {bytes_read} bytes, expected less than {}",
        2 * SMALL_SEGMENT
    );
    Ok(())
}

#[test]
fn a_checkpoint_deletes_segments_below_the_recovery_bound() -> Result<(), StorageError> {
    let store = MemStore::default();
    let (mut log, _) = open_counting(&store, SMALL_SEGMENT)?;
    let mut lsns = Vec::new();
    for i in 0..400u64 {
        lsns.push(filler(&mut log, TxnId(i % 5))?);
    }

    let segments_before = store.existing_segments()?.len();
    assert!(segments_before >= 3, "test needs at least 3 segments to be meaningful");

    let bound = lsns[lsns.len() / 2];
    log.truncate_below(bound)?;

    let segments_after = store.existing_segments()?.len();
    assert!(segments_after < segments_before, "truncation must have dropped some segments");

    assert_eq!(log.read_at(lsns[0])?, None, "a record from a truncated segment must no longer be readable");
    assert!(log.read_at(*lsns.last().unwrap())?.is_some(), "a record from a retained segment must still be readable");
    Ok(())
}

#[test]
fn a_transaction_open_across_a_checkpoint_can_still_be_undone() -> Result<(), StorageError> {
    let store = MemStore::default();
    let (mut log, _) = open_counting(&store, SMALL_SEGMENT)?;
    const ACTIVE: TxnId = TxnId(999);
    let begin_lsn = log.append(LogRecord { txn_id: ACTIVE, kind: LogRecordKind::Begin })?;
    log.flush(begin_lsn)?;

    for i in 0..400u64 {
        filler(&mut log, TxnId(i % 5))?;
    }

    let later_lsn = log.append(LogRecord {
        txn_id: ACTIVE,
        kind: LogRecordKind::Update { page_id: PageId(2), offset: 0, before: vec![0; 8], after: vec![1; 8] },
    })?;
    log.flush(later_lsn)?;

    log.truncate_below(begin_lsn)?;

    let reread_begin = log.read_at(begin_lsn)?.expect("the active transaction's Begin survives");
    assert_eq!(reread_begin.kind, LogRecordKind::Begin);
    let reread_later = log.read_at(later_lsn)?.expect("its later record also survives");
    assert_eq!(reread_later.prev_lsn, Some(begin_lsn));
    Ok(())
}

#[test]
fn recovery_across_a_segment_boundary_reproduces_the_committed_prefix() -> Result<(), StorageError> {
    let store = MemStore::default();
    let mut disk = DiskManager::open_with_device(MemDevice::new(), PAGE_SIZE)?;
    let page_id;
    {
        let mut log = LogManager::open_with_segment_store(store.clone(), SMALL_SEGMENT)?;
        page_id = disk.allocate_page()?;
        logged_write(&mut disk, &mut log, TxnId(1), page_id, 16, b"before-boundary")?;

        for i in 0..200u64 {
            logged_write(&mut disk, &mut log, TxnId(2 + i), page_id, 40, &(i as u32).to_le_bytes())?;
        }

        logged_write(&mut disk, &mut log, TxnId(1), page_id, 16, b"after--boundary")?;
        let commit_lsn = recovery::append_checked(&mut log, TxnId(1), LogRecordKind::Commit)?;
        log.flush(commit_lsn)?;
        assert!(log.bytes_appended() > SMALL_SEGMENT, "test needs the workload to span more than one segment");
        close(log, &store);
    }

    let mut log = LogManager::open_with_segment_store(store.clone(), SMALL_SEGMENT)?;
    recovery::recover(&mut disk, &mut log)?;
    let page = disk.read_page(page_id)?;
    assert_eq!(&page.data()[16..31], b"after--boundary");
    Ok(())
}

#[test]
fn a_roll_survives_an_unclean_reopen() -> Result<(), StorageError> {
    let store = MemStore::default();
    let (lsns_before, segment_ids_before) = {
        let (mut log, _) = open_counting(&store, SMALL_SEGMENT)?;
        let mut lsns = Vec::new();
        for i in 0..100u64 {
            lsns.push(filler(&mut log, TxnId(i % 5))?);
        }
        let ids = log.segment_ids();
        close(log, &store);
        (lsns, ids)
    };
    assert!(
        segment_ids_before.len() >= 2,
        "test needs at least one roll to have happened, got segments {segment_ids_before:?}"
    );

    let (log, _) = open_counting(&store, SMALL_SEGMENT)?;
    assert_eq!(log.segment_ids(), segment_ids_before);

    let lsns_after: Vec<Lsn> = log.iter_from(Lsn(storage::segment::HEADER_LEN))?.iter().map(|r| r.lsn).collect();
    assert_eq!(lsns_after, lsns_before);
    Ok(())
}

#[test]
fn a_headerless_active_segment_continues_the_sealed_lsn_space() -> Result<(), StorageError> {
    let store = MemStore::default();
    {
        let (mut log, _) = open_counting(&store, SMALL_SEGMENT)?;
        for i in 0..400u64 {
            filler(&mut log, TxnId(i % 5))?;
        }
        close(log, &store);
    }
    let ids = store.existing_segments()?;
    assert!(ids.len() >= 3, "test needs at least one sealed segment behind the active one");
    let active_id = *ids.last().expect("at least one segment exists");
    let active = store.bytes_of(active_id);
    let original_active_start_lsn = u64::from_le_bytes(active[8..16].try_into().unwrap());
    store.set_bytes(active_id, Vec::new());

    let (mut log, _) = open_counting(&store, SMALL_SEGMENT)?;
    let next_lsn = filler(&mut log, TxnId(99))?;
    assert!(next_lsn.0 >= original_active_start_lsn);
    Ok(())
}

#[test]
fn a_corrupt_sealed_segment_is_refused_rather_than_silently_shortened() -> Result<(), StorageError> {
    let store = MemStore::default();
    {
        let (mut log, _) = open_counting(&store, SMALL_SEGMENT)?;
        for i in 0..400u64 {
            filler(&mut log, TxnId(i % 5))?;
        }
        close(log, &store);
    }
    let ids = store.existing_segments()?;
    assert!(ids.len() >= 3);
    let mut first = store.bytes_of(ids[0]);
    let original_len = first.len();
    let mid = original_len / 2;
    first[mid] ^= 0xFF;
    store.set_bytes(ids[0], first);

    match LogManager::open_with_segment_store(store.clone(), SMALL_SEGMENT) {
        Ok(_) => panic!("a corrupt sealed segment must be refused, not silently opened"),
        Err(err) => assert!(matches!(err, StorageError::CorruptLogHeader { .. }), "expected CorruptLogHeader, got {err:?}"),
    }
    assert_eq!(store.bytes_of(ids[0]).len(), original_len, "a refused open must not have shortened the corrupt segment");
    Ok(())
}

#[test]
fn recovery_reads_sealed_segments_when_the_header_lsn_predates_them() -> Result<(), StorageError> {
    let store = MemStore::default();
    let mut log = LogManager::open_with_segment_store(store.clone(), SMALL_SEGMENT)?;

    let mut lsns = Vec::new();
    for i in 0..400u64 {
        lsns.push(filler(&mut log, TxnId(i % 5))?);
    }
    let segments_before = store.existing_segments()?;
    assert!(segments_before.len() >= 3, "test needs at least 3 segments to be meaningful");

    let bound = lsns[lsns.len() / 2];
    log.truncate_below(bound)?;

    let segments_after = store.existing_segments()?;
    assert!(segments_after.len() >= 2, "test needs a sealed segment to survive truncation, not just the active one");
    assert!(segments_after.len() < segments_before.len(), "truncation must have dropped some segments");

    let records = log.iter_from(Lsn(storage::segment::HEADER_LEN))?;
    close(log, &store);
    let first = store.bytes_of(segments_after[0]);
    let earliest_start_lsn = u64::from_le_bytes(first[8..16].try_into().unwrap());

    let min_lsn = records.iter().map(|r| r.lsn.0).min().expect("some records must survive truncation");
    assert_eq!(min_lsn, earliest_start_lsn, "the records start from the earliest surviving sealed segment");

    let expected_count = lsns.iter().filter(|lsn| lsn.0 >= earliest_start_lsn).count();
    assert_eq!(records.len(), expected_count, "every record still physically retained must be readable");
    Ok(())
}

fn undo_workload(
    target_segment_size: u64,
    updates: usize,
    flush_each: bool,
) -> Result<(usize, usize, usize, usize), StorageError> {
    let store = MemStore::default();
    let calls = Arc::new(AtomicUsize::new(0));
    let bytes = Arc::new(AtomicUsize::new(0));
    let opens = Arc::new(AtomicUsize::new(0));
    let counting = CountingSegmentStore::new(store.clone(), calls.clone(), bytes.clone(), opens.clone());
    let mut log = LogManager::open_with_segment_store(counting, target_segment_size)?;
    let mut disk = DiskManager::open_with_device(MemDevice::new(), PAGE_SIZE)?;

    let txn_id = TxnId(1);
    let page_id = disk.allocate_page()?;
    for i in 0..updates {
        logged_write(&mut disk, &mut log, txn_id, page_id, 16, &(i as u32).to_le_bytes())?;
        if flush_each {
            log.flush_all()?;
        }
    }
    log.flush_all()?;
    let sealed = store.existing_segments()?.len().saturating_sub(1);

    calls.store(0, Ordering::Relaxed);
    bytes.store(0, Ordering::Relaxed);
    opens.store(0, Ordering::Relaxed);

    let last_lsn = log.last_lsn_for(txn_id).expect("txn should have appended at least one lsn");
    recovery::undo_transaction(&mut disk, &mut log, txn_id, last_lsn)?;
    assert_eq!(&disk.read_page(page_id)?.data()[16..20], &[0u8; 4], "every update is undone");
    Ok((calls.load(Ordering::Relaxed), bytes.load(Ordering::Relaxed), opens.load(Ordering::Relaxed), sealed))
}

#[test]
fn undoing_thousands_of_updates_reads_the_log_a_bounded_number_of_times() -> Result<(), StorageError> {
    const N: usize = 5_000;
    let (calls, bytes, _, _) = undo_workload(storage::segment::DEFAULT_SEGMENT_SIZE, N, false)?;
    assert!(calls <= 3 * N, "expected roughly 2 device reads per undone record, got {calls} calls for {N} updates");
    assert!(bytes <= 500 * N, "expected a small, constant number of bytes read per undone record, got {bytes} bytes");
    Ok(())
}

#[test]
fn undoing_across_sealed_segments_reads_the_log_a_bounded_number_of_times() -> Result<(), StorageError> {
    const N: usize = 2_000;
    let (_, _, opens, sealed) = undo_workload(SMALL_SEGMENT, N, true)?;
    assert!(sealed >= 4, "test needs the workload to seal several segments, only sealed {sealed}");
    assert!(opens <= sealed + 2, "undoing across {sealed} sealed segments opened a device {opens} times");
    Ok(())
}

#[test]
fn segment_file_names_give_their_ids_and_other_names_none() {
    assert_eq!(segment_id_of(b"test.wal.000042", b"test.wal"), Some(42));
    assert_eq!(segment_id_of(b"test.wal.999999", b"test.wal"), Some(999_999));
    assert_eq!(segment_id_of(b"test.wal.00042", b"test.wal"), None, "five digits are not a segment");
    assert_eq!(segment_id_of(b"test.wal.0000042", b"test.wal"), None, "seven digits are not a segment");
    assert_eq!(segment_id_of(b"test.wal.00004x", b"test.wal"), None);
    assert_eq!(segment_id_of(b"test.wal-000042", b"test.wal"), None);
    assert_eq!(segment_id_of(b"other.wal.000042", b"test.wal"), None);
}
