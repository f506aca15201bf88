use storage::block_device::MemDevice;
use storage::error::StorageError;
use storage::ids::{Lsn, PageId, TxnId};
use storage::log_manager::{LogManager, NoSegmentStore};
use storage::segment::HEADER_LEN;
use storage::wal::{LogRecord, LogRecordKind};

type Log = LogManager<NoSegmentStore<MemDevice>>;

fn open(bytes: &[u8]) -> Result<Log, StorageError> {
    LogManager::open_with_device(MemDevice::from_bytes(bytes))
}

fn close(log: Log) -> Vec<u8> {
    log.into_active_device().bytes().clone()
}

#[test]
fn round_trip_mixed_record_kinds_survives_reopen() -> Result<(), StorageError> {
    let records = vec![
        LogRecord { txn_id: TxnId(1), kind: LogRecordKind::Begin },
        LogRecord {
            txn_id: TxnId(1),
            kind: LogRecordKind::Update {
                page_id: PageId(3),
                offset: 10,
                before: vec![1, 2, 3],
                after: vec![4, 5, 6],
            },
        },
        LogRecord { txn_id: TxnId(2), kind: LogRecordKind::AllocPage { page_id: PageId(4) } },
        LogRecord { txn_id: TxnId(1), kind: LogRecordKind::Commit },
        LogRecord { txn_id: TxnId(1), kind: LogRecordKind::End },
        LogRecord { txn_id: TxnId(2), kind: LogRecordKind::Abort },
    ];

    let mut lsns = Vec::new();
    let bytes = {
        let mut log = open(&[])?;
        let mut last_lsn = Lsn(0);
        for record in records.clone() {
            last_lsn = log.append(record)?;
            lsns.push(last_lsn);
        }
        log.flush(last_lsn)?;
        close(log)
    };

    let log = open(&bytes)?;
    let read_back = log.iter_from(Lsn(0))?;

    assert_eq!(read_back.len(), records.len());
    for (logged, (expected, expected_lsn)) in read_back.iter().zip(records.iter().zip(lsns.iter())) {
        assert_eq!(logged.lsn, *expected_lsn);
        assert_eq!(logged.txn_id, expected.txn_id);
        assert_eq!(logged.kind, expected.kind);
    }

    assert_eq!(read_back[0].prev_lsn, None, "txn 1's first record has no predecessor");
    assert_eq!(read_back[1].prev_lsn, Some(lsns[0]), "txn 1's Update chains from its Begin");
    assert_eq!(read_back[2].prev_lsn, None, "txn 2's first record has no predecessor");
    assert_eq!(read_back[3].prev_lsn, Some(lsns[1]), "txn 1's Commit chains from its Update");
    assert_eq!(read_back[4].prev_lsn, Some(lsns[3]), "txn 1's End chains from its Commit");
    assert_eq!(read_back[5].prev_lsn, Some(lsns[2]), "txn 2's Abort chains from its AllocPage");
    Ok(())
}

#[test]
fn truncated_mid_record_iterates_cleanly_up_to_last_intact_record() -> Result<(), StorageError> {
    let mut log = open(&[])?;
    let begin_lsn = log.append(LogRecord { txn_id: TxnId(1), kind: LogRecordKind::Begin })?;
    let commit_lsn = log.append(LogRecord { txn_id: TxnId(1), kind: LogRecordKind::Commit })?;
    log.flush(commit_lsn)?;

    let mut bytes = close(log);
    bytes.truncate(bytes.len() - 3);

    let log = open(&bytes)?;
    let read_back = log.iter_from(Lsn(0))?;
    assert_eq!(read_back.len(), 1, "the torn record must not be yielded");
    assert_eq!(read_back[0].lsn, begin_lsn);
    Ok(())
}

#[test]
fn flipped_byte_fails_crc_at_exactly_that_record_and_stops() -> Result<(), StorageError> {
    let mut log = open(&[])?;
    let begin_lsn = log.append(LogRecord { txn_id: TxnId(1), kind: LogRecordKind::Begin })?;
    log.append(LogRecord {
        txn_id: TxnId(1),
        kind: LogRecordKind::Update { page_id: PageId(1), offset: 0, before: vec![0], after: vec![1] },
    })?;
    let commit_lsn = log.append(LogRecord { txn_id: TxnId(1), kind: LogRecordKind::Commit })?;
    log.flush(commit_lsn)?;

    let mut bytes = close(log);
    let header_len = HEADER_LEN as usize;
    let first_record_len = u32::from_le_bytes([
        bytes[header_len],
        bytes[header_len + 1],
        bytes[header_len + 2],
        bytes[header_len + 3],
    ]) as usize;
    let flip_at = header_len + first_record_len + 5;
    bytes[flip_at] ^= 0xFF;

    let log = open(&bytes)?;
    let read_back = log.iter_from(Lsn(0))?;
    assert_eq!(read_back.len(), 1, "only the untouched first record should be yielded");
    assert_eq!(read_back[0].lsn, begin_lsn);
    Ok(())
}

#[test]
fn read_at_returns_each_records_own_lsn_before_and_after_the_durable_boundary() -> Result<(), StorageError> {
    let mut log = open(&[])?;

    let begin_lsn = log.append(LogRecord { txn_id: TxnId(1), kind: LogRecordKind::Begin })?;
    let commit_lsn = log.append(LogRecord { txn_id: TxnId(1), kind: LogRecordKind::Commit })?;
    log.flush(commit_lsn)?;

    let end_lsn = log.append(LogRecord { txn_id: TxnId(1), kind: LogRecordKind::End })?;

    let durable_record = log.read_at(begin_lsn)?.expect("begin_lsn should be durable");
    let boundary_record = log.read_at(commit_lsn)?.expect("commit_lsn should be durable");
    let buffered_record = log.read_at(end_lsn)?.expect("end_lsn should still be buffered");

    assert_eq!(durable_record.lsn, begin_lsn);
    assert_eq!(durable_record.kind, LogRecordKind::Begin);
    assert_eq!(boundary_record.lsn, commit_lsn);
    assert_eq!(boundary_record.kind, LogRecordKind::Commit);
    assert_eq!(buffered_record.lsn, end_lsn);
    assert_eq!(buffered_record.kind, LogRecordKind::End);
    Ok(())
}

#[test]
fn offset_lsns_survive_reopen() -> Result<(), StorageError> {
    let bytes = {
        let mut log = open(&[])?;
        let lsn = log.append(LogRecord { txn_id: TxnId(1), kind: LogRecordKind::Begin })?;
        log.flush(lsn)?;
        close(log)
    };
    let file_len = bytes.len() as u64;

    let mut log = open(&bytes)?;
    let next_lsn = log.append(LogRecord { txn_id: TxnId(1), kind: LogRecordKind::Commit })?;
    assert_eq!(next_lsn.0, file_len, "the next assigned LSN must equal the active segment's file length on reopen");
    Ok(())
}

#[test]
fn the_first_record_lands_just_past_the_segment_header_and_lsns_advance_by_record_length() -> Result<(), StorageError> {
    let mut log = open(&[])?;
    let first = log.append(LogRecord { txn_id: TxnId(1), kind: LogRecordKind::Begin })?;
    assert_eq!(first, Lsn(HEADER_LEN));
    let second = log.append(LogRecord { txn_id: TxnId(1), kind: LogRecordKind::Commit })?;
    assert_eq!(second.0 - first.0, LogRecordKind::Begin.encoded_len());
    assert_eq!(log.last_lsn_for(TxnId(1)), Some(second));
    assert_eq!(log.max_txn_id(), Some(TxnId(1)));
    assert_eq!(log.durable_lsn(), Lsn(HEADER_LEN));
    log.flush_all()?;
    assert_eq!(log.durable_lsn(), log.next_lsn());
    Ok(())
}

#[test]
fn a_log_on_one_device_keeps_a_single_segment() -> Result<(), StorageError> {
    let mut log = open(&[])?;
    for _ in 0..50 {
        log.append(LogRecord { txn_id: TxnId(1), kind: LogRecordKind::Begin })?;
    }
    log.flush_all()?;
    assert_eq!(log.segment_ids().len(), 1);
    Ok(())
}
