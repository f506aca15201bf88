use std::sync::atomic::AtomicU64;
use std::sync::Arc;

use storage::block_device::{FaultyDevice, MemDevice};
use storage::buffer::BufferPool;
use storage::disk::DiskManager;
use storage::dwb::DoubleWriteBuffer;
use storage::error::StorageError;
use storage::ids::{FrameId, Lsn, PageId, TxnId};
use storage::log_manager::{LogManager, NoSegmentStore};
use storage::page::PAGE_SIZE;
use storage::replacer::LruKReplacer;

type Pool = BufferPool<MemDevice, MemDevice, NoSegmentStore<MemDevice>>;

const MARKER_OFFSET: usize = 100;

fn open_pool_k(pool_size: usize, k: usize) -> Pool {
    let disk = DiskManager::open_with_device(MemDevice::new(), PAGE_SIZE).expect("open disk");
    let dwb = DoubleWriteBuffer::open_with_device(MemDevice::new(), DoubleWriteBuffer::<MemDevice>::DEFAULT_CAPACITY)
        .expect("open double-write buffer");
    let log = LogManager::open_with_device(MemDevice::new()).expect("open log");
    BufferPool::new(disk, dwb, log, pool_size, LruKReplacer::new(pool_size, k))
}

fn open_pool(pool_size: usize) -> Pool {
    open_pool_k(pool_size, 2)
}

fn open_pool_lru(pool_size: usize) -> Pool {
    open_pool_k(pool_size, 1)
}

fn apply_pressure(pool: &mut Pool, n: u8) {
    for marker in 0..n {
        let (_id, frame) = pool.new_page(TxnId(0)).unwrap();
        pool.write(frame, TxnId(0), MARKER_OFFSET, &[marker]).unwrap();
        pool.unpin(frame);
    }
}

#[test]
fn evicts_under_pressure_and_dirty_data_survives_flush_and_refetch() {
    let mut pool = open_pool(4);

    let mut page_ids = Vec::new();
    for marker in 0u8..10 {
        let (page_id, frame) = pool.new_page(TxnId(0)).unwrap();
        pool.write(frame, TxnId(0), MARKER_OFFSET, &[marker]).unwrap();
        pool.unpin(frame);
        page_ids.push(page_id);
    }

    let frame = pool.fetch_page(page_ids[0]).unwrap();
    assert_eq!(pool.page(frame).data()[MARKER_OFFSET], 0);
    pool.unpin(frame);

    pool.flush_all().unwrap();

    let frame = pool.fetch_page(page_ids[9]).unwrap();
    assert_eq!(pool.page(frame).data()[MARKER_OFFSET], 9);
    pool.unpin(frame);
}

#[test]
fn flush_page_on_a_non_resident_page_is_a_silent_ok() {
    let mut pool = open_pool(1);

    let (evicted_id, frame) = pool.new_page(TxnId(0)).unwrap();
    pool.write(frame, TxnId(0), MARKER_OFFSET, &[7]).unwrap();
    pool.unpin(frame);

    let (_still_resident_id, frame) = pool.new_page(TxnId(1)).unwrap();
    pool.unpin(frame);

    assert!(
        pool.frame_of(evicted_id).is_none(),
        "the one-frame pool must have evicted the first page to make room for the second"
    );

    pool.flush_page(evicted_id).unwrap();

    let frame = pool.fetch_page(evicted_id).unwrap();
    assert_eq!(pool.page(frame).data()[MARKER_OFFSET], 7, "eviction must have already made this durable");
    pool.unpin(frame);
}

#[test]
fn fetch_errors_rather_than_panics_when_every_frame_is_pinned() {
    let mut pool = open_pool(2);

    let (_id_a, frame_a) = pool.new_page(TxnId(0)).unwrap();
    let (_id_b, frame_b) = pool.new_page(TxnId(0)).unwrap();

    match pool.new_page(TxnId(0)) {
        Err(StorageError::BufferPoolExhausted) => {}
        Err(other) => panic!("expected BufferPoolExhausted, got {}", other.message()),
        Ok(_) => panic!("expected an error when every frame is pinned"),
    }

    pool.unpin(frame_a);
    pool.unpin(frame_b);
    pool.assert_frame_accounting();
}

#[test]
fn a_failed_eviction_does_not_leak_the_frame() {
    const POOL_SIZE: usize = 1;
    // The data device takes the header write and two resizes (one per
    // allocated page), then refuses its fourth operation: the page write of
    // the first eviction.
    let counter = Arc::new(AtomicU64::new(0));
    let data = FaultyDevice::new(MemDevice::new(), counter, 3);
    let disk = DiskManager::open_with_device(data, PAGE_SIZE).expect("open disk");
    let dwb = DoubleWriteBuffer::open_with_device(MemDevice::new(), DoubleWriteBuffer::<MemDevice>::DEFAULT_CAPACITY)
        .expect("open double-write buffer");
    let log = LogManager::open_with_device(MemDevice::new()).expect("open log");
    let mut pool: BufferPool<FaultyDevice<MemDevice>, MemDevice, NoSegmentStore<MemDevice>> =
        BufferPool::new(disk, dwb, log, POOL_SIZE, LruKReplacer::new(POOL_SIZE, 2));

    let (_p0, frame) = pool.new_page(TxnId(0)).unwrap();
    pool.unpin(frame);

    let evict_result = pool.new_page(TxnId(1));
    assert!(
        evict_result.is_err(),
        "the injected fault must fail the page write that evicting the only resident frame requires"
    );

    pool.assert_frame_accounting();

    for i in 0..POOL_SIZE + 2 {
        match pool.new_page(TxnId(2 + i as u64)) {
            Err(StorageError::FlushPoisoned) => {}
            Err(other) => panic!(
                "fetch {i} after the failed eviction must fail with FlushPoisoned once the pool is poisoned, got {}",
                other.message()
            ),
            Ok((_, frame)) => {
                pool.unpin(frame);
                panic!("fetch {i} after the failed eviction must fail with FlushPoisoned, but it succeeded");
            }
        }
    }
    pool.assert_frame_accounting();
}

#[test]
fn second_live_read_guard_keeps_page_pinned_under_eviction_pressure() {
    let mut pool = open_pool_lru(2);

    let (p, frame) = pool.new_page(TxnId(0)).unwrap();
    pool.write(frame, TxnId(0), MARKER_OFFSET, &[42]).unwrap();
    pool.unpin(frame);

    let first = pool.fetch_page(p).unwrap();
    let second = pool.fetch_page(p).unwrap();
    assert_eq!(first, second);

    pool.unpin(first);

    apply_pressure(&mut pool, 20);

    assert_eq!(
        pool.page(second).data()[MARKER_OFFSET],
        42,
        "page P must not have been evicted while the second pin was still held"
    );
    assert_eq!(pool.frame_of(p), Some(second));
    pool.unpin(second);
}

#[test]
fn pin_count_reaches_zero_only_after_the_last_read_guard_drops() {
    const N: usize = 4;
    let mut pool = open_pool_lru(2);

    let (p, frame) = pool.new_page(TxnId(0)).unwrap();
    pool.write(frame, TxnId(0), MARKER_OFFSET, &[7]).unwrap();
    pool.unpin(frame);

    let mut pins: Vec<FrameId> = Vec::with_capacity(N);
    for _ in 0..N {
        pins.push(pool.fetch_page(p).unwrap());
    }
    assert_eq!(pins.len(), N);

    while pins.len() > 1 {
        let released = pins.remove(0);
        pool.unpin(released);
        apply_pressure(&mut pool, 5);
        if let Some(&last) = pins.last() {
            assert_eq!(
                pool.page(last).data()[MARKER_OFFSET],
                7,
                "page P was evicted while {} pin(s) were still held",
                pins.len()
            );
        }
    }

    let last = pins.pop().unwrap();
    pool.unpin(last);
    apply_pressure(&mut pool, 5);
    assert!(pool.frame_of(p).is_none(), "with no pin left, pressure evicts page P");
}

#[test]
fn a_write_is_logged_stamped_and_reported_dirty() {
    let mut pool = open_pool(4);
    let (p, frame) = pool.new_page(TxnId(5)).unwrap();
    pool.write(frame, TxnId(5), 200, &[1, 2, 3]).unwrap();
    let lsn = pool.page(frame).page_lsn();
    assert_eq!(pool.last_lsn(TxnId(5)), Some(lsn));
    assert_eq!(&pool.page(frame).data()[200..203], &[1, 2, 3]);
    pool.unpin(frame);
    let dirty = pool.dirty_page_table();
    assert_eq!(dirty.len(), 1);
    assert_eq!(dirty[0].0, p);
    assert!(dirty[0].1 .0 < lsn.0, "the page is dirty since its allocation record");
    pool.flush_all().unwrap();
    assert!(pool.dirty_page_table().is_empty());
    assert!(pool.durable_lsn().0 > lsn.0, "the log is durable past the flushed page's LSN");
}

#[test]
fn header_fields_read_back_what_was_set() {
    let mut pool = open_pool(4);
    assert_eq!(pool.last_checkpoint_lsn().unwrap(), None);
    pool.set_last_checkpoint_lsn(TxnId(0), Lsn(77)).unwrap();
    assert_eq!(pool.last_checkpoint_lsn().unwrap(), Some(Lsn(77)));
    assert_eq!(pool.catalog_first_page().unwrap(), None);
    pool.set_catalog_first_page(TxnId(0), PageId(9)).unwrap();
    assert_eq!(pool.catalog_first_page().unwrap(), Some(PageId(9)));
    pool.set_index_catalog_first_page(TxnId(0), PageId(11)).unwrap();
    assert_eq!(pool.index_catalog_first_page().unwrap(), Some(PageId(11)));
}

#[test]
fn a_dirty_page_pushed_out_by_a_fetch_reads_back_from_the_file() {
    let mut pool = open_pool(1);
    let (p, frame) = pool.new_page(TxnId(0)).unwrap();
    pool.write(frame, TxnId(0), MARKER_OFFSET, &[5, 6, 7]).unwrap();
    pool.unpin(frame);
    let (q, frame) = pool.new_page(TxnId(0)).unwrap();
    pool.unpin(frame);
    assert!(pool.frame_of(p).is_none());

    let frame = pool.fetch_page(q).unwrap();
    pool.unpin(frame);
    let frame = pool.fetch_page(p).unwrap();
    assert_eq!(&pool.page(frame).data()[MARKER_OFFSET..MARKER_OFFSET + 3], &[5, 6, 7]);
    assert!(pool.frame_of(q).is_none(), "the one frame now holds page P");
    pool.unpin(frame);
}

#[test]
fn flush_page_writes_a_dirty_page_and_leaves_it_clean() {
    let mut pool = open_pool(2);
    let (p, frame) = pool.new_page(TxnId(0)).unwrap();
    pool.write(frame, TxnId(0), MARKER_OFFSET, &[9]).unwrap();
    pool.unpin(frame);
    assert_eq!(pool.dirty_page_table().len(), 1);
    pool.flush_page(p).unwrap();
    assert!(pool.dirty_page_table().is_empty());
    let lsn = pool.page_lsn(p).unwrap();
    assert!(pool.durable_lsn().0 > lsn.0 || pool.durable_lsn().0 == pool.log_bytes_appended());
}
