use std::collections::HashMap;

use rand::{RngCore, SeedableRng};
use storage::block_device::MemDevice;
use storage::buffer::BufferPool;
use storage::disk::DiskManager;
use storage::dwb::DoubleWriteBuffer;
use storage::error::StorageError;
use storage::heap::{PageScan, TableHeap, MAX_SLOTS, MAX_TUPLE_SIZE};
use storage::ids::{Rid, TxnId};
use storage::log_manager::{LogManager, NoSegmentStore};
use storage::page::PAGE_SIZE;
use storage::replacer::LruKReplacer;

type Pool = BufferPool<MemDevice, MemDevice, NoSegmentStore<MemDevice>>;

const TXN: TxnId = TxnId(0);

fn open_pool(pool_size: usize) -> Pool {
    let disk = DiskManager::open_with_device(MemDevice::new(), PAGE_SIZE).expect("open disk");
    let dwb = DoubleWriteBuffer::open_with_device(MemDevice::new(), DoubleWriteBuffer::<MemDevice>::DEFAULT_CAPACITY)
        .expect("open double-write buffer");
    let log = LogManager::open_with_device(MemDevice::new()).expect("open log");
    BufferPool::new(disk, dwb, log, pool_size, LruKReplacer::new(pool_size, 2))
}

fn collect(heap: &TableHeap, pool: &mut Pool) -> Result<Vec<(Rid, Vec<u8>)>, StorageError> {
    let mut it = heap.iter();
    let mut out = Vec::new();
    while let Some(entry) = it.next(pool) {
        out.push(entry?);
    }
    Ok(out)
}

#[test]
fn insert_spans_pages_and_iterates_every_tuple_back() {
    let mut pool = open_pool(4);
    let mut heap = TableHeap::create(&mut pool, TXN).unwrap();

    let payload = vec![0x42u8; 300];
    let mut expected: HashMap<Rid, Vec<u8>> = HashMap::new();
    for i in 0..40u32 {
        let mut tuple = payload.clone();
        tuple.extend_from_slice(&i.to_le_bytes());
        let rid = heap.insert_tuple(&mut pool, TXN, &tuple).unwrap();
        expected.insert(rid, tuple);
    }

    for (rid, tuple_bytes) in &expected {
        assert_eq!(heap.get_tuple(&mut pool, *rid).unwrap().as_deref(), Some(tuple_bytes.as_slice()));
    }

    let mut seen: HashMap<Rid, Vec<u8>> = HashMap::new();
    for (rid, bytes) in collect(&heap, &mut pool).unwrap() {
        seen.insert(rid, bytes);
    }
    assert_eq!(seen, expected);
}

#[test]
fn insert_tuple_too_large_for_any_page_errors_cleanly() {
    let mut pool = open_pool(4);
    let mut heap = TableHeap::create(&mut pool, TXN).unwrap();

    let oversized = vec![0u8; MAX_TUPLE_SIZE + 1];
    match heap.insert_tuple(&mut pool, TXN, &oversized) {
        Err(StorageError::TupleTooLarge { .. }) => {}
        Err(other) => panic!("expected TupleTooLarge, got {}", other.message()),
        Ok(_) => panic!("an oversized tuple must not be accepted"),
    }
}

#[test]
fn get_tuple_returns_none_for_deleted_slot() {
    let mut pool = open_pool(4);
    let mut heap = TableHeap::create(&mut pool, TXN).unwrap();

    let rid = heap.insert_tuple(&mut pool, TXN, b"gone soon").unwrap();
    heap.delete_tuple(&mut pool, TXN, rid).unwrap();

    assert_eq!(heap.get_tuple(&mut pool, rid).unwrap(), None);
}

#[test]
fn update_tuple_in_place_overwrites_a_sub_range_without_changing_length_or_rid() {
    let mut pool = open_pool(4);
    let mut heap = TableHeap::create(&mut pool, TXN).unwrap();

    let before = heap.insert_tuple(&mut pool, TXN, b"before").unwrap();
    let target = heap.insert_tuple(&mut pool, TXN, b"aaaaaaaaaa").unwrap();
    let after = heap.insert_tuple(&mut pool, TXN, b"after").unwrap();

    heap.update_tuple_in_place(&mut pool, TXN, target, 3, b"BBBB").unwrap();

    assert_eq!(heap.get_tuple(&mut pool, target).unwrap().as_deref(), Some(b"aaaBBBBaaa".as_slice()));
    assert_eq!(heap.get_tuple(&mut pool, before).unwrap().as_deref(), Some(b"before".as_slice()));
    assert_eq!(heap.get_tuple(&mut pool, after).unwrap().as_deref(), Some(b"after".as_slice()));
}

#[test]
fn update_tuple_in_place_past_the_tuples_end_is_rejected() {
    let mut pool = open_pool(4);
    let mut heap = TableHeap::create(&mut pool, TXN).unwrap();
    let rid = heap.insert_tuple(&mut pool, TXN, b"short").unwrap();

    match heap.update_tuple_in_place(&mut pool, TXN, rid, 3, b"toolong") {
        Err(StorageError::InPlaceUpdateOutOfBounds { .. }) => {}
        Err(other) => panic!("expected InPlaceUpdateOutOfBounds, got {}", other.message()),
        Ok(()) => panic!("a patch running past the tuple's own length must not be accepted"),
    }
    assert_eq!(
        heap.get_tuple(&mut pool, rid).unwrap().as_deref(),
        Some(b"short".as_slice()),
        "a rejected update must leave the original bytes untouched"
    );
}

#[test]
fn update_tuple_in_place_on_a_deleted_slot_is_rejected() {
    let mut pool = open_pool(4);
    let mut heap = TableHeap::create(&mut pool, TXN).unwrap();
    let rid = heap.insert_tuple(&mut pool, TXN, b"gone").unwrap();
    heap.delete_tuple(&mut pool, TXN, rid).unwrap();

    match heap.update_tuple_in_place(&mut pool, TXN, rid, 0, b"new!") {
        Err(StorageError::CorruptPage { .. }) => {}
        Err(other) => panic!("expected CorruptPage, got {}", other.message()),
        Ok(()) => panic!("updating a tombstoned slot must not be accepted"),
    }
}

#[test]
fn scanning_a_page_whose_init_never_reached_disk_is_a_clean_empty_scan() {
    let mut pool = open_pool(4);
    let (page_id, frame) = pool.new_page(TXN).unwrap();
    pool.unpin(frame);

    let heap = TableHeap::open(page_id);
    let tuples = collect(&heap, &mut pool).unwrap();
    assert_eq!(tuples, Vec::new(), "an uninitialized page must scan as empty, not corrupt");
}

#[test]
fn inserting_into_a_never_initialized_page_still_works() {
    let mut pool = open_pool(4);
    let (page_id, frame) = pool.new_page(TXN).unwrap();
    pool.unpin(frame);

    let mut heap = TableHeap::open(page_id);
    let rid = heap.insert_tuple(&mut pool, TXN, b"lost its init write, still usable").unwrap();
    assert_eq!(
        heap.get_tuple(&mut pool, rid).unwrap().as_deref(),
        Some(b"lost its init write, still usable".as_slice())
    );
}

#[test]
fn slot_count_above_max_slots_still_reports_corruption() {
    let mut pool = open_pool(4);
    let (page_id, frame) = pool.new_page(TXN).unwrap();
    pool.write(frame, TXN, 12, &(MAX_SLOTS + 1).to_le_bytes()).unwrap();
    pool.unpin(frame);

    let heap = TableHeap::open(page_id);
    let mut it = heap.iter();
    match it.next(&mut pool) {
        Some(Err(StorageError::CorruptPage { .. })) => {}
        Some(Ok(_)) => panic!("a bogus slot count must not yield a tuple"),
        Some(Err(err)) => panic!("expected CorruptPage, got a different error: {}", err.message()),
        None => panic!("a bogus slot count must be reported, not read as a clean empty scan"),
    }
}

#[test]
fn no_page_content_can_panic_a_reader() {
    let mut rng = rand::rngs::StdRng::from_seed([0x5eu8; 32]);
    for _case in 0..64 {
        let mut raw = vec![0u8; PAGE_SIZE];
        rng.fill_bytes(&mut raw);

        let mut pool = open_pool(2);
        let (page_id, frame) = pool.new_page(TXN).unwrap();
        pool.write(frame, TXN, 0, &raw).unwrap();
        pool.unpin(frame);

        let mut heap = TableHeap::open(page_id);

        let mut it = heap.iter();
        let mut steps = 0;
        while steps < 10_000 {
            if it.next(&mut pool).is_none() {
                break;
            }
            steps += 1;
        }
        for slot in 0..=u16::MAX {
            let _ = heap.get_tuple(&mut pool, Rid::new(page_id, slot));
        }
        let _ = heap.insert_tuple(&mut pool, TXN, b"probe");
    }
}

#[test]
fn scan_page_skips_deleted_tuples_and_ends_with_the_next_page() {
    let mut pool = open_pool(4);
    let mut heap = TableHeap::create(&mut pool, TXN).unwrap();
    let first = heap.insert_tuple(&mut pool, TXN, b"one").unwrap();
    let second = heap.insert_tuple(&mut pool, TXN, b"two").unwrap();
    heap.delete_tuple(&mut pool, TXN, first).unwrap();

    match TableHeap::scan_page(&mut pool, heap.first_page_id(), 0).unwrap() {
        PageScan::Tuple { slot, bytes } => {
            assert_eq!(slot, second.slot);
            assert_eq!(bytes, b"two".to_vec());
        }
        PageScan::EndOfPage { .. } => panic!("the second tuple is live"),
    }
    match TableHeap::scan_page(&mut pool, heap.first_page_id(), second.slot + 1).unwrap() {
        PageScan::EndOfPage { next_page_id } => assert_eq!(next_page_id, None),
        PageScan::Tuple { .. } => panic!("no tuple follows the second"),
    }
}

#[test]
fn a_full_page_links_a_new_one_and_the_chain_is_walked_in_order() {
    let mut pool = open_pool(4);
    let mut heap = TableHeap::create(&mut pool, TXN).unwrap();
    let big = vec![7u8; 2_000];
    let a = heap.insert_tuple(&mut pool, TXN, &big).unwrap();
    let b = heap.insert_tuple(&mut pool, TXN, &big).unwrap();
    let c = heap.insert_tuple(&mut pool, TXN, &big).unwrap();
    assert_eq!(a.page_id, heap.first_page_id());
    assert_eq!(b.page_id, heap.first_page_id());
    assert_ne!(c.page_id, heap.first_page_id(), "a third 2000-byte tuple needs a new page");
    match TableHeap::scan_page(&mut pool, heap.first_page_id(), 2).unwrap() {
        PageScan::EndOfPage { next_page_id } => assert_eq!(next_page_id, Some(c.page_id)),
        PageScan::Tuple { .. } => panic!("the first page holds two tuples"),
    }
    let rids: Vec<Rid> = collect(&heap, &mut pool).unwrap().into_iter().map(|(rid, _)| rid).collect();
    assert_eq!(rids, vec![a, b, c]);
}

#[test]
fn wal_ordering_holds_across_an_eviction_heavy_workload() -> Result<(), StorageError> {
    let mut pool = open_pool(3);

    let mut heap = TableHeap::create(&mut pool, TxnId(0))?;
    let payload = vec![0x7Au8; 200];
    for i in 0..200u32 {
        let mut tuple = payload.clone();
        tuple.extend_from_slice(&i.to_le_bytes());
        heap.insert_tuple(&mut pool, TxnId(0), &tuple)?;
    }
    pool.flush_all()?;

    let observations = pool.write_observations();
    assert!(!observations.is_empty(), "the small pool should have forced at least one eviction");
    for observation in observations {
        assert!(
            observation.durable_lsn >= observation.page_lsn,
            "page {:?} reached disk with page_lsn {:?} ahead of durable_lsn {:?}",
            observation.page_id,
            observation.page_lsn,
            observation.durable_lsn
        );
    }
    Ok(())
}
