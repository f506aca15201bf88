use rand::seq::SliceRandom;
use rand::SeedableRng;
use storage::block_device::MemDevice;
use storage::btree::{BTreeIndex, LeafScan, MAX_KEY_SIZE};
use storage::buffer::BufferPool;
use storage::disk::DiskManager;
use storage::dwb::DoubleWriteBuffer;
use storage::error::StorageError;
use storage::ids::{PageId, Rid, TxnId};
use storage::log_manager::{LogManager, NoSegmentStore};
use storage::page::PAGE_SIZE;
use storage::replacer::LruKReplacer;

type Pool = BufferPool<MemDevice, MemDevice, NoSegmentStore<MemDevice>>;

const TXN: TxnId = TxnId(0);

fn open_pool(pool_size: usize) -> Pool {
    let disk = DiskManager::open_with_device(MemDevice::new(), PAGE_SIZE).expect("open disk");
    let dwb = DoubleWriteBuffer::open_with_device(MemDevice::new(), DoubleWriteBuffer::<MemDevice>::DEFAULT_CAPACITY)
        .expect("open double-write buffer");
    let log = LogManager::open_with_device(MemDevice::new()).expect("open log");
    BufferPool::new(disk, dwb, log, pool_size, LruKReplacer::new(pool_size, 2))
}

fn key_of(i: i32) -> Vec<u8> {
    ((i as u32) ^ 0x8000_0000).to_be_bytes().to_vec()
}

fn collect_range(
    index: &BTreeIndex,
    pool: &mut Pool,
    start: Option<&[u8]>,
    end: Option<&[u8]>,
) -> Result<Vec<(Vec<u8>, Rid)>, StorageError> {
    let mut scan = index.range_scan(start, end);
    let mut out = Vec::new();
    while let Some(item) = scan.next(pool) {
        out.push(item?);
    }
    Ok(out)
}

#[test]
fn a_single_insert_is_found_by_get() {
    let mut pool = open_pool(16);
    let mut index = BTreeIndex::create(&mut pool, TXN).unwrap();

    let rid = Rid::new(PageId(7), 3);
    index.insert(&mut pool, TXN, b"hello", rid).unwrap();

    assert_eq!(index.get(&mut pool, b"hello").unwrap(), vec![rid]);
    assert_eq!(index.get(&mut pool, b"missing").unwrap(), Vec::new());
    index.check_invariants(&mut pool).unwrap();
}

#[test]
fn ascending_insert_of_ten_thousand_keys_keeps_invariants_and_every_key_findable() {
    let mut pool = open_pool(64);
    let mut index = BTreeIndex::create(&mut pool, TXN).unwrap();

    for i in 0..10_000i32 {
        index.insert(&mut pool, TXN, &key_of(i), Rid::new(PageId(1), (i % u16::MAX as i32) as u16)).unwrap();
    }
    index.check_invariants(&mut pool).unwrap();

    for i in 0..10_000i32 {
        let rids = index.get(&mut pool, &key_of(i)).unwrap();
        assert_eq!(rids.len(), 1, "key {i} should be found exactly once");
    }
}

#[test]
fn descending_insert_of_ten_thousand_keys_keeps_invariants_and_every_key_findable() {
    let mut pool = open_pool(64);
    let mut index = BTreeIndex::create(&mut pool, TXN).unwrap();

    for i in (0..10_000i32).rev() {
        index.insert(&mut pool, TXN, &key_of(i), Rid::new(PageId(1), (i % u16::MAX as i32) as u16)).unwrap();
    }
    index.check_invariants(&mut pool).unwrap();

    for i in 0..10_000i32 {
        let rids = index.get(&mut pool, &key_of(i)).unwrap();
        assert_eq!(rids.len(), 1, "key {i} should be found exactly once");
    }
}

#[test]
fn variable_length_varchar_keys_still_split_correctly() {
    let mut pool = open_pool(64);
    let mut index = BTreeIndex::create(&mut pool, TXN).unwrap();

    let mut keys = Vec::new();
    for i in 0..500i32 {
        let len = 1 + (i as usize * 7) % 500;
        let key = format!("{i:05}-{}", "x".repeat(len));
        keys.push(key.into_bytes());
    }
    for (i, key) in keys.iter().enumerate() {
        index.insert(&mut pool, TXN, key, Rid::new(PageId(1), i as u16)).unwrap();
    }
    index.check_invariants(&mut pool).unwrap();

    for (i, key) in keys.iter().enumerate() {
        let rids = index.get(&mut pool, key).unwrap();
        assert_eq!(rids, vec![Rid::new(PageId(1), i as u16)]);
    }
}

#[test]
fn a_key_too_large_for_an_empty_node_errors_cleanly() {
    let mut pool = open_pool(16);
    let mut index = BTreeIndex::create(&mut pool, TXN).unwrap();

    let oversized = vec![0u8; MAX_KEY_SIZE + 1];
    match index.insert(&mut pool, TXN, &oversized, Rid::new(PageId(1), 0)) {
        Err(StorageError::KeyTooLarge { .. }) => {}
        Err(other) => panic!("expected KeyTooLarge, got {}", other.message()),
        Ok(()) => panic!("an oversized key must not be accepted"),
    }
}

#[test]
fn a_leaf_split_logs_well_under_the_naive_two_full_page_cost() {
    let mut pool = open_pool(64);
    let mut index = BTreeIndex::create(&mut pool, TXN).unwrap();

    let mut last_root = index.root_page_id();
    let mut found = false;
    for i in 0..3_000i32 {
        let before = pool.log_bytes_appended();
        index.insert(&mut pool, TXN, &key_of(i), Rid::new(PageId(1), 0)).unwrap();
        let after = pool.log_bytes_appended();
        let root_changed = index.root_page_id() != last_root;
        last_root = index.root_page_id();

        if root_changed {
            continue;
        }
        let delta = after - before;
        if delta > 500 {
            let naive_two_full_pages = 2 * (2 * PAGE_SIZE as u64);
            assert!(
                delta < naive_two_full_pages / 2,
                "a leaf split should log well under the {naive_two_full_pages}-byte naive cost, got {delta} bytes"
            );
            found = true;
            break;
        }
    }
    assert!(found, "the insert loop must trigger at least one plain (non-root) leaf split");
}

#[test]
fn root_height_grows_and_root_page_id_changes_on_a_root_split() {
    let mut pool = open_pool(64);
    let mut index = BTreeIndex::create(&mut pool, TXN).unwrap();

    let original_root = index.root_page_id();
    let mut root_changed = false;
    for i in 0..5_000i32 {
        index.insert(&mut pool, TXN, &key_of(i), Rid::new(PageId(1), 0)).unwrap();
        if index.root_page_id() != original_root {
            root_changed = true;
        }
    }
    assert!(root_changed, "enough inserts must eventually split the root");
    index.check_invariants(&mut pool).unwrap();
}

#[test]
fn duplicate_keys_spanning_a_split_are_all_returned_by_get() {
    let mut pool = open_pool(64);
    let mut index = BTreeIndex::create(&mut pool, TXN).unwrap();

    for i in 0..3_000i32 {
        index.insert(&mut pool, TXN, &key_of(i), Rid::new(PageId(1), 0)).unwrap();
    }
    let dup_key = key_of(1_500);
    let mut expected = vec![Rid::new(PageId(1), 0)];
    for i in 0..40u16 {
        let rid = Rid::new(PageId(2), i);
        index.insert(&mut pool, TXN, &dup_key, rid).unwrap();
        expected.push(rid);
    }
    index.check_invariants(&mut pool).unwrap();

    let mut found = index.get(&mut pool, &dup_key).unwrap();
    found.sort_by_key(|rid| (rid.page_id, rid.slot));
    expected.sort_by_key(|rid| (rid.page_id, rid.slot));
    assert_eq!(found, expected);
}

#[test]
fn seeded_random_permutation_of_two_thousand_keys_keeps_invariants_and_finds_every_key() {
    let mut rng = rand::rngs::StdRng::from_seed([0x5eu8; 32]);
    let mut keys: Vec<i32> = (0..2_000i32).collect();
    keys.shuffle(&mut rng);

    let mut pool = open_pool(64);
    let mut index = BTreeIndex::create(&mut pool, TXN).unwrap();

    for (i, &k) in keys.iter().enumerate() {
        index.insert(&mut pool, TXN, &key_of(k), Rid::new(PageId(1), (k % i32::from(u16::MAX)) as u16)).unwrap();
        if (i + 1) % 100 == 0 {
            index.check_invariants(&mut pool).unwrap();
        }
    }
    index.check_invariants(&mut pool).unwrap();

    for &k in &keys {
        let rids = index.get(&mut pool, &key_of(k)).unwrap();
        assert_eq!(rids.len(), 1, "key {k} should be found exactly once");
    }
}

#[test]
fn range_scan_yields_keys_in_order_across_leaf_boundaries() {
    let mut pool = open_pool(64);
    let mut index = BTreeIndex::create(&mut pool, TXN).unwrap();

    for i in 0..3_000i32 {
        index.insert(&mut pool, TXN, &key_of(i), Rid::new(PageId(1), 0)).unwrap();
    }

    let collected = collect_range(&index, &mut pool, None, None).unwrap();
    assert_eq!(collected.len(), 3_000);
    for w in collected.windows(2) {
        assert!(w[0].0 < w[1].0, "range_scan must yield keys in ascending order");
    }

    let bounded = collect_range(&index, &mut pool, Some(&key_of(100)), Some(&key_of(110))).unwrap();
    assert_eq!(bounded.len(), 10, "range [100, 110) should yield exactly 10 keys");
}

#[test]
fn scan_leaf_and_leaf_for_start_cross_a_leaf_boundary_like_range_scan_does() {
    let mut pool = open_pool(64);
    let mut index = BTreeIndex::create(&mut pool, TXN).unwrap();

    for i in 0..3_000i32 {
        index.insert(&mut pool, TXN, &key_of(i), Rid::new(PageId(1), 0)).unwrap();
    }

    let (mut page_id, mut slot) = index.leaf_for_start(&mut pool, None).unwrap();
    let mut collected = Vec::new();
    let mut crossed_a_leaf_boundary = false;
    loop {
        match BTreeIndex::scan_leaf(&mut pool, page_id, slot).unwrap() {
            LeafScan::Entry { slot: found_slot, key, rid } => {
                assert_eq!(found_slot, slot, "scan_leaf must report back the slot it read");
                collected.push((key, rid));
                slot += 1;
            }
            LeafScan::EndOfLeaf { next_leaf_page_id: Some(next) } => {
                crossed_a_leaf_boundary = true;
                page_id = next;
                slot = 0;
            }
            LeafScan::EndOfLeaf { next_leaf_page_id: None } => break,
        }
    }

    assert!(crossed_a_leaf_boundary, "3,000 keys in a 64-frame pool must span more than one leaf");
    assert_eq!(collected.len(), 3_000);
    for w in collected.windows(2) {
        assert!(w[0].0 < w[1].0, "scan_leaf must yield keys in ascending order");
    }

    let (start_page, start_slot) = index.leaf_for_start(&mut pool, Some(&key_of(100))).unwrap();
    let LeafScan::Entry { key, .. } = BTreeIndex::scan_leaf(&mut pool, start_page, start_slot).unwrap() else {
        panic!("leaf_for_start(Some(key_of(100))) must land on a present entry");
    };
    assert_eq!(key, key_of(100), "leaf_for_start must land exactly on the requested key");
}

#[test]
fn a_leaf_full_of_one_repeated_key_splits_without_corruption() {
    let mut pool = open_pool(64);
    let mut index = BTreeIndex::create(&mut pool, TXN).unwrap();

    let key = key_of(42);
    let mut expected = Vec::new();
    for i in 0..1_200u16 {
        let rid = Rid::new(PageId(1), i);
        index.insert(&mut pool, TXN, &key, rid).unwrap();
        expected.push(rid);
        if i % 50 == 0 {
            index.check_invariants(&mut pool).unwrap();
        }
    }
    index.check_invariants(&mut pool).unwrap();

    let mut found = index.get(&mut pool, &key).unwrap();
    found.sort_by_key(|rid| (rid.page_id, rid.slot));
    expected.sort_by_key(|rid| (rid.page_id, rid.slot));
    assert_eq!(found, expected);
}

#[test]
fn a_long_duplicate_run_between_distinct_keys_stays_ordered() {
    let mut pool = open_pool(64);
    let mut index = BTreeIndex::create(&mut pool, TXN).unwrap();

    for i in 0..200i32 {
        index.insert(&mut pool, TXN, &key_of(i), Rid::new(PageId(9), i as u16)).unwrap();
    }
    let hot = key_of(100);
    for i in 0..800u16 {
        index.insert(&mut pool, TXN, &hot, Rid::new(PageId(1), i)).unwrap();
    }
    for i in 200..400i32 {
        index.insert(&mut pool, TXN, &key_of(i), Rid::new(PageId(9), i as u16)).unwrap();
    }

    index.check_invariants(&mut pool).unwrap();
    assert_eq!(index.get(&mut pool, &hot).unwrap().len(), 801);
    assert_eq!(index.get(&mut pool, &key_of(399)).unwrap().len(), 1);

    let scanned = collect_range(&index, &mut pool, None, None).unwrap();
    assert_eq!(scanned.len(), 1_200);
    assert!(scanned.windows(2).all(|w| w[0].0 <= w[1].0));
}

#[test]
fn a_maximum_length_key_survives_a_split() {
    let mut pool = open_pool(64);
    let mut index = BTreeIndex::create(&mut pool, TXN).unwrap();

    for i in 0..8u8 {
        let mut key = vec![i; MAX_KEY_SIZE];
        key[MAX_KEY_SIZE - 1] = i;
        index.insert(&mut pool, TXN, &key, Rid::new(PageId(1), i as u16)).unwrap();
    }
    index.check_invariants(&mut pool).unwrap();
}

#[test]
fn a_new_index_is_one_empty_leaf() {
    let mut pool = open_pool(8);
    let index = BTreeIndex::create(&mut pool, TXN).unwrap();
    let (leaf, slot) = index.leaf_for_start(&mut pool, None).unwrap();
    assert_eq!(leaf, index.root_page_id());
    assert_eq!(slot, 0);
    match BTreeIndex::scan_leaf(&mut pool, leaf, 0).unwrap() {
        LeafScan::EndOfLeaf { next_leaf_page_id } => assert_eq!(next_leaf_page_id, None),
        LeafScan::Entry { .. } => panic!("a new index has no entries"),
    }
    assert_eq!(index.get(&mut pool, b"anything").unwrap(), Vec::new());
    assert!(collect_range(&index, &mut pool, None, None).unwrap().is_empty());
    index.check_invariants(&mut pool).unwrap();
}

#[test]
fn an_open_index_reads_what_was_inserted_through_another_handle() {
    let mut pool = open_pool(16);
    let mut index = BTreeIndex::create(&mut pool, TXN).unwrap();
    index.insert(&mut pool, TXN, b"k", Rid::new(PageId(3), 4)).unwrap();
    let reopened = BTreeIndex::open(index.root_page_id());
    assert_eq!(reopened.get(&mut pool, b"k").unwrap(), vec![Rid::new(PageId(3), 4)]);
}

#[test]
fn a_range_scan_stops_before_its_end_key_and_stays_done() {
    let mut pool = open_pool(16);
    let mut index = BTreeIndex::create(&mut pool, TXN).unwrap();
    for i in 0..5i32 {
        index.insert(&mut pool, TXN, &key_of(i), Rid::new(PageId(1), i as u16)).unwrap();
    }
    let end = key_of(3);
    let mut scan = index.range_scan(Some(&key_of(1)), Some(&end));
    let first = scan.next(&mut pool).unwrap().unwrap();
    assert_eq!(first, (key_of(1), Rid::new(PageId(1), 1)));
    let second = scan.next(&mut pool).unwrap().unwrap();
    assert_eq!(second, (key_of(2), Rid::new(PageId(1), 2)));
    assert!(scan.next(&mut pool).is_none());
    assert!(scan.next(&mut pool).is_none());
}

#[test]
fn a_corrupt_node_is_reported_by_check_invariants_and_get() {
    let mut pool = open_pool(16);
    let index = BTreeIndex::create(&mut pool, TXN).unwrap();
    let frame = pool.fetch_page(index.root_page_id()).unwrap();
    // slot count 2000 is more than a page holds
    pool.write(frame, TXN, 13, &2000u16.to_le_bytes()).unwrap();
    pool.unpin(frame);
    let message = index.check_invariants(&mut pool).unwrap_err();
    assert_eq!(
        message,
        format!(
            "page {0}: corrupt page {0}: slot count 2000 exceeds the 1018 slots a 4096-byte page can hold",
            index.root_page_id().0
        )
    );
    match index.get(&mut pool, b"x") {
        Err(StorageError::CorruptPage { page_id, .. }) => assert_eq!(page_id, index.root_page_id().0),
        _ => panic!("expected a corrupt page"),
    }
}

#[test]
fn keys_of_one_length_in_a_lone_leaf_are_each_found_with_all_their_record_ids() {
    let mut pool = open_pool(8);
    let mut index = BTreeIndex::create(&mut pool, TXN).unwrap();
    for i in 0..20i32 {
        index.insert(&mut pool, TXN, &key_of(i % 5), Rid::new(PageId(3), i as u16)).unwrap();
    }
    let (leaf, _) = index.leaf_for_start(&mut pool, None).unwrap();
    assert_eq!(leaf, index.root_page_id(), "twenty short entries fit in the root leaf");
    for k in 0..5i32 {
        let mut found = index.get(&mut pool, &key_of(k)).unwrap();
        found.sort_by_key(|rid| rid.slot);
        let expected: Vec<Rid> = (0..20u16).filter(|i| (*i as i32) % 5 == k).map(|i| Rid::new(PageId(3), i)).collect();
        assert_eq!(found, expected);
    }
    index.check_invariants(&mut pool).unwrap();
}

#[test]
fn check_invariants_reports_keys_out_of_order() {
    let mut pool = open_pool(8);
    let mut index = BTreeIndex::create(&mut pool, TXN).unwrap();
    index.insert(&mut pool, TXN, &[1], Rid::new(PageId(1), 0)).unwrap();
    index.insert(&mut pool, TXN, &[2], Rid::new(PageId(1), 1)).unwrap();
    let frame = pool.fetch_page(index.root_page_id()).unwrap();
    // swap the two slot entries so the keys run backwards
    let slots = pool.page(frame).data()[21..29].to_vec();
    let mut swapped = slots[4..8].to_vec();
    swapped.extend_from_slice(&slots[0..4]);
    pool.write(frame, TXN, 21, &swapped).unwrap();
    pool.unpin(frame);
    let message = index.check_invariants(&mut pool).unwrap_err();
    assert_eq!(
        message,
        format!(
            "page {}: keys are not strictly increasing bytewise ([2, 1, 0, 0, 0, 1, 0] then [1, 1, 0, 0, 0, 0, 0])",
            index.root_page_id().0
        )
    );
}

fn workload_keys() -> Vec<Vec<u8>> {
    (0..12i32)
        .map(|i| {
            let mut key = format!("{i:06}").into_bytes();
            key.resize(600, b'x');
            key
        })
        .collect()
}

fn duplicate_workload_keys() -> Vec<Vec<u8>> {
    let mut low = b"000low".to_vec();
    low.resize(600, b'a');
    let mut hot = b"hot".to_vec();
    hot.resize(600, b'h');
    let mut high = b"999high".to_vec();
    high.resize(600, b'z');

    let mut keys = vec![low];
    keys.extend((0..10).map(|_| hot.clone()));
    keys.push(high);
    keys
}

#[test]
fn workload_keys_actually_force_a_root_split() {
    let mut pool = open_pool(16);
    let original_root = BTreeIndex::create(&mut pool, TxnId(0)).unwrap().root_page_id();

    let mut index = BTreeIndex::open(original_root);
    for (i, key) in workload_keys().iter().enumerate() {
        index.insert(&mut pool, TxnId(i as u64 + 1), key, Rid::new(PageId(1), i as u16)).unwrap();
    }
    assert_ne!(
        index.root_page_id(),
        original_root,
        "the crash-injection workload must be large enough to force at least one root split"
    );
    index.check_invariants(&mut pool).unwrap();
}

#[test]
fn duplicate_workload_keys_actually_force_a_split_from_duplicates() {
    let mut pool = open_pool(16);
    let original_root = BTreeIndex::create(&mut pool, TxnId(0)).unwrap().root_page_id();

    let mut index = BTreeIndex::open(original_root);
    let keys = duplicate_workload_keys();
    for (i, key) in keys.iter().enumerate() {
        index.insert(&mut pool, TxnId(i as u64 + 1), key, Rid::new(PageId(1), i as u16)).unwrap();
    }
    assert_ne!(
        index.root_page_id(),
        original_root,
        "the duplicate-heavy workload must be large enough to force at least one split"
    );
    index.check_invariants(&mut pool).unwrap();

    let mut hot = b"hot".to_vec();
    hot.resize(600, b'h');
    assert_eq!(index.get(&mut pool, &hot).unwrap().len(), 10, "all ten hot-key inserts must be findable");
}
