use storage::btree::{
    build_internal_payload, build_leaf_payload, byte_balanced_split_point, changed_byte_runs,
    child_for_key, entry_key, internal_split_point, leaf_rid, leaf_sort_key, leaf_split_point,
    lower_bound_leaf, read_entries, slot_offset, upper_bound, upper_bound_in, upper_bound_in_leaf,
    upper_bound_leaf, BTreeNode, ByteRun, DATA_USED_AT, LEAF_TAG, NODE_TYPE_AT, SLOT_COUNT_AT,
};
use storage::error::StorageError;
use storage::ids::{PageId, Rid, TxnId};
use storage::page::{Page, PAGE_SIZE};

fn page_bytes_from_payloads(payloads: &[Vec<u8>]) -> Vec<u8> {
    let mut buf = vec![0u8; PAGE_SIZE];
    buf[NODE_TYPE_AT] = LEAF_TAG;
    buf[SLOT_COUNT_AT..SLOT_COUNT_AT + 2].copy_from_slice(&(payloads.len() as u16).to_le_bytes());
    let mut end = PAGE_SIZE;
    for (i, payload) in payloads.iter().enumerate() {
        end -= payload.len();
        buf[end..end + payload.len()].copy_from_slice(payload);
        let slot_at = slot_offset(i as u16);
        buf[slot_at..slot_at + 2].copy_from_slice(&(end as u16).to_le_bytes());
        buf[slot_at + 2..slot_at + 4].copy_from_slice(&(payload.len() as u16).to_le_bytes());
    }
    buf[DATA_USED_AT..DATA_USED_AT + 2].copy_from_slice(&((PAGE_SIZE - end) as u16).to_le_bytes());
    buf
}

fn uniform_entries(count: usize, len: usize) -> Vec<Vec<u8>> {
    vec![vec![0u8; len]; count]
}

/// A small deterministic generator of entry lengths.
fn lengths(seed: u64, count: usize) -> Vec<Vec<u8>> {
    let mut state = seed.wrapping_mul(6364136223846793005).wrapping_add(1442695040888963407);
    (0..count)
        .map(|_| {
            state = state.wrapping_mul(6364136223846793005).wrapping_add(1442695040888963407);
            vec![0u8; 1 + (state >> 33) as usize % 199]
        })
        .collect()
}

#[test]
fn leaf_split_point_stays_in_bounds_for_the_duplicate_key_workload_that_once_corrupted_the_tree() {
    let entries = uniform_entries(240, 13);
    let split = leaf_split_point(&entries);
    assert!(split > 0 && split < entries.len(), "split {split} out of bounds");
}

#[test]
fn internal_split_point_stays_in_bounds_for_the_duplicate_key_workload_that_once_corrupted_the_tree() {
    let entries = uniform_entries(240, 13);
    let split = internal_split_point(&entries);
    assert!(split > 0 && split < entries.len(), "split {split} out of bounds");
}

#[test]
fn split_points_stay_in_bounds_over_many_generated_entry_lists() {
    for seed in 0..200u64 {
        for count in [1usize, 2, 3, 4, 7, 50, 299] {
            let entries = lengths(seed, count);
            assert!(byte_balanced_split_point(&entries) < entries.len());
            let internal = internal_split_point(&entries);
            assert!(internal < entries.len());
            if count >= 2 {
                let leaf = leaf_split_point(&entries);
                assert!(leaf >= 1 && leaf < entries.len());
            }
            if count >= 3 {
                assert!(internal >= 1 && internal <= entries.len() - 2);
            }
        }
    }
}

#[test]
fn byte_balanced_split_point_is_the_first_entry_reaching_half_the_bytes() {
    let entries: Vec<Vec<u8>> = vec![vec![0; 10], vec![0; 10], vec![0; 100], vec![0; 10]];
    // weights 14, 14, 104, 14: total 146, half 73; running 14, 28, 132
    assert_eq!(byte_balanced_split_point(&entries), 2);
    assert_eq!(leaf_split_point(&entries), 3);
    assert_eq!(internal_split_point(&entries), 2);
    let two: Vec<Vec<u8>> = vec![vec![0; 50], vec![0; 1]];
    // weights 54, 5: total 59, half 29
    assert_eq!(byte_balanced_split_point(&two), 0);
    assert_eq!(internal_split_point(&two), 0);
    assert_eq!(leaf_split_point(&two), 1);
}

#[test]
fn upper_bound_in_returns_the_count_when_every_entry_shares_the_search_key() {
    let key: &[u8] = b"k";
    let entries: Vec<Vec<u8>> = (0..16).map(|_| build_internal_payload(key, PageId(1))).collect();
    assert_eq!(upper_bound_in(&entries, key), entries.len());
}

#[test]
fn upper_bound_in_skips_every_duplicate_and_lands_on_the_first_greater_key() {
    let mut entries: Vec<Vec<u8>> = (0..8).map(|_| build_internal_payload(b"a", PageId(1))).collect();
    entries.push(build_internal_payload(b"b", PageId(2)));
    assert_eq!(upper_bound_in(&entries, b"a"), 8);
}

#[test]
fn upper_bound_in_leaf_returns_the_count_when_every_entry_shares_the_sort_key() {
    let payload = build_leaf_payload(b"k", Rid::new(PageId(1), 0));
    let sort_key = leaf_sort_key(&payload).to_vec();
    let entries: Vec<Vec<u8>> = (0..16).map(|_| payload.clone()).collect();
    assert_eq!(upper_bound_in_leaf(&entries, &sort_key), entries.len());
}

#[test]
fn upper_bound_on_a_page_returns_the_slot_count_when_every_key_is_a_duplicate() {
    let payloads: Vec<Vec<u8>> = (0..10).map(|_| build_internal_payload(b"dup", PageId(1))).collect();
    let bytes = page_bytes_from_payloads(&payloads);
    let count = upper_bound(&bytes, b"dup", PageId(0)).expect("well-formed page");
    assert_eq!(count as usize, payloads.len());
}

#[test]
fn lower_bound_leaf_finds_the_first_of_a_run_of_duplicate_sort_keys() {
    let dup_payload = build_leaf_payload(b"dup", Rid::new(PageId(1), 0));
    let sort_key = leaf_sort_key(&dup_payload).to_vec();
    let mut payloads = vec![build_leaf_payload(b"aaa", Rid::new(PageId(1), 0))];
    payloads.extend((0..5).map(|_| dup_payload.clone()));
    let bytes = page_bytes_from_payloads(&payloads);
    let idx = lower_bound_leaf(&bytes, &sort_key, PageId(0)).expect("well-formed page");
    assert_eq!(idx, 1);
}

#[test]
fn upper_bound_leaf_finds_one_past_the_last_of_a_run_of_duplicate_sort_keys() {
    let dup_payload = build_leaf_payload(b"dup", Rid::new(PageId(1), 0));
    let sort_key = leaf_sort_key(&dup_payload).to_vec();
    let mut payloads: Vec<Vec<u8>> = (0..5).map(|_| dup_payload.clone()).collect();
    payloads.push(build_leaf_payload(b"zzz", Rid::new(PageId(1), 0)));
    let bytes = page_bytes_from_payloads(&payloads);
    let idx = upper_bound_leaf(&bytes, &sort_key, PageId(0)).expect("well-formed page");
    assert_eq!(idx, 5);
}

#[test]
fn leaf_payload_round_trips_key_sort_key_and_rid() {
    let rid = Rid::new(PageId(0x0102_0304), 0x0506);
    let payload = build_leaf_payload(b"hello", rid);
    assert_eq!(payload.len(), 2 + 5 + 6);
    assert_eq!(entry_key(&payload), b"hello");
    assert_eq!(leaf_sort_key(&payload), &[b'h', b'e', b'l', b'l', b'o', 4, 3, 2, 1, 6, 5][..]);
    assert_eq!(leaf_rid(&payload), rid);
    assert_eq!(entry_key(&[5u8]), b"");
    assert_eq!(entry_key(&[9u8, 0, 1]), b"");
}

#[test]
fn a_slot_count_past_the_page_is_reported_as_corruption() {
    let mut bytes = page_bytes_from_payloads(&[]);
    bytes[SLOT_COUNT_AT..SLOT_COUNT_AT + 2].copy_from_slice(&2000u16.to_le_bytes());
    match upper_bound(&bytes, b"k", PageId(4)) {
        Err(StorageError::CorruptPage { page_id: 4, reason }) => assert_eq!(
            reason,
            "slot count 2000 exceeds the 1018 slots a 4096-byte page can hold"
        ),
        other => panic!("expected corruption, got {other:?}"),
    }
}

#[test]
fn an_entry_overlapping_the_slot_array_is_reported_as_corruption() {
    let mut bytes = page_bytes_from_payloads(&[build_internal_payload(b"a", PageId(1))]);
    let at = slot_offset(0);
    bytes[at..at + 2].copy_from_slice(&10u16.to_le_bytes());
    match read_entries(&bytes, PageId(2)) {
        Err(StorageError::CorruptPage { page_id: 2, reason }) => assert_eq!(
            reason,
            "slot 0's entry at offset 10 overlaps the 25-byte slot array"
        ),
        other => panic!("expected corruption, got {other:?}"),
    }
}

#[test]
fn child_for_key_descends_to_the_tail_left_of_every_key_and_to_an_entry_child_otherwise() {
    let payloads = vec![
        build_internal_payload(b"m", PageId(20)),
        build_internal_payload(b"t", PageId(30)),
    ];
    let mut bytes = page_bytes_from_payloads(&payloads);
    bytes[NODE_TYPE_AT] = 1;
    bytes[17..21].copy_from_slice(&10u32.to_le_bytes());
    assert_eq!(child_for_key(&bytes, b"a", PageId(1)).unwrap(), PageId(10));
    assert_eq!(child_for_key(&bytes, b"m", PageId(1)).unwrap(), PageId(20));
    assert_eq!(child_for_key(&bytes, b"p", PageId(1)).unwrap(), PageId(20));
    assert_eq!(child_for_key(&bytes, b"z", PageId(1)).unwrap(), PageId(30));
    bytes[17..21].copy_from_slice(&0u32.to_le_bytes());
    match child_for_key(&bytes, b"a", PageId(1)) {
        Err(StorageError::CorruptPage { reason, .. }) => {
            assert_eq!(reason, "internal node has no tail (leftmost child) pointer")
        }
        other => panic!("expected corruption, got {other:?}"),
    }
}

#[test]
fn changed_byte_runs_merge_runs_closer_than_the_gap() {
    let old = vec![0u8; 100];
    let mut new = old.clone();
    new[3] = 1;
    new[4] = 1;
    new[10] = 1;
    new[60] = 1;
    let runs = changed_byte_runs(&old, &new);
    assert_eq!(runs, vec![ByteRun { start: 3, end: 11 }, ByteRun { start: 60, end: 61 }]);
    assert!(changed_byte_runs(&old, &old).is_empty());
    new[27] = 1;
    let runs = changed_byte_runs(&old, &new);
    assert_eq!(
        runs,
        vec![ByteRun { start: 3, end: 11 }, ByteRun { start: 27, end: 28 }, ByteRun { start: 60, end: 61 }],
        "sixteen unchanged bytes keep runs apart"
    );
    new[26] = 1;
    let runs = changed_byte_runs(&old, &new);
    assert_eq!(runs, vec![ByteRun { start: 3, end: 28 }, ByteRun { start: 60, end: 61 }]);
}

#[test]
fn a_node_built_by_inserts_and_one_rebuilt_read_back_the_same_entries() {
    let txn = TxnId(1);
    let mut node = BTreeNode::new(Page::new(PageId(5)), txn);
    node.init(false, None);
    let a = build_leaf_payload(b"a", Rid::new(PageId(1), 1));
    let c = build_leaf_payload(b"c", Rid::new(PageId(1), 3));
    let b = build_leaf_payload(b"b", Rid::new(PageId(1), 2));
    for payload in [&a, &c, &b] {
        assert!(node.will_fit(payload.len()));
        let at = node.find_insert_index(leaf_sort_key(payload)).unwrap();
        node.insert_at(at, payload);
    }
    assert_eq!(node.slot_count(), 3);
    let page = node.into_page();
    let (tail, entries) = read_entries(page.data(), PageId(5)).unwrap();
    assert_eq!(tail, None);
    assert_eq!(entries, vec![a.clone(), b.clone(), c.clone()]);

    let mut rebuilt = BTreeNode::new(Page::new(PageId(6)), txn);
    rebuilt.rebuild(false, Some(PageId(9)), &entries).unwrap();
    let page = rebuilt.into_page();
    let (tail, back) = read_entries(page.data(), PageId(6)).unwrap();
    assert_eq!(tail, Some(PageId(9)));
    assert_eq!(back, entries);
}

#[test]
fn rebuilding_with_more_than_a_page_of_entries_is_a_node_overflow() {
    let mut node = BTreeNode::new(Page::new(PageId(7)), TxnId(1));
    let entries = vec![vec![1u8; 3000], vec![2u8; 1100]];
    match node.rebuild(true, None, &entries) {
        Err(StorageError::NodeOverflow { page_id: 7, required, capacity }) => {
            assert_eq!(required, 9 + 8 + 4100);
            assert_eq!(capacity, 4084);
        }
        other => panic!("expected an overflow, got {other:?}"),
    }
    assert!(node.into_page().data().iter().all(|&b| b == 0), "a refused rebuild writes nothing");
}
