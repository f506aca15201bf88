use storage::error::TxnError;
use storage::ids::{PageId, Rid, TableId, TxnId};
use storage::txn::lock_manager::{LockManager, LockMode, LockOutcome};

fn rid(slot: u16) -> Rid {
    Rid::new(PageId(0), slot)
}

fn granted(r: Result<LockOutcome, TxnError>) -> bool {
    matches!(r, Ok(LockOutcome::Granted))
}

fn must_wait(r: Result<LockOutcome, TxnError>) -> bool {
    matches!(r, Ok(LockOutcome::MustWait))
}

#[test]
fn two_shared_holders_coexist() {
    let mut locks = LockManager::new();
    let r = rid(1);
    assert!(granted(locks.lock(TxnId(1), r, LockMode::Shared)));
    assert!(granted(locks.lock(TxnId(2), r, LockMode::Shared)));
}

#[test]
fn table_locks_conflict_like_row_locks() {
    let mut locks = LockManager::new();
    let t = TableId(1);
    assert!(granted(locks.lock_table(TxnId(1), t, LockMode::Shared)));
    assert!(granted(locks.lock_table(TxnId(2), t, LockMode::Shared)));
    locks.release_all(TxnId(1));
    locks.release_all(TxnId(2));
    assert!(granted(locks.lock_table(TxnId(3), t, LockMode::Exclusive)));
}

#[test]
fn upgrade_succeeds_immediately_when_sole_holder() {
    let mut locks = LockManager::new();
    let r = rid(1);
    assert!(granted(locks.lock(TxnId(1), r, LockMode::Shared)));
    assert!(granted(locks.lock(TxnId(1), r, LockMode::Exclusive)));
}

#[test]
fn a_released_transaction_holds_nothing() {
    let mut locks = LockManager::new();
    let r = rid(1);
    assert!(granted(locks.lock(TxnId(1), r, LockMode::Exclusive)));
    locks.release_all(TxnId(1));

    assert!(
        granted(locks.lock(TxnId(2), r, LockMode::Exclusive)),
        "a resource must be immediately available once its only holder released everything"
    );

    match locks.lock(TxnId(1), rid(2), LockMode::Shared) {
        Err(TxnError::LockAfterUnlock(1)) => {}
        other => {
            panic!("a released transaction must not be able to acquire new locks, got {other:?}")
        }
    }
}

#[test]
fn an_exclusive_request_behind_a_shared_holder_must_wait_until_the_release() {
    let mut locks = LockManager::new();
    let r = rid(1);
    assert!(granted(locks.lock(TxnId(1), r, LockMode::Shared)));
    assert!(must_wait(locks.lock(TxnId(2), r, LockMode::Exclusive)));
    assert_eq!(locks.held_lock_count(TxnId(2)), 0);
    locks.release_all(TxnId(1));
    assert!(granted(locks.lock(TxnId(2), r, LockMode::Exclusive)));
    assert_eq!(locks.held_lock_count(TxnId(2)), 1);
}

#[test]
fn an_upgrade_behind_another_shared_holder_must_wait_until_it_releases() {
    let mut locks = LockManager::new();
    let r = rid(1);
    assert!(granted(locks.lock(TxnId(1), r, LockMode::Shared)));
    assert!(granted(locks.lock(TxnId(2), r, LockMode::Shared)));
    assert!(must_wait(locks.lock(TxnId(1), r, LockMode::Exclusive)));
    locks.release_all(TxnId(2));
    assert!(granted(locks.lock(TxnId(1), r, LockMode::Exclusive)));
}

#[test]
fn opposite_order_locking_makes_the_request_that_closes_the_cycle_the_victim() {
    let mut locks = LockManager::new();
    let rid_a = rid(1);
    let rid_b = rid(2);
    assert!(granted(locks.lock(TxnId(1), rid_a, LockMode::Exclusive)));
    assert!(granted(locks.lock(TxnId(2), rid_b, LockMode::Exclusive)));

    assert!(must_wait(locks.lock(TxnId(1), rid_b, LockMode::Exclusive)));
    match locks.lock(TxnId(2), rid_a, LockMode::Exclusive) {
        Err(TxnError::DeadlockVictim(2)) => {}
        other => panic!("the second request closes a cycle of waits, got {other:?}"),
    }

    locks.release_all(TxnId(2));
    assert!(granted(locks.lock(TxnId(1), rid_b, LockMode::Exclusive)));
}

#[test]
fn held_lock_count_counts_each_resource_once() {
    let mut locks = LockManager::new();
    assert!(granted(locks.lock(TxnId(1), rid(1), LockMode::Shared)));
    assert!(granted(locks.lock(TxnId(1), rid(1), LockMode::Exclusive)));
    assert!(granted(locks.lock(TxnId(1), rid(2), LockMode::Shared)));
    assert!(granted(locks.lock_table(TxnId(1), TableId(9), LockMode::Shared)));
    assert_eq!(locks.held_lock_count(TxnId(1)), 3);
    locks.release_all(TxnId(1));
    assert_eq!(locks.held_lock_count(TxnId(1)), 0);
}

#[test]
fn shared_and_exclusive_conflict_rules() {
    assert!(!LockMode::Shared.conflicts_with(LockMode::Shared));
    assert!(LockMode::Shared.conflicts_with(LockMode::Exclusive));
    assert!(LockMode::Exclusive.conflicts_with(LockMode::Shared));
    assert!(LockMode::Exclusive.conflicts_with(LockMode::Exclusive));
}
