//! Asserts the crate's main types can be constructed.

use storage::error::StorageError;
use storage::ids::{Lsn, PageId, TxnId};
use storage::page::Page;
use storage::replacer::LruKReplacer;
use storage::txn::isolation::IsolationLevel;
use storage::txn::lock_manager::LockManager;
use storage::txn::manager::TransactionManager;
use storage::txn::transaction::{Transaction, TransactionState};
use storage::wal::LogRecordKind;

#[test]
fn page_constructs_zeroed() {
    let page = Page::new(PageId(0));
    assert_eq!(page.id(), PageId(0));
    assert!(page.data().iter().all(|&byte| byte == 0));
}

#[test]
fn lru_k_replacer_constructs() {
    let _replacer = LruKReplacer::new(64, 2);
}

#[test]
fn log_record_constructs() {
    let record = LogRecordKind::Begin;
    assert!(matches!(record, LogRecordKind::Begin));
}

#[test]
fn storage_error_displays() {
    let err = StorageError::PageNotFound(7);
    assert_eq!(err.message(), "page 7 not found");
}

#[test]
fn transaction_constructs_growing() {
    let txn = Transaction::new(TxnId(1), IsolationLevel::SnapshotIsolation, Lsn(8), 0);
    assert_eq!(txn.state, TransactionState::Growing);
}

#[test]
fn transaction_manager_and_lock_manager_construct() {
    let manager = TransactionManager::new(None);
    assert!(manager.get(TxnId(1)).is_err());

    let _lock_manager = LockManager::new();
}
