//! Transactions: isolation levels, locks, MVCC visibility and the
//! transaction manager.

pub mod checkpoint;
pub mod isolation;
pub mod lock_manager;
pub mod manager;
pub mod mvcc;
pub mod transaction;
pub mod version_store;
