//! A transaction's bookkeeping record.

use vstd::prelude::*;

use crate::ids::{Lsn, TxnId};
use crate::txn::isolation::IsolationLevel;

verus! {

/// Where a transaction is in its life.
#[derive(Debug, Clone, Copy, PartialEq, Eq, Structural)]
pub enum TransactionState {
    /// Running: it may take locks and write.
    Growing,
    /// Its abort has begun.
    Aborted,
}

/// A live transaction: its id, isolation level, state, the position of
/// its `Begin` record in the log, and the timestamp its reads see.
#[derive(Debug, Clone, Copy)]
pub struct Transaction {
    pub txn_id: TxnId,
    pub isolation_level: IsolationLevel,
    pub state: TransactionState,
    pub begin_lsn: Lsn,
    pub read_ts: u64,
}

impl Transaction {
    /// A transaction that has just begun.
    pub fn new(txn_id: TxnId, isolation_level: IsolationLevel, begin_lsn: Lsn, read_ts: u64) -> (t:
        Transaction)
        ensures
            t == (Transaction {
                txn_id,
                isolation_level,
                state: TransactionState::Growing,
                begin_lsn,
                read_ts,
            }),
    {
        Transaction { txn_id, isolation_level, state: TransactionState::Growing, begin_lsn, read_ts }
    }
}

} // verus!
