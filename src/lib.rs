//! Forward MVCC scanning over an in-memory snapshot of the lock, write and
//! default column families.
pub mod key;
pub mod txn;
pub mod engine;
pub mod scanner;
