//! Reconciliation of proposer payments in builder-produced blocks.
//!
//! Given what a node reports about one block (its call traces, its
//! transactions, its withdrawals and two balances of the fee recipient), the
//! library decides by which mechanism the builder paid the proposer, and it
//! steers a resumable batch run over many slots: which slots still need work,
//! in which chunks they are processed, and which rows each chunk appends to
//! the output.
//!
//! - [`primitives`] and [`amount`]: addresses, hashes and 256-bit amounts.
//! - [`transfers`]: the value transfers found in a block's call traces.
//! - [`payment`]: the payment mechanism of a block and the data around it.
//! - [`record`]: the input and output records of a batch run.
//! - [`sorting`]: output rows in order of slot.
//! - [`pipeline`]: the state of a batch run, chunk by chunk.
//! - [`run`]: a whole run as one value, and the laws that hold of it.

pub mod amount;
pub mod payment;
pub mod pipeline;
pub mod primitives;
pub mod record;
pub mod run;
pub mod sorting;
pub mod transfers;
