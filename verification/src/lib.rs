//! A replicated task store: one replica of a task database that is changed
//! offline, one recorded operation at a time.
//!
//! - [`operation`]: the operations of the log, and what each does to the
//!   tasks when it is applied and when it is taken back.
//! - [`taskmap`], [`taskdata`], [`task`]: the property bag of a task, the
//!   task in its raw form, and the task with typed getters and setters.
//! - [`table`], [`storage`]: the rows of the store and the storage with its
//!   transactions.
//! - [`working_set`], [`depmap`]: the small indices of the pending tasks,
//!   and which task waits for which.
//! - [`replica`]: the replica, which commits batches of operations, takes
//!   them back, and keeps the indices.
//! - [`codec`], [`decimal`]: the written form of a storage.
//! - [`laws`]: what holds of every log.
//! - [`ident`], [`clock`], [`text`], [`assoc`], [`errors`]: identifiers,
//!   time, strings, lists of pairs, and the ways to fail.

pub mod assoc;
pub mod clock;
pub mod codec;
pub mod decimal;
pub mod depmap;
pub mod errors;
pub mod ident;
pub mod laws;
pub mod operation;
pub mod replica;
pub mod storage;
pub mod table;
pub mod task;
pub mod taskdata;
pub mod taskmap;
pub mod text;
pub mod working_set;
