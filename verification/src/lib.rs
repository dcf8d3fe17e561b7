//! An in-memory key-value and stream data store that speaks a binary
//! line-oriented request/response protocol, with master-to-replica
//! replication: the wire codec, the command grammar and dispatcher, the
//! keyed store with expiring entries and append-only streams, the snapshot
//! codec and the replication state machines, each with its contract.

pub mod commands;
pub mod config;
pub mod dispatch;
pub mod info;
pub mod messages;
pub mod num;
pub mod rdb;
pub mod replication;
pub mod store;
pub mod util;
