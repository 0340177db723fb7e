//! A Redis-protocol (RESP2) cache: wire protocol, key-value store with TTLs
//! and a byte budget, glob matching, command dispatch, and the SQL-side
//! commit queue — each stated and proved in Verus.

pub mod bytes;
pub mod decimal;
pub mod lines;
pub mod text;
pub mod reply;
pub mod command;
pub mod glob;
pub mod clock;
pub mod store;
pub mod scan;
pub mod dispatch;
pub mod client;
pub mod sql;
pub mod server;
