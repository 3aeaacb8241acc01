//! Verified core of a unit-file service supervisor.
//!
//! Units (services, sockets, plain ordering targets) are admitted into a
//! table, their declared dependencies are resolved into a symmetric,
//! duplicate-free edge set, the `before`/`after` graph is checked to be a
//! DAG, and activation walks that DAG: a unit may start only when every
//! `after` predecessor has satisfied its gate.  Child processes are tracked
//! in a PID table that maps each kernel PID to at most one supervised
//! entity.  All decision logic is verified here; forking, signalling and
//! file I/O are performed by an unverified shell around this crate.

pub mod activate;
pub mod child_env;
pub mod commands;
pub mod deps;
pub mod describe;
pub mod iobuffer;
pub mod notify;
pub mod pid_table;
pub mod sanity;
pub mod services;
pub mod sockets;
pub mod units;
