//! Port broker for short-lived bandwidth-test worker processes.
//!
//! The broker hands out ports from a configured dynamic range, one per
//! worker instance, enforces a per-client admission cap, and reclaims
//! ports from workers that have exited or outlived their maximum age.
//! This crate holds the verified core: the allocation table with its
//! free-port search, the sweep that releases finished and overdue
//! instances, and the line-based request/response protocol codec.
//! Process control and network I/O stay outside the crate; callers hand
//! in the facts the core needs (the current time, which processes have
//! exited) as plain values.

pub mod decimal;
pub mod protocol;
pub mod table;
