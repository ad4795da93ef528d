//! A segmented, append-only commit log.
//!
//! Variable-length binary records are persisted under monotonically
//! increasing logical offsets.  Storage is split into bounded-size
//! segments, each backed by a store (a raw length-prefixed byte log)
//! and an index (a fixed-width table mapping segment-relative record
//! numbers to store positions).  The log routes appends to the active
//! segment, rotates segments when they reach their configured size
//! limits, routes reads by offset range, and supports prefix
//! truncation.
//!
//! This crate holds the storage logic over in-memory images of the
//! backing files; durable persistence (files, memory maps) and the
//! network front end live outside it and exchange plain byte vectors
//! with it.

pub mod buf;
pub mod config;
pub mod endian;
pub mod error;
pub mod index;
pub mod log;
pub mod mem_log;
pub mod record;
pub mod segment;
pub mod store;
