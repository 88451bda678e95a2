//! `t4`: a single-file object store.
//!
//! A store is one file: a log of 4 KiB pages, linked by their offsets, and the values, padded to
//! whole pages, in between. Every mutation is an entry of the log; an index in memory, rebuilt from
//! the log when the store is opened, says where each value lies.
//!
//! This library holds what the store decides and computes. It does no I/O: an operation hands out
//! the reads and writes that it needs and is told how they ended.

pub mod buffer;
pub mod codec;
pub mod disk;
pub mod error;
pub mod format_laws;
pub mod index;
pub mod input_kv;
pub mod io_backend;
pub mod io_laws;
pub mod io_task;
pub mod io_worker;
pub mod layout;
pub mod memory;
pub mod model;
pub mod model_laws;
pub mod runtime_laws;
pub mod store;
pub mod store_laws;
pub mod uring_runtime;
pub mod wal;
pub mod wal_page;
pub mod wal_replay;

use vstd::prelude::*;

verus! {

/// Bytes in a page of the store file.
pub const PAGE_SIZE: usize = 4096;

pub const PAGE_SIZE_U32: u32 = 4096;

pub const PAGE_SIZE_U64: u64 = 4096;

} // verus!
