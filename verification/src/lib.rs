//! A small remote file-browsing service: a line-based protocol over which a
//! client asks for one-level directory listings or for fixed-size chunks of a
//! file, backed by a cache of open file handles that holds at most one entry
//! per canonical path.
//!
//! This crate is the verified core: the wire codec, the request dispatcher,
//! the cache's directory structure, the chunk arithmetic and the directory
//! classification. The surrounding process (sockets, file descriptors,
//! logging) lives outside and hands plain values in and out.

pub mod chunk;
pub mod codec;
pub mod command;
pub mod file_manager;
pub mod folder_info;
pub mod protocol;
pub mod wire;

use vstd::prelude::*;

verus! {

/// Size in bytes of one download chunk ("part"). Fixed for the whole process;
/// a part index `k` addresses bytes `[k * BLOB_SIZE, (k + 1) * BLOB_SIZE)`.
pub const BLOB_SIZE: usize = 10_000_000;

} // verus!
