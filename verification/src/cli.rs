//! The server's command-line settings.
use vstd::prelude::*;

use crate::server::WriteStrategy;

verus! {

/// How one run of the server is configured.
pub struct Cli {
    /// Directory to serve files from.
    pub dir: String,
    /// Host address to listen on.
    pub bind: String,
    /// Port to listen on.
    pub port: u16,
    /// Number of worker threads.
    pub threads: usize,
    /// io_uring submission queue entries.
    pub uring_entries: u32,
    /// Body write chunk size in bytes.
    pub body_write_chunk_size: usize,
    /// Strategy used to write the response body.
    pub write_strategy: WriteStrategy,
    /// TCP listener backlog.
    pub backlog: i32,
}

} // verus!
