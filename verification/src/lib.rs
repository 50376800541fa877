//! iobeam: the verified core of an io_uring HTTP file server.

pub mod text;
pub mod range;
pub mod header_buffer;
pub mod codec;
pub mod http;
pub mod path_buffer;
pub mod file_system;
pub mod buffer_pool;
pub mod server;
pub mod cli;
pub mod test_data;
