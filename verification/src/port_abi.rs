//! Layout of the public SPA `spa_io_buffers` and `spa_chunk` records on
//! x86_64-unknown-linux-gnu.

use vstd::prelude::*;

verus! {

/// Bytes in `spa_io_buffers`.
pub const IO_BUFFERS_SIZE: usize = 8;
/// Alignment of `spa_io_buffers`.
pub const IO_BUFFERS_ALIGN: usize = 4;
/// Offset of `spa_io_buffers.status`.
pub const IO_STATUS: usize = 0;
/// Offset of `spa_io_buffers.buffer_id`.
pub const IO_BUFFER_ID: usize = 4;
/// Bytes in `spa_chunk`.
pub const CHUNK_SIZE: usize = 16;
/// Alignment of `spa_chunk`.
pub const CHUNK_ALIGN: usize = 4;
/// Offset of `spa_chunk.offset`.
pub const CHUNK_OFFSET: usize = 0;
/// Offset of `spa_chunk.size`.
pub const CHUNK_DATA_SIZE: usize = 4;
/// Offset of `spa_chunk.stride`.
pub const CHUNK_STRIDE: usize = 8;
/// Offset of `spa_chunk.flags`.
pub const CHUNK_FLAGS: usize = 12;

} // verus!
