//! Layout of `pw_node_activation` (activation ABI version 1) on
//! x86_64-unknown-linux-gnu.

use vstd::prelude::*;

verus! {

/// Bytes in the record.
pub const SIZE: usize = 2312;
/// Required alignment of the record.
pub const ALIGN: usize = 8;
/// Offset of `status`.
pub const STATUS: usize = 0;
/// Offset of `state[0].status`.
pub const STATE0_STATUS: usize = 8;
/// Offset of `state[0].required`.
pub const STATE0_REQUIRED: usize = 12;
/// Offset of `state[0].pending`.
pub const STATE0_PENDING: usize = 16;
/// Offset of `signal_time`.
pub const SIGNAL_TIME: usize = 32;
/// Offset of `awake_time`.
pub const AWAKE_TIME: usize = 40;
/// Offset of `finish_time`.
pub const FINISH_TIME: usize = 48;
/// Offset of `client_version`.
pub const CLIENT_VERSION: usize = 540;
/// Offset of `server_version`.
pub const SERVER_VERSION: usize = 544;

} // verus!
