//! Verified core of a native PipeWire client, ClientNode data plane and
//! scripted protocol peer: POD codec, native frames, ClientNode wire
//! messages, node activation and output-cycle state machines.

pub mod activation;
pub mod activation_abi;
pub mod config;
pub mod control;
pub mod cycle;
pub mod dispatch;
pub mod error;
pub mod fixture;
pub mod fields;
pub mod format;
pub mod frame;
pub mod memory;
pub mod message;
pub mod output;
pub mod owner;
pub mod peer;
pub mod pod;
pub mod port;
pub mod port_abi;
pub mod record;
pub mod recv;
pub mod runtime;
pub mod send;
pub mod server;
pub mod transport;
pub mod wav;
pub mod wire;
