//! Transaction-order guarantor: the in-enclave mempool, its deterministic
//! tip-priority ordering, the framed wire protocol and the request dispatch.

pub mod chain;
pub mod hexcodec;
pub mod order;
pub mod mempool;
pub mod proto;
pub mod enclave;
pub mod client;
pub mod rpc;
pub mod schedule;
