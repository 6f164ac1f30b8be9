//! Verified core of a small multi-protocol port forwarder.
use vstd::prelude::*;

pub mod args;
pub mod endpoints;
pub mod pipe;
pub mod proxy_header;
pub mod session;
pub mod status;
pub mod text;
pub mod udp;
pub mod varint;

verus! {
} // verus!
