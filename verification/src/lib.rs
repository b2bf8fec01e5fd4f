//! Verified core of the SPARQ transfer stack and the telemetry transports:
//! wire framing, forward-error-correction bookkeeping, packet reordering and
//! the integer scheduling decisions of the adaptive sender and receiver.
#![allow(unused_imports)]

pub mod batch;
pub mod bytes;
pub mod cli;
pub mod compression;
pub mod daemon;
pub mod datagram;
pub mod delivery;
pub mod descriptor;
pub mod digest;
pub mod erasure;
pub mod event_frame;
pub mod fec;
pub mod known_hosts;
pub mod netprobe;
pub mod packet;
pub mod pipeline;
pub mod proto;
pub mod receiver;
pub mod protocol;
pub mod reorder;
pub mod sat;
pub mod schedule;
pub mod sender;
pub mod sizes;
pub mod stash;
pub mod telemetry;
pub mod transport;
