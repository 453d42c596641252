//! The peer protocol: message layout, per-peer connection state and the
//! parts of the datagram transport that are pure computation.

pub mod udp;
pub mod udp_msg;
pub mod udp_proto;
