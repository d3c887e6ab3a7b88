//! One module per transport.

pub mod udp;
