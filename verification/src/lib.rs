//! Verified core of a transparent-proxy to SOCKS5 forwarder.

pub mod activity_stream;
pub mod bytes;
pub mod cache;
pub mod cli;
pub mod geosite;
pub mod net;
pub mod routes;
pub mod sniff;
pub mod socket_factory;
pub mod socks5;
pub mod startup;
pub mod sorting;
pub mod state;
pub mod tcp;
pub mod text;
pub mod time;
pub mod trie;
pub mod udp;
pub mod upstream;
pub mod util;
pub mod ways;
