//! Startup configuration of a DNS-forwarding proxy: upstream descriptors,
//! the raw configuration as read from the configuration file, and the
//! resolver that cross-checks it into the routing table the proxy runs on.

pub mod config;
pub mod table;
pub mod upstream;
