//! Inference of a local network's physical topology from periodic,
//! noisy visibility observations.
//!
//! Each port of each configured device reports which hardware addresses
//! it currently sees; the library ages those claims out over time, prunes
//! visibility inherited transitively through intermediate bridges, and
//! resolves the remaining claims into an adjacency graph.

mod config;
mod expiry;
mod graph;
mod mac;
mod multimap;
mod network;
mod parsers;

pub use config::DeviceConfig;
pub use config::DeviceDataFormat;
pub use config::DevicePoller;
pub use config::DeviceType;
pub use config::NetworkConfig;
pub use config::PortConfig;
pub use config::PortDataFormat;
pub use config::PortPoller;
pub use expiry::ExpireSet;
pub use graph::Graph;
pub use graph::GraphNode;
pub use mac::is_valid_mac;
pub use mac::mac_from_bytes;
pub use mac::parse_mac;
pub use multimap::MultiMap;
pub use network::Device;
pub use network::Network;
pub use network::PollStep;
pub use network::Port;
pub use parsers::parse_device_data;
pub use parsers::parse_port_data;
pub use parsers::split_bytes;
pub use parsers::SEEN_TTL;
