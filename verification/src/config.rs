//! The static description of a network: devices, their hardware
//! addresses, their ports, and which collector to run per port or
//! device. Loading this from a configuration file is a collaborator's
//! job; the library consumes the parsed structure.

use vstd::prelude::*;

verus! {

/// The text formats a port-scoped collector can interpret.
#[derive(Clone, Copy)]
pub enum PortDataFormat {
    HostApd,
}

/// A port-scoped collector: read a named file under the root directory
/// and interpret it in the given format.
pub enum PortPoller {
    File { file: String, format: PortDataFormat },
}

/// The text formats a device-scoped collector can interpret.
#[derive(Clone, Copy)]
pub enum DeviceDataFormat {
    ForwardDb,
    SwConfig,
}

/// A device-scoped collector: read a named file under the root
/// directory and interpret it in the given format.
pub enum DevicePoller {
    File { file: String, format: DeviceDataFormat },
}

/// One configured port: an identifier, an optional display name, and
/// the port-scoped collectors to run for it.
pub struct PortConfig {
    pub id: String,
    pub name: Option<String>,
    pub pollers: Vec<PortPoller>,
}

/// The rough role of a device; informational only.
#[derive(Clone, Copy)]
pub enum DeviceType {
    Router,
    Switch,
    Modem,
    AP,
    Unknown,
}

impl Default for DeviceType {
    /// A device whose role is not configured counts as unknown.
    fn default() -> (r: DeviceType)
        ensures
            r is Unknown,
    {
        DeviceType::Unknown
    }
}

/// One configured device: an identifier, an optional display name, its
/// hardware addresses (any of which may appear in visibility reports),
/// its ports, and the device-scoped collectors to run for it.
pub struct DeviceConfig {
    pub id: String,
    pub name: Option<String>,
    pub device_type: DeviceType,
    pub mac: Vec<u64>,
    pub ports: Vec<PortConfig>,
    pub pollers: Vec<DevicePoller>,
}

/// The whole configured network.
pub struct NetworkConfig {
    pub devices: Vec<DeviceConfig>,
}

} // verus!
