//! Workspace-based WireGuard management: the logic of reading provider
//! configs, generating split WiFi/Ethernet tunnels, reading `wg show`,
//! detecting the network and deciding how to elevate.

pub mod text;
pub mod workspace;
pub mod conf_map;
pub mod order;
pub mod generator;
pub mod wg;
pub mod elevation;
pub mod tray;
