//! The decisions of a mesh VPN data plane: which peer a key belongs to, which packets pass the
//! inbound filters, what is handed to the tunnel and to the routers, and when the next timer fires.

pub mod dataplane;
pub mod deliveries;
pub mod filter;
pub mod groups;
pub mod packet;
pub mod passes;
pub mod peer_map;
pub mod places;
pub mod store;
pub mod transport;
pub mod types;
