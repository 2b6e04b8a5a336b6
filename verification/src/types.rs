//! Plain values that the data plane reads and passes on.

use vstd::prelude::*;

verus! {

/// The number by which transports and routers know a peer.
#[derive(Clone, Copy, Debug, PartialEq, Eq, Hash, Structural)]
pub struct PeerId(pub u32);

/// The number by which the tunnel knows a peer.
#[derive(Clone, Copy, Debug, PartialEq, Eq, Hash, Structural)]
pub struct TunnelPeerId(pub u64);

/// A transport that carries encrypted packets between nodes.
#[derive(Clone, Copy, Debug, PartialEq, Eq, Hash, Structural)]
pub struct UnderlayTransportId(pub u64);

/// A transport that carries packets to and from the local device.
#[derive(Clone, Copy, Debug, PartialEq, Eq, Hash, Structural)]
pub struct OverlayTransportId(pub u64);

/// The public key of a node.
#[derive(Clone, Copy, Debug, PartialEq, Eq, Hash)]
pub struct NodePublicKey {
    /// The key as it is sent.
    pub bytes: [u8; 32],
}

/// One packet.
#[derive(Clone, Debug, PartialEq, Eq)]
pub struct Packet {
    /// The packet as it is sent.
    pub data: Vec<u8>,
}

} // verus!
