//! The data plane: what is asked of the tunnel, the routers, the filters and the timers, in which
//! order, and what becomes of the answers.
//!
//! A pass over packets or timers begins with [`DataPlane::process_outbound`],
//! [`DataPlane::process_inbound`] or [`DataPlane::process_events`]. Each of them returns a
//! [`Request`]; whoever drives the data plane carries it out and hands the answer to
//! [`DataPlane::resume`], until the request is [`Request::Finish`].

use std::collections::{HashMap, VecDeque};
use std::time::Instant;

use vstd::prelude::*;

use crate::filter::{
    check_owners, filter_sources, inspect_all, let_in, owners_fit, paired, readable, retain_judged,
    told, truly_sourced, SourceOwner,
};
use crate::groups::{
    address_groups, addressed, enrolled_all, gather, key_groups, keyed, latest, name_groups, named,
    named_once, naming_failed, split_groups,
};
use crate::packet::PacketInfo;
use crate::peer_map::{PeerDb, PeerDbError, PeerInfo, PeerTables};
use crate::types::{
    NodePublicKey, OverlayTransportId, Packet, PeerId, TunnelPeerId, UnderlayTransportId,
};

verus! {

/// A point in time of `std`.
#[verifier::external_type_specification]
#[verifier::external_body]
pub struct ExInstant(std::time::Instant);

/// A data plane subsystem that can be the subject of timer events.
#[derive(Clone, Copy, Debug, PartialEq, Eq)]
pub enum Subsystem {
    /// The wireguard component.
    Wireguard,
}

/// What the tunnel has to know of a peer.
#[derive(Clone, Copy, Debug, PartialEq, Eq)]
pub struct PeerConfig {
    /// The peer's node key.
    pub key: NodePublicKey,
    /// The secret shared with the peer beforehand; all zero where there is none.
    pub psk: [u8; 32],
}

/// Packets for overlay transports.
pub type OverlayPackets = HashMap<OverlayTransportId, Vec<Packet>>;

/// Packets for peers, by the underlay transport that takes them there.
pub type UnderlayPackets = HashMap<(UnderlayTransportId, PeerId), Vec<Packet>>;

/// The result of processing outbound packets.
pub struct OutboundResult {
    /// Packets to be sent into underlay transports for transmission.
    pub to_peers: UnderlayPackets,
    /// Packets to be looped back and delivered to overlay transports.
    pub loopback: OverlayPackets,
}

/// The result of processing inbound packets.
pub struct InboundResult {
    /// Decrypted packets to be delivered to overlay transports.
    pub to_local: OverlayPackets,
    /// Encrypted packets to be sent to wireguard peers by the underlay.
    pub to_peers: UnderlayPackets,
}

/// The result of processing an event.
#[derive(Default)]
pub struct EventResult {
    /// Encrypted packets to be sent to wireguard peers by the underlay.
    pub to_peers: UnderlayPackets,
}

/// What a pass comes to.
pub enum Outcome {
    /// Of a pass over outbound packets.
    Outbound(OutboundResult),
    /// Of a pass over inbound packets.
    Inbound(InboundResult),
    /// Of a pass over timers.
    Events(EventResult),
}

/// What is to be done next. `H` is what the scheduler gives out to cancel an event by.
pub enum Request<H> {
    /// Route packets from the local device in the overlay.
    RouteOutbound(Vec<Packet>),
    /// Add a peer to the tunnel.
    AddPeer(PeerConfig),
    /// Find the tunnel's id for a peer that it has already.
    FindPeer(NodePublicKey),
    /// Encrypt packets, each group for its peer.
    Send(Vec<(TunnelPeerId, Vec<Packet>)>),
    /// Look up the keys of tunnel peers, one answer for each.
    PeerKeys(Vec<TunnelPeerId>),
    /// Route packets to peers in the underlay.
    RouteUnderlay(Vec<(PeerId, Vec<Packet>)>),
    /// Decrypt packets from the underlay.
    Receive(Vec<Packet>),
    /// Look up who owns the source address of each packet in [`DataPlane::unfiltered`].
    LookUpSources,
    /// Ask the packet filter, without any node capability, about each of these packets.
    Judge(Vec<PacketInfo>),
    /// Route packets to the local device in the overlay.
    RouteInbound(Vec<Packet>),
    /// Collect the events that are due at this time.
    DispatchTimers(Instant),
    /// Let the tunnel do what is due at this time.
    DispatchWireguard(Instant),
    /// Ask the tunnel when it has to be called next.
    NextEvent,
    /// Schedule an event.
    Schedule(Instant, Subsystem),
    /// The pass is over; an event that was scheduled before is to be cancelled.
    Finish {
        /// What the pass came to.
        outcome: Outcome,
        /// The event to cancel.
        cancel: Option<H>,
    },
}

/// The answer to a [`Request`].
pub enum Reply<H> {
    /// To [`Request::RouteOutbound`].
    OutboundRouted {
        /// What goes to peers.
        to_wireguard: Vec<(PeerId, Vec<Packet>)>,
        /// What comes back to the local device.
        loopback: OverlayPackets,
    },
    /// To [`Request::AddPeer`]: the new id, or nothing where the tunnel has the peer already.
    PeerAdded(Option<TunnelPeerId>),
    /// To [`Request::FindPeer`].
    PeerFound(Option<TunnelPeerId>),
    /// To [`Request::Send`]: the encrypted packets.
    Sent(Vec<(TunnelPeerId, Vec<Packet>)>),
    /// To [`Request::PeerKeys`].
    PeerKeys(Vec<Option<NodePublicKey>>),
    /// To [`Request::RouteUnderlay`].
    UnderlayRouted(UnderlayPackets),
    /// To [`Request::Receive`].
    Received {
        /// The decrypted packets.
        to_local: Vec<(TunnelPeerId, Vec<Packet>)>,
        /// What the tunnel answers.
        to_peers: Vec<(TunnelPeerId, Vec<Packet>)>,
    },
    /// To [`Request::LookUpSources`].
    SourcesLookedUp(Vec<Vec<SourceOwner>>),
    /// To [`Request::Judge`].
    Judged(Vec<bool>),
    /// To [`Request::RouteInbound`].
    InboundRouted(OverlayPackets),
    /// To [`Request::DispatchTimers`].
    TimersDispatched(Vec<Subsystem>),
    /// To [`Request::DispatchWireguard`]: what the tunnel sends.
    WireguardDispatched(Vec<(TunnelPeerId, Vec<Packet>)>),
    /// To [`Request::NextEvent`].
    NextEvent(Option<Instant>),
    /// To [`Request::Schedule`].
    Scheduled(H),
}

/// Why a pass stopped.
#[derive(Debug)]
pub enum Fault {
    /// The reply does not answer the request. The pass waits for the right one.
    Unexpected,
    /// The reply has not one answer for each item asked about. The pass is given up.
    WrongCount,
    /// The tunnel neither adds this peer nor has it. The pass is given up.
    NoTunnelPeer(NodePublicKey),
    /// The peer database failed. The pass is given up.
    Peers(PeerDbError),
}

/// Where a pass stands: which reply it waits for, and what it holds meanwhile.
pub enum Stage {
    /// There is no pass.
    Idle,
    /// Outbound packets are being routed.
    OutRouting,
    /// A peer is being added to the tunnel.
    OutAdding {
        /// What comes back to the local device.
        loopback: OverlayPackets,
        /// The groups whose tunnel peer is known.
        ready: Vec<(TunnelPeerId, Vec<Packet>)>,
        /// The peer that is being added.
        key: NodePublicKey,
        /// Its packets.
        packets: Vec<Packet>,
        /// The groups that follow.
        waiting: VecDeque<(NodePublicKey, Vec<Packet>)>,
    },
    /// A peer is being looked for in the tunnel.
    OutFinding {
        /// What comes back to the local device.
        loopback: OverlayPackets,
        /// The groups whose tunnel peer is known.
        ready: Vec<(TunnelPeerId, Vec<Packet>)>,
        /// The peer that is being looked for.
        key: NodePublicKey,
        /// Its packets.
        packets: Vec<Packet>,
        /// The groups that follow.
        waiting: VecDeque<(NodePublicKey, Vec<Packet>)>,
    },
    /// Outbound packets are being encrypted.
    OutSending {
        /// What comes back to the local device.
        loopback: OverlayPackets,
    },
    /// The keys that encrypted packets go to are being looked up.
    OutNaming {
        /// What comes back to the local device.
        loopback: OverlayPackets,
        /// The encrypted packets.
        sent: Vec<Vec<Packet>>,
    },
    /// Encrypted packets are being routed.
    OutDelivering {
        /// What comes back to the local device.
        loopback: OverlayPackets,
    },
    /// Inbound packets are being decrypted.
    InReceiving,
    /// The keys that decrypted packets come from are being looked up.
    InNaming {
        /// The decrypted packets.
        to_local: Vec<Vec<Packet>>,
        /// What the tunnel answers.
        to_peers: Vec<(TunnelPeerId, Vec<Packet>)>,
    },
    /// The owners of source addresses are being looked up.
    InFiltering {
        /// The decrypted packets.
        groups: Vec<(PeerInfo, Vec<Packet>)>,
        /// What the tunnel answers.
        to_peers: Vec<(TunnelPeerId, Vec<Packet>)>,
    },
    /// The packet filter is being asked.
    InJudging {
        /// The packets that it is asked about.
        packets: Vec<Packet>,
        /// What the tunnel answers.
        to_peers: Vec<(TunnelPeerId, Vec<Packet>)>,
    },
    /// Decrypted packets are being routed.
    InRouting {
        /// What the tunnel answers.
        to_peers: Vec<(TunnelPeerId, Vec<Packet>)>,
    },
    /// The keys that answers go to are being looked up.
    InReplying {
        /// What the local device gets.
        to_local: OverlayPackets,
        /// What the tunnel answers.
        to_peers: Vec<Vec<Packet>>,
    },
    /// Answers are being routed.
    InDelivering {
        /// What the local device gets.
        to_local: OverlayPackets,
    },
    /// The events that are due are being collected.
    EvDispatching {
        /// The time of the pass.
        now: Instant,
    },
    /// The tunnel does what is due.
    EvRunning {
        /// The time of the pass.
        now: Instant,
        /// The events that are due.
        due: Vec<Subsystem>,
        /// How many of them have begun.
        begun: usize,
        /// What goes to peers so far.
        gathered: Vec<(PeerId, Vec<Packet>)>,
    },
    /// The keys that the tunnel's packets go to are being looked up.
    EvNaming {
        /// The time of the pass.
        now: Instant,
        /// The events that are due.
        due: Vec<Subsystem>,
        /// How many of them have begun.
        begun: usize,
        /// What goes to peers so far.
        gathered: Vec<(PeerId, Vec<Packet>)>,
        /// What the tunnel sends.
        sent: Vec<Vec<Packet>>,
    },
    /// The tunnel's packets are being routed.
    EvDelivering,
    /// The tunnel is being asked when it has to be called next.
    Arming {
        /// What the pass comes to.
        outcome: Outcome,
    },
    /// That call is being scheduled.
    Scheduling {
        /// What the pass comes to.
        outcome: Outcome,
    },
}

/// Transforms packets to make a mesh of nodes.
pub struct DataPlane<H> {
    /// Where the pass stands.
    pub stage: Stage,
    /// Next event for the wireguard subsystem.
    pub wg_next: Option<H>,
}

impl Stage {
    /// Whether the stage counts right: no more events have begun than are due, and each peer is
    /// named once in what goes to peers so far.
    pub open spec fn wf(self) -> bool {
        match self {
            Stage::EvRunning { due, begun, gathered, .. } => begun <= due@.len() && named_once(
                gathered@,
            ),
            Stage::EvNaming { due, begun, gathered, .. } => begun <= due@.len() && named_once(
                gathered@,
            ),
            _ => true,
        }
    }

    /// How many replies the pass waits for, at most; this is not known before it is known how many
    /// groups or events there are.
    pub open spec fn steps_left(self) -> Option<int> {
        match self {
            Stage::Idle => Some(0),
            Stage::OutRouting => None,
            Stage::OutAdding { waiting, .. } => Some(2 * (waiting@.len() as int) + 7),
            Stage::OutFinding { waiting, .. } => Some(2 * (waiting@.len() as int) + 6),
            Stage::OutSending { .. } => Some(5),
            Stage::OutNaming { .. } => Some(4),
            Stage::OutDelivering { .. } => Some(3),
            Stage::InReceiving => Some(9),
            Stage::InNaming { .. } => Some(8),
            Stage::InFiltering { .. } => Some(7),
            Stage::InJudging { .. } => Some(6),
            Stage::InRouting { .. } => Some(5),
            Stage::InReplying { .. } => Some(4),
            Stage::InDelivering { .. } => Some(3),
            Stage::EvDispatching { .. } => None,
            Stage::EvRunning { due, begun, .. } => Some(2 * (due@.len() - begun) + 5),
            Stage::EvNaming { due, begun, .. } => Some(2 * (due@.len() - begun) + 4),
            Stage::EvDelivering => Some(3),
            Stage::Arming { .. } => Some(2),
            Stage::Scheduling { .. } => Some(1),
        }
    }
}

/// Whether a pass has less to do in `after` than in `before`.
pub open spec fn closer(after: Stage, before: Stage) -> bool {
    match (before.steps_left(), after.steps_left()) {
        (Some(n), Some(m)) => 0 <= m < n,
        (None, Some(m)) => 0 <= m,
        _ => false,
    }
}

/// Whether `reply` answers what a pass in `stage` asked for.
pub open spec fn answers<H>(stage: Stage, reply: Reply<H>) -> bool {
    match (stage, reply) {
        (Stage::OutRouting, Reply::OutboundRouted { .. }) => true,
        (Stage::OutAdding { .. }, Reply::PeerAdded(_)) => true,
        (Stage::OutFinding { .. }, Reply::PeerFound(_)) => true,
        (Stage::OutSending { .. }, Reply::Sent(_)) => true,
        (Stage::OutNaming { .. }, Reply::PeerKeys(_)) => true,
        (Stage::OutDelivering { .. }, Reply::UnderlayRouted(_)) => true,
        (Stage::InReceiving, Reply::Received { .. }) => true,
        (Stage::InNaming { .. }, Reply::PeerKeys(_)) => true,
        (Stage::InFiltering { .. }, Reply::SourcesLookedUp(_)) => true,
        (Stage::InJudging { .. }, Reply::Judged(_)) => true,
        (Stage::InRouting { .. }, Reply::InboundRouted(_)) => true,
        (Stage::InReplying { .. }, Reply::PeerKeys(_)) => true,
        (Stage::InDelivering { .. }, Reply::UnderlayRouted(_)) => true,
        (Stage::EvDispatching { .. }, Reply::TimersDispatched(_)) => true,
        (Stage::EvRunning { .. }, Reply::WireguardDispatched(_)) => true,
        (Stage::EvNaming { .. }, Reply::PeerKeys(_)) => true,
        (Stage::EvDelivering, Reply::UnderlayRouted(_)) => true,
        (Stage::Arming { .. }, Reply::NextEvent(_)) => true,
        (Stage::Scheduling { .. }, Reply::Scheduled(_)) => true,
        _ => false,
    }
}

/// The packets that wait for the keys of their peers.
pub open spec fn unnamed(stage: Stage) -> Option<Seq<Vec<Packet>>> {
    match stage {
        Stage::OutNaming { sent, .. } => Some(sent@),
        Stage::InNaming { to_local, .. } => Some(to_local@),
        Stage::InReplying { to_peers, .. } => Some(to_peers@),
        Stage::EvNaming { sent, .. } => Some(sent@),
        _ => None,
    }
}

/// Whether `reply` has not one answer for each item asked about.
pub open spec fn miscounts<H>(stage: Stage, reply: Reply<H>) -> bool {
    match reply {
        Reply::PeerKeys(keys) => unnamed(stage) matches Some(groups) && keys@.len()
            != groups.len(),
        Reply::SourcesLookedUp(owners) => stage matches Stage::InFiltering { groups, .. }
            && !owners_fit(groups@, owners@),
        Reply::Judged(verdicts) => stage matches Stage::InJudging { packets, .. } && verdicts@.len()
            != packets@.len(),
        _ => false,
    }
}

/// Whether `reply` says that the tunnel neither adds a peer nor has it.
pub open spec fn loses_peer<H>(stage: Stage, reply: Reply<H>) -> bool {
    match (stage, reply) {
        (Stage::OutFinding { .. }, Reply::PeerFound(None)) => true,
        _ => false,
    }
}

/// What follows where the groups `ready` have their tunnel peers and the groups `waiting` have
/// not: the first of these is added, without a shared secret, or else all are sent.
pub open spec fn adds_next<H>(
    loopback: OverlayPackets,
    ready: Seq<(TunnelPeerId, Vec<Packet>)>,
    waiting: Seq<(NodePublicKey, Vec<Packet>)>,
    stage: Stage,
    request: Request<H>,
) -> bool {
    if waiting.len() == 0 {
        &&& stage == Stage::OutSending { loopback }
        &&& request matches Request::Send(batch) && batch@ == ready
    } else {
        &&& request matches Request::AddPeer(config) && config.key == waiting[0].0
            && config.psk@ == Seq::new(32, |i: int| 0u8)
        &&& stage matches Stage::OutAdding {
            loopback: kept,
            ready: done,
            key,
            packets,
            waiting: rest,
        } && kept == loopback && done@ == ready && key == waiting[0].0 && packets == waiting[0].1
            && rest@ == waiting.skip(1)
    }
}

/// What follows once `begun` of the events `due` have been dealt with: the next one begins, or
/// else what was gathered is routed.
pub open spec fn begins_next<H>(
    now: Instant,
    due: Seq<Subsystem>,
    begun: int,
    stage: Stage,
    request: Request<H>,
    gathered: Map<PeerId, Vec<Packet>>,
) -> bool {
    if begun < due.len() {
        &&& request == Request::<H>::DispatchWireguard(now)
        &&& stage matches Stage::EvRunning { now: at, due: all, begun: count, gathered: so_far }
            && at == now && all@ == due && count == begun + 1 && named_once(so_far@) && latest(
            so_far@,
        ) == gathered
    } else {
        &&& stage == Stage::EvDelivering
        &&& request matches Request::RouteUnderlay(batch) && named_once(batch@) && latest(batch@)
            == gathered
    }
}

/// What follows once a pass has come to `outcome`: the tunnel is asked when it has to be called.
pub open spec fn arms<H>(outcome: Outcome, stage: Stage, request: Request<H>) -> bool {
    &&& stage == Stage::Arming { outcome }
    &&& request == Request::<H>::NextEvent
}

/// Whether the data plane comes from `before` to `after` by `reply`, asks for `request` then, and
/// takes the peers from `tables` to `tables_after`.
pub open spec fn moves<H>(
    before: DataPlane<H>,
    tables: PeerTables,
    reply: Reply<H>,
    after: DataPlane<H>,
    tables_after: PeerTables,
    request: Request<H>,
) -> bool {
    &&& tables_after == match (unnamed(before.stage), reply) {
        (Some(_), Reply::PeerKeys(keys)) => enrolled_all(tables, keys@),
        _ => tables,
    }
    &&& after.wg_next == match reply {
        Reply::Scheduled(handle) => Some(handle),
        _ => before.wg_next,
    }
    &&& match (before.stage, reply) {
        (Stage::OutRouting, Reply::OutboundRouted { to_wireguard, loopback }) => adds_next(
            loopback,
            Seq::empty(),
            to_wireguard@.filter_map(keyed(tables)),
            after.stage,
            request,
        ),
        (
            Stage::OutAdding { loopback, ready, key, packets, waiting },
            Reply::PeerAdded(Some(id)),
        ) => adds_next(loopback, ready@.push((id, packets)), waiting@, after.stage, request),
        (Stage::OutAdding { loopback, ready, key, packets, waiting }, Reply::PeerAdded(None)) => {
            &&& after.stage == Stage::OutFinding { loopback, ready, key, packets, waiting }
            &&& request == Request::<H>::FindPeer(key)
        },
        (Stage::OutFinding { loopback, ready, key, packets, waiting }, Reply::PeerFound(Some(id))) =>
            adds_next(loopback, ready@.push((id, packets)), waiting@, after.stage, request),
        (Stage::OutSending { loopback }, Reply::Sent(encrypted)) => {
            &&& after.stage matches Stage::OutNaming { loopback: kept, sent } && kept == loopback
                && asks_for_keys(encrypted@, request, sent@)
        },
        (Stage::OutNaming { loopback, sent }, Reply::PeerKeys(keys)) => {
            &&& after.stage == Stage::OutDelivering { loopback }
            &&& request matches Request::RouteUnderlay(batch) && batch@ == addressed(
                named(tables, keys@, sent@),
            )
        },
        (Stage::OutDelivering { loopback }, Reply::UnderlayRouted(to_peers)) => arms(
            Outcome::Outbound(OutboundResult { to_peers, loopback }),
            after.stage,
            request,
        ),
        (Stage::InReceiving, Reply::Received { to_local, to_peers }) => {
            &&& after.stage matches Stage::InNaming { to_local: groups, to_peers: kept } && kept
                == to_peers && asks_for_keys(to_local@, request, groups@)
        },
        (Stage::InNaming { to_local, to_peers }, Reply::PeerKeys(keys)) => {
            &&& after.stage matches Stage::InFiltering { groups, to_peers: kept } && kept
                == to_peers && groups@ == named(tables, keys@, to_local@)
            &&& request == Request::<H>::LookUpSources
        },
        (Stage::InFiltering { groups, to_peers }, Reply::SourcesLookedUp(owners)) => {
            let sourced = truly_sourced(groups@, owners@);
            &&& after.stage matches Stage::InJudging { packets, to_peers: kept } && kept == to_peers
                && packets@ == sourced.filter_map(readable())
            &&& request matches Request::Judge(infos) && infos@ == sourced.filter_map(told())
        },
        (Stage::InJudging { packets, to_peers }, Reply::Judged(verdicts)) => {
            &&& after.stage == Stage::InRouting { to_peers }
            &&& request matches Request::RouteInbound(batch) && batch@ == paired(
                packets@,
                verdicts@,
            ).filter_map(let_in())
        },
        (Stage::InRouting { to_peers }, Reply::InboundRouted(to_local)) => {
            &&& after.stage matches Stage::InReplying { to_local: kept, to_peers: groups } && kept
                == to_local && asks_for_keys(to_peers@, request, groups@)
        },
        (Stage::InReplying { to_local, to_peers }, Reply::PeerKeys(keys)) => {
            &&& after.stage == Stage::InDelivering { to_local }
            &&& request matches Request::RouteUnderlay(batch) && batch@ == addressed(
                named(tables, keys@, to_peers@),
            )
        },
        (Stage::InDelivering { to_local }, Reply::UnderlayRouted(to_peers)) => arms(
            Outcome::Inbound(InboundResult { to_local, to_peers }),
            after.stage,
            request,
        ),
        (Stage::EvDispatching { now }, Reply::TimersDispatched(due)) => begins_next(
            now,
            due@,
            0,
            after.stage,
            request,
            Map::empty(),
        ),
        (Stage::EvRunning { now, due, begun, gathered }, Reply::WireguardDispatched(groups)) => {
            &&& after.stage matches Stage::EvNaming {
                now: at,
                due: all,
                begun: count,
                gathered: so_far,
                sent,
            } && at == now && all == due && count == begun && so_far == gathered && asks_for_keys(
                groups@,
                request,
                sent@,
            )
        },
        (Stage::EvNaming { now, due, begun, gathered, sent }, Reply::PeerKeys(keys)) => begins_next(
            now,
            due@,
            begun as int,
            after.stage,
            request,
            latest(gathered@ + addressed(named(tables, keys@, sent@))),
        ),
        (Stage::EvDelivering, Reply::UnderlayRouted(to_peers)) => arms(
            Outcome::Events(EventResult { to_peers }),
            after.stage,
            request,
        ),
        (Stage::Arming { outcome }, Reply::NextEvent(None)) => {
            &&& after.stage == Stage::Idle
            &&& request == (Request::<H>::Finish { outcome, cancel: None })
        },
        (Stage::Arming { outcome }, Reply::NextEvent(Some(next))) => {
            &&& after.stage == Stage::Scheduling { outcome }
            &&& request == Request::<H>::Schedule(next, Subsystem::Wireguard)
        },
        (Stage::Scheduling { outcome }, Reply::Scheduled(_)) => {
            &&& after.stage == Stage::Idle
            &&& request == (Request::Finish { outcome, cancel: before.wg_next })
        },
        _ => false,
    }
}

/// Whether `request` asks for the key of each tunnel peer in `groups`, and `packets` is what is
/// held for them meanwhile.
pub open spec fn asks_for_keys<H>(
    groups: Seq<(TunnelPeerId, Vec<Packet>)>,
    request: Request<H>,
    packets: Seq<Vec<Packet>>,
) -> bool {
    &&& request matches Request::PeerKeys(ids) && ids@ == groups.map_values(
        |group: (TunnelPeerId, Vec<Packet>)| group.0,
    )
    &&& packets == groups.map_values(|group: (TunnelPeerId, Vec<Packet>)| group.1)
}

/// Where the pass goes from a list of groups without tunnel peers.
fn add_next<H>(
    loopback: OverlayPackets,
    ready: Vec<(TunnelPeerId, Vec<Packet>)>,
    mut waiting: VecDeque<(NodePublicKey, Vec<Packet>)>,
) -> (next: (Stage, Request<H>))
    ensures
        adds_next(loopback, ready@, waiting@, next.0, next.1),
        next.0 matches Stage::OutAdding { waiting: rest, .. } ==> rest@.len() < waiting@.len(),
{
    match waiting.pop_front() {
        None => (Stage::OutSending { loopback }, Request::Send(ready)),
        Some((key, packets)) => {
            let config = PeerConfig { key, psk: [0u8; 32] };
            assert(config.psk@ =~= Seq::new(32, |i: int| 0u8));
            (
                Stage::OutAdding { loopback, ready, key, packets, waiting },
                Request::AddPeer(config),
            )
        },
    }
}

/// Where the pass goes from a list of events, of which `begun` have been dealt with.
fn begin_next<H>(
    now: Instant,
    due: Vec<Subsystem>,
    begun: usize,
    gathered: Vec<(PeerId, Vec<Packet>)>,
) -> (next: (Stage, Request<H>))
    requires
        named_once(gathered@),
    ensures
        begins_next(now, due@, begun as int, next.0, next.1, latest(gathered@)),
        next.0.wf(),
{
    if begun < due.len() {
        match due[begun] {
            Subsystem::Wireguard => (
                Stage::EvRunning { now, due, begun: begun + 1, gathered },
                Request::DispatchWireguard(now),
            ),
        }
    } else {
        (Stage::EvDelivering, Request::RouteUnderlay(gathered))
    }
}

impl<H> DataPlane<H> {
    /// Whether the data plane is sound.
    pub open spec fn wf(self) -> bool {
        self.stage.wf()
    }

    /// Creates a new data plane, without a pass and with no event scheduled.
    pub fn new() -> (plane: Self)
        ensures
            plane.wf(),
            plane.stage == Stage::Idle,
            plane.wg_next is None,
    {
        DataPlane { stage: Stage::Idle, wg_next: None }
    }

    /// Begins a pass over packets originating from the local device.
    pub fn process_outbound(&mut self, packets: Vec<Packet>) -> (request: Request<H>)
        requires
            old(self).stage == Stage::Idle,
        ensures
            final(self).wf(),
            final(self).stage == Stage::OutRouting,
            final(self).wg_next == old(self).wg_next,
            request == Request::<H>::RouteOutbound(packets),
    {
        self.stage = Stage::OutRouting;
        Request::RouteOutbound(packets)
    }

    /// Begins a pass over packets received from elsewhere.
    pub fn process_inbound(&mut self, packets: Vec<Packet>) -> (request: Request<H>)
        requires
            old(self).stage == Stage::Idle,
        ensures
            final(self).wf(),
            final(self).stage == Stage::InReceiving,
            final(self).wg_next == old(self).wg_next,
            request == Request::<H>::Receive(packets),
    {
        self.stage = Stage::InReceiving;
        Request::Receive(packets)
    }

    /// Begins a pass over all events that are due at `now`.
    pub fn process_events(&mut self, now: Instant) -> (request: Request<H>)
        requires
            old(self).stage == Stage::Idle,
        ensures
            final(self).wf(),
            final(self).stage == (Stage::EvDispatching { now }),
            final(self).wg_next == old(self).wg_next,
            request == Request::<H>::DispatchTimers(now),
    {
        self.stage = Stage::EvDispatching { now };
        Request::DispatchTimers(now)
    }

    /// The packets whose source addresses [`Request::LookUpSources`] asks about, under the peers
    /// that they came from.
    pub fn unfiltered(&self) -> (waiting: Option<&Vec<(PeerInfo, Vec<Packet>)>>)
        ensures
            match self.stage {
                Stage::InFiltering { groups, .. } => waiting == Some(&groups),
                _ => waiting is None,
            },
    {
        match &self.stage {
            Stage::InFiltering { groups, .. } => Some(groups),
            _ => None,
        }
    }

    /// Takes the answer to the last request, and says what to do next.
    ///
    /// Which calls the engine of the peer database fails is not said here.
    pub fn resume(&mut self, db: &mut PeerDb, reply: Reply<H>) -> (res: Result<Request<H>, Fault>)
        requires
            old(self).wf(),
            old(db).wf(),
        ensures
            final(self).wf(),
            match res {
                Ok(request) => {
                    &&& final(db).wf()
                    &&& answers(old(self).stage, reply)
                    &&& !miscounts(old(self).stage, reply)
                    &&& !loses_peer(old(self).stage, reply)
                    &&& moves(*old(self), old(db)@, reply, *final(self), final(db)@, request)
                    &&& closer(final(self).stage, old(self).stage)
                },
                Err(Fault::Unexpected) => {
                    &&& !answers(old(self).stage, reply)
                    &&& *final(self) == *old(self)
                    &&& *final(db) == *old(db)
                },
                Err(Fault::WrongCount) => {
                    &&& answers(old(self).stage, reply)
                    &&& miscounts(old(self).stage, reply)
                    &&& gives_up(*old(self), *final(self))
                    &&& *final(db) == *old(db)
                },
                Err(Fault::NoTunnelPeer(key)) => {
                    &&& loses_peer(old(self).stage, reply)
                    &&& old(self).stage matches Stage::OutFinding { key: lost, .. } && key == lost
                    &&& gives_up(*old(self), *final(self))
                    &&& *final(db) == *old(db)
                },
                Err(Fault::Peers(e)) => {
                    &&& answers(old(self).stage, reply)
                    &&& !miscounts(old(self).stage, reply)
                    &&& gives_up(*old(self), *final(self))
                    &&& match reply {
                        Reply::OutboundRouted { to_wireguard, .. } => {
                            &&& to_wireguard@.len() > 0
                            &&& e matches PeerDbError::Storage(error) && exists|i: int|
                                0 <= i < to_wireguard@.len() && old(db).lookup_fails(
                                    #[trigger] to_wireguard@[i].0,
                                    error,
                                )
                            &&& *final(db) == *old(db)
                        },
                        Reply::PeerKeys(keys) => naming_failed(old(db)@, keys@, e, *final(db)),
                        _ => false,
                    }
                },
            },
    {
        let mut stage = Stage::Idle;
        std::mem::swap(&mut stage, &mut self.stage);
        match (stage, reply) {
            (Stage::OutRouting, Reply::OutboundRouted { to_wireguard, loopback }) => {
                match key_groups(db, to_wireguard) {
                    Ok(waiting) => {
                        let (next, request) = add_next(loopback, Vec::new(), waiting);
                        self.stage = next;
                        Ok(request)
                    },
                    Err(e) => Err(Fault::Peers(e)),
                }
            },
            (
                Stage::OutAdding { loopback, mut ready, key, packets, waiting },
                Reply::PeerAdded(added),
            ) => match added {
                Some(id) => {
                    ready.push((id, packets));
                    let (next, request) = add_next(loopback, ready, waiting);
                    self.stage = next;
                    Ok(request)
                },
                None => {
                    self.stage = Stage::OutFinding { loopback, ready, key, packets, waiting };
                    Ok(Request::FindPeer(key))
                },
            },
            (
                Stage::OutFinding { loopback, mut ready, key, packets, waiting },
                Reply::PeerFound(found),
            ) => match found {
                Some(id) => {
                    ready.push((id, packets));
                    let (next, request) = add_next(loopback, ready, waiting);
                    self.stage = next;
                    Ok(request)
                },
                None => Err(Fault::NoTunnelPeer(key)),
            },
            (Stage::OutSending { loopback }, Reply::Sent(encrypted)) => {
                let (ids, sent) = split_groups(encrypted);
                self.stage = Stage::OutNaming { loopback, sent };
                Ok(Request::PeerKeys(ids))
            },
            (Stage::OutNaming { loopback, sent }, Reply::PeerKeys(keys)) => {
                if keys.len() != sent.len() {
                    return Err(Fault::WrongCount);
                }
                match name_groups(db, &keys, sent) {
                    Ok(groups) => {
                        self.stage = Stage::OutDelivering { loopback };
                        Ok(Request::RouteUnderlay(address_groups(groups)))
                    },
                    Err(e) => Err(Fault::Peers(e)),
                }
            },
            (Stage::OutDelivering { loopback }, Reply::UnderlayRouted(to_peers)) => {
                let outcome = Outcome::Outbound(OutboundResult { to_peers, loopback });
                self.stage = Stage::Arming { outcome };
                Ok(Request::NextEvent)
            },
            (Stage::InReceiving, Reply::Received { to_local, to_peers }) => {
                let (ids, to_local) = split_groups(to_local);
                self.stage = Stage::InNaming { to_local, to_peers };
                Ok(Request::PeerKeys(ids))
            },
            (Stage::InNaming { to_local, to_peers }, Reply::PeerKeys(keys)) => {
                if keys.len() != to_local.len() {
                    return Err(Fault::WrongCount);
                }
                match name_groups(db, &keys, to_local) {
                    Ok(groups) => {
                        self.stage = Stage::InFiltering { groups, to_peers };
                        Ok(Request::LookUpSources)
                    },
                    Err(e) => Err(Fault::Peers(e)),
                }
            },
            (Stage::InFiltering { groups, to_peers }, Reply::SourcesLookedUp(owners)) => {
                if !check_owners(&groups, &owners) {
                    return Err(Fault::WrongCount);
                }
                let (packets, infos) = inspect_all(filter_sources(groups, &owners));
                self.stage = Stage::InJudging { packets, to_peers };
                Ok(Request::Judge(infos))
            },
            (Stage::InJudging { packets, to_peers }, Reply::Judged(verdicts)) => {
                if verdicts.len() != packets.len() {
                    return Err(Fault::WrongCount);
                }
                self.stage = Stage::InRouting { to_peers };
                Ok(Request::RouteInbound(retain_judged(packets, &verdicts)))
            },
            (Stage::InRouting { to_peers }, Reply::InboundRouted(to_local)) => {
                let (ids, to_peers) = split_groups(to_peers);
                self.stage = Stage::InReplying { to_local, to_peers };
                Ok(Request::PeerKeys(ids))
            },
            (Stage::InReplying { to_local, to_peers }, Reply::PeerKeys(keys)) => {
                if keys.len() != to_peers.len() {
                    return Err(Fault::WrongCount);
                }
                match name_groups(db, &keys, to_peers) {
                    Ok(groups) => {
                        self.stage = Stage::InDelivering { to_local };
                        Ok(Request::RouteUnderlay(address_groups(groups)))
                    },
                    Err(e) => Err(Fault::Peers(e)),
                }
            },
            (Stage::InDelivering { to_local }, Reply::UnderlayRouted(to_peers)) => {
                let outcome = Outcome::Inbound(InboundResult { to_local, to_peers });
                self.stage = Stage::Arming { outcome };
                Ok(Request::NextEvent)
            },
            (Stage::EvDispatching { now }, Reply::TimersDispatched(due)) => {
                let (next, request) = begin_next(now, due, 0, Vec::new());
                self.stage = next;
                Ok(request)
            },
            (
                Stage::EvRunning { now, due, begun, gathered },
                Reply::WireguardDispatched(groups),
            ) => {
                let (ids, sent) = split_groups(groups);
                self.stage = Stage::EvNaming { now, due, begun, gathered, sent };
                Ok(Request::PeerKeys(ids))
            },
            (Stage::EvNaming { now, due, begun, gathered, sent }, Reply::PeerKeys(keys)) => {
                if keys.len() != sent.len() {
                    return Err(Fault::WrongCount);
                }
                match name_groups(db, &keys, sent) {
                    Ok(groups) => {
                        let gathered = gather(gathered, groups);
                        let (next, request) = begin_next(now, due, begun, gathered);
                        self.stage = next;
                        Ok(request)
                    },
                    Err(e) => Err(Fault::Peers(e)),
                }
            },
            (Stage::EvDelivering, Reply::UnderlayRouted(to_peers)) => {
                let outcome = Outcome::Events(EventResult { to_peers });
                self.stage = Stage::Arming { outcome };
                Ok(Request::NextEvent)
            },
            (Stage::Arming { outcome }, Reply::NextEvent(next)) => match next {
                None => Ok(Request::Finish { outcome, cancel: None }),
                Some(next) => {
                    self.stage = Stage::Scheduling { outcome };
                    Ok(Request::Schedule(next, Subsystem::Wireguard))
                },
            },
            (Stage::Scheduling { outcome }, Reply::Scheduled(handle)) => {
                let mut cancel = Some(handle);
                std::mem::swap(&mut cancel, &mut self.wg_next);
                Ok(Request::Finish { outcome, cancel })
            },
            (stage, _) => {
                self.stage = stage;
                Err(Fault::Unexpected)
            },
        }
    }
}

/// Whether the pass is given up: nothing of it is left, and the scheduled event stays.
pub open spec fn gives_up<H>(before: DataPlane<H>, after: DataPlane<H>) -> bool {
    &&& after.stage == Stage::Idle
    &&& after.wg_next == before.wg_next
}

} // verus!
