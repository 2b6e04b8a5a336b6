use std::collections::HashMap;
use std::time::{Duration, Instant};

use dataplane::dataplane::{
    DataPlane, EventResult, Fault, InboundResult, OutboundResult, Outcome, Reply, Request,
    Subsystem,
};
use dataplane::filter::SourceOwner;
use dataplane::packet::IpAddr;
use dataplane::peer_map::PeerDb;
use dataplane::types::{
    NodePublicKey, OverlayTransportId, Packet, PeerId, TunnelPeerId, UnderlayTransportId,
};

fn key(n: u8) -> NodePublicKey {
    NodePublicKey { bytes: [n; 32] }
}

fn packet(n: u8) -> Packet {
    Packet { data: vec![n] }
}

/// An ICMP packet from 10.0.0.n.
fn echo(n: u8) -> Packet {
    Packet {
        data: vec![
            0x45, 0, 0, 28, 0, 0, 0, 0, 64, 1, 0, 0, 10, 0, 0, n, 10, 0, 0, 1, 8, 0, 0, 0, 0, 0, 0,
            0,
        ],
    }
}

const UNDERLAY: UnderlayTransportId = UnderlayTransportId(1);
const OVERLAY: OverlayTransportId = OverlayTransportId(2);

/// What surrounds the data plane: a tunnel that leaves packets as they are, routers with one
/// transport each, and a timer that hands out numbers.
struct World {
    /// The keys of tunnel peers; the place is the id.
    tunnel: Vec<NodePublicKey>,
    /// Where the overlay sends packets from the local device.
    routes: Vec<(PeerId, Vec<Packet>)>,
    /// What comes out of the tunnel.
    received: (Vec<(TunnelPeerId, Vec<Packet>)>, Vec<(TunnelPeerId, Vec<Packet>)>),
    /// How many events are due.
    due: usize,
    /// What the tunnel sends at each event.
    bursts: Vec<Vec<(TunnelPeerId, Vec<Packet>)>>,
    /// When the tunnel wants to be called.
    next: Option<Instant>,
    /// Who owns 10.0.0.n.
    owners: HashMap<u8, PeerId>,
    /// Sources that the packet filter keeps out.
    banned: Vec<u8>,
    /// How many events were scheduled so far.
    handles: u32,
    /// Those that were cancelled.
    cancelled: Vec<u32>,
    /// The batches that were handed to the tunnel.
    sent: Vec<Vec<(TunnelPeerId, Vec<Packet>)>>,
}

impl World {
    fn new() -> World {
        World {
            tunnel: vec![],
            routes: vec![],
            received: (vec![], vec![]),
            due: 0,
            bursts: vec![],
            next: None,
            owners: HashMap::new(),
            banned: vec![],
            handles: 0,
            cancelled: vec![],
            sent: vec![],
        }
    }

    fn answer(&mut self, plane: &DataPlane<u32>, request: Request<u32>) -> Reply<u32> {
        match request {
            Request::RouteOutbound(packets) => Reply::OutboundRouted {
                to_wireguard: std::mem::take(&mut self.routes),
                loopback: HashMap::from([(OVERLAY, packets)]),
            },
            Request::AddPeer(config) => {
                assert_eq!(config.psk, [0u8; 32]);
                if self.tunnel.contains(&config.key) {
                    Reply::PeerAdded(None)
                } else {
                    self.tunnel.push(config.key);
                    Reply::PeerAdded(Some(TunnelPeerId(self.tunnel.len() as u64 - 1)))
                }
            }
            Request::FindPeer(key) => Reply::PeerFound(
                self.tunnel.iter().position(|k| *k == key).map(|i| TunnelPeerId(i as u64)),
            ),
            Request::Send(batch) => {
                self.sent.push(batch.clone());
                Reply::Sent(batch)
            }
            Request::PeerKeys(ids) => Reply::PeerKeys(
                ids.iter().map(|id| self.tunnel.get(id.0 as usize).copied()).collect(),
            ),
            Request::RouteUnderlay(batch) => {
                let mut routed = HashMap::new();
                for (id, packets) in batch {
                    routed.entry((UNDERLAY, id)).or_insert_with(Vec::new).extend(packets);
                }
                Reply::UnderlayRouted(routed)
            }
            Request::Receive(_) => {
                let (to_local, to_peers) = std::mem::take(&mut self.received);
                Reply::Received { to_local, to_peers }
            }
            Request::LookUpSources => {
                let mut all = vec![];
                for (_, packets) in plane.unfiltered().unwrap() {
                    let mut owners = vec![];
                    for packet in packets {
                        owners.push(if packet.data.len() < 20 {
                            SourceOwner::NotIp
                        } else {
                            match self.owners.get(&packet.data[15]) {
                                Some(id) => SourceOwner::Owned(*id),
                                None => SourceOwner::Unowned,
                            }
                        });
                    }
                    all.push(owners);
                }
                Reply::SourcesLookedUp(all)
            }
            Request::Judge(infos) => Reply::Judged(
                infos
                    .iter()
                    .map(|info| match info.src {
                        IpAddr::V4(a) => !self.banned.contains(&a[3]),
                        IpAddr::V6(_) => false,
                    })
                    .collect(),
            ),
            Request::RouteInbound(batch) => {
                Reply::InboundRouted(HashMap::from([(OVERLAY, batch)]))
            }
            Request::DispatchTimers(_) => {
                Reply::TimersDispatched(vec![Subsystem::Wireguard; self.due])
            }
            Request::DispatchWireguard(_) => Reply::WireguardDispatched(self.bursts.remove(0)),
            Request::NextEvent => Reply::NextEvent(self.next),
            Request::Schedule(at, subsystem) => {
                assert_eq!(Some(at), self.next);
                assert_eq!(subsystem, Subsystem::Wireguard);
                self.handles += 1;
                Reply::Scheduled(self.handles)
            }
            Request::Finish { .. } => panic!("nothing to answer"),
        }
    }

    fn finish(
        &mut self,
        plane: &mut DataPlane<u32>,
        db: &mut PeerDb,
        mut request: Request<u32>,
    ) -> Result<Outcome, Fault> {
        loop {
            if let Request::Finish { outcome, cancel } = request {
                self.cancelled.extend(cancel);
                assert!(matches!(plane.stage, dataplane::dataplane::Stage::Idle));
                return Ok(outcome);
            }
            let reply = self.answer(plane, request);
            request = plane.resume(db, reply)?;
        }
    }

    fn outbound(
        &mut self,
        plane: &mut DataPlane<u32>,
        db: &mut PeerDb,
        packets: Vec<Packet>,
    ) -> OutboundResult {
        let request = plane.process_outbound(packets);
        match self.finish(plane, db, request) {
            Ok(Outcome::Outbound(result)) => result,
            _ => panic!("not an outbound result"),
        }
    }

    fn inbound(&mut self, plane: &mut DataPlane<u32>, db: &mut PeerDb) -> InboundResult {
        let request = plane.process_inbound(vec![]);
        match self.finish(plane, db, request) {
            Ok(Outcome::Inbound(result)) => result,
            _ => panic!("not an inbound result"),
        }
    }

    fn events(&mut self, plane: &mut DataPlane<u32>, db: &mut PeerDb) -> EventResult {
        let request = plane.process_events(Instant::now());
        match self.finish(plane, db, request) {
            Ok(Outcome::Events(result)) => result,
            _ => panic!("not a result of events"),
        }
    }
}

#[test]
fn new_plane_is_idle() {
    let plane: DataPlane<u32> = DataPlane::new();
    assert!(matches!(plane.stage, dataplane::dataplane::Stage::Idle));
    assert_eq!(plane.wg_next, None);
    assert!(plane.unfiltered().is_none());
}

#[test]
fn outbound_packets_go_to_known_peers() {
    let mut db = PeerDb::create().unwrap();
    let a = db.get_or_insert(&key(1)).unwrap();
    let b = db.get_or_insert(&key(2)).unwrap();
    let mut world = World::new();
    world.tunnel = vec![key(2)];
    world.routes = vec![
        (a.peer_id, vec![packet(10)]),
        (PeerId(77), vec![packet(77)]),
        (b.peer_id, vec![packet(20), packet(21)]),
    ];
    let mut plane = DataPlane::new();
    let result = world.outbound(&mut plane, &mut db, vec![packet(5)]);
    assert_eq!(
        world.sent,
        vec![vec![
            (TunnelPeerId(1), vec![packet(10)]),
            (TunnelPeerId(0), vec![packet(20), packet(21)]),
        ]]
    );
    assert_eq!(
        result.to_peers,
        HashMap::from([
            ((UNDERLAY, a.peer_id), vec![packet(10)]),
            ((UNDERLAY, b.peer_id), vec![packet(20), packet(21)]),
        ])
    );
    assert_eq!(result.loopback, HashMap::from([(OVERLAY, vec![packet(5)])]));
    assert_eq!(plane.wg_next, None);
}

#[test]
fn outbound_pass_asks_in_order() {
    let mut db = PeerDb::create().unwrap();
    let a = db.get_or_insert(&key(1)).unwrap();
    let mut plane: DataPlane<u32> = DataPlane::new();
    match plane.process_outbound(vec![packet(1)]) {
        Request::RouteOutbound(packets) => assert_eq!(packets, vec![packet(1)]),
        _ => panic!("routing comes first"),
    }
    let reply = Reply::OutboundRouted {
        to_wireguard: vec![(a.peer_id, vec![packet(10)])],
        loopback: HashMap::new(),
    };
    match plane.resume(&mut db, reply).unwrap() {
        Request::AddPeer(config) => assert_eq!(config.key, key(1)),
        _ => panic!("the peer is added"),
    }
    match plane.resume(&mut db, Reply::PeerAdded(None)).unwrap() {
        Request::FindPeer(k) => assert_eq!(k, key(1)),
        _ => panic!("the peer is looked for"),
    }
    match plane.resume(&mut db, Reply::PeerFound(Some(TunnelPeerId(6)))).unwrap() {
        Request::Send(batch) => assert_eq!(batch, vec![(TunnelPeerId(6), vec![packet(10)])]),
        _ => panic!("the batch is sent"),
    }
    let encrypted = vec![(TunnelPeerId(6), vec![packet(11)]), (TunnelPeerId(9), vec![packet(12)])];
    match plane.resume(&mut db, Reply::Sent(encrypted)).unwrap() {
        Request::PeerKeys(ids) => assert_eq!(ids, vec![TunnelPeerId(6), TunnelPeerId(9)]),
        _ => panic!("keys are looked up"),
    }
    match plane.resume(&mut db, Reply::PeerKeys(vec![Some(key(1)), None])).unwrap() {
        Request::RouteUnderlay(batch) => assert_eq!(batch, vec![(a.peer_id, vec![packet(11)])]),
        _ => panic!("packets are routed"),
    }
}

#[test]
fn encrypted_packets_for_a_new_key_get_a_peer() {
    let mut db = PeerDb::create().unwrap();
    let mut world = World::new();
    world.tunnel = vec![key(1), key(2)];
    world.due = 1;
    world.bursts = vec![vec![(TunnelPeerId(1), vec![packet(1)]), (TunnelPeerId(5), vec![packet(2)])]];
    let mut plane = DataPlane::new();
    let result = world.events(&mut plane, &mut db);
    assert_eq!(result.to_peers, HashMap::from([((UNDERLAY, PeerId(0)), vec![packet(1)])]));
    assert_eq!(db.get_by_id(PeerId(0)).unwrap().unwrap().node_key, key(2));
}

#[test]
fn inbound_packets_pass_every_filter() {
    let mut db = PeerDb::create().unwrap();
    let a = db.get_or_insert(&key(1)).unwrap();
    let mut world = World::new();
    world.tunnel = vec![key(1), key(2)];
    world.received = (
        vec![
            // 1: its own; 2: of another; 3: unowned; 4: banned; the last is not a packet
            (TunnelPeerId(0), vec![echo(1), echo(2), echo(3), echo(4), packet(9)]),
            // no key
            (TunnelPeerId(8), vec![echo(1)]),
            // a new peer, with id 1
            (TunnelPeerId(1), vec![echo(2), echo(1)]),
        ],
        vec![(TunnelPeerId(1), vec![packet(50)]), (TunnelPeerId(8), vec![packet(51)])],
    );
    world.owners = HashMap::from([(1, a.peer_id), (2, PeerId(1)), (4, a.peer_id)]);
    world.banned = vec![4];
    let mut plane = DataPlane::new();
    let result = world.inbound(&mut plane, &mut db);
    assert_eq!(result.to_local, HashMap::from([(OVERLAY, vec![echo(1), echo(2)])]));
    assert_eq!(result.to_peers, HashMap::from([((UNDERLAY, PeerId(1)), vec![packet(50)])]));
    assert_eq!(db.get_or_insert(&key(2)).unwrap().peer_id, PeerId(1));
}

#[test]
fn owned_but_unreadable_packets_are_dropped() {
    let mut db = PeerDb::create().unwrap();
    let mut plane: DataPlane<u32> = DataPlane::new();
    match plane.process_inbound(vec![packet(3)]) {
        Request::Receive(packets) => assert_eq!(packets, vec![packet(3)]),
        _ => panic!("decryption comes first"),
    }
    let reply = Reply::Received {
        to_local: vec![(TunnelPeerId(0), vec![packet(1), echo(1)])],
        to_peers: vec![],
    };
    plane.resume(&mut db, reply).unwrap();
    assert!(plane.unfiltered().is_none());
    let request = plane.resume(&mut db, Reply::PeerKeys(vec![Some(key(4))])).unwrap();
    assert!(matches!(request, Request::LookUpSources));
    let waiting = plane.unfiltered().unwrap();
    assert_eq!(waiting.len(), 1);
    assert_eq!(waiting[0].0.node_key, key(4));
    assert_eq!(waiting[0].1, vec![packet(1), echo(1)]);
    let owner = SourceOwner::Owned(PeerId(0));
    let reply = Reply::SourcesLookedUp(vec![vec![owner, owner]]);
    match plane.resume(&mut db, reply).unwrap() {
        Request::Judge(infos) => {
            assert_eq!(infos.len(), 1);
            assert_eq!(infos[0].src, IpAddr::V4([10, 0, 0, 1]));
        }
        _ => panic!("the packet filter is asked"),
    }
    match plane.resume(&mut db, Reply::Judged(vec![true])).unwrap() {
        Request::RouteInbound(batch) => assert_eq!(batch, vec![echo(1)]),
        _ => panic!("packets are routed"),
    }
}

#[test]
fn last_group_of_events_wins() {
    let mut db = PeerDb::create().unwrap();
    let mut world = World::new();
    world.tunnel = vec![key(1), key(2)];
    world.due = 3;
    world.bursts = vec![
        vec![(TunnelPeerId(0), vec![packet(10)]), (TunnelPeerId(1), vec![packet(20)])],
        vec![(TunnelPeerId(0), vec![packet(11)])],
        vec![],
    ];
    let mut plane = DataPlane::new();
    let result = world.events(&mut plane, &mut db);
    assert!(world.bursts.is_empty());
    assert_eq!(
        result.to_peers,
        HashMap::from([
            ((UNDERLAY, PeerId(0)), vec![packet(11)]),
            ((UNDERLAY, PeerId(1)), vec![packet(20)]),
        ])
    );
}

#[test]
fn no_event_sends_nothing() {
    let mut db = PeerDb::create().unwrap();
    let mut world = World::new();
    let mut plane = DataPlane::new();
    assert!(world.events(&mut plane, &mut db).to_peers.is_empty());
    assert!(EventResult::default().to_peers.is_empty());
}

#[test]
fn one_event_is_outstanding() {
    let mut db = PeerDb::create().unwrap();
    let mut world = World::new();
    let mut plane = DataPlane::new();
    world.outbound(&mut plane, &mut db, vec![]);
    assert_eq!(plane.wg_next, None);
    world.next = Some(Instant::now() + Duration::from_secs(5));
    world.outbound(&mut plane, &mut db, vec![]);
    assert_eq!(plane.wg_next, Some(1));
    assert_eq!(world.cancelled, vec![]);
    world.inbound(&mut plane, &mut db);
    assert_eq!(plane.wg_next, Some(2));
    assert_eq!(world.cancelled, vec![1]);
    world.next = None;
    world.inbound(&mut plane, &mut db);
    assert_eq!(plane.wg_next, Some(2));
    assert_eq!(world.cancelled, vec![1]);
    world.next = Some(Instant::now());
    world.events(&mut plane, &mut db);
    assert_eq!(plane.wg_next, Some(3));
    assert_eq!(world.cancelled, vec![1, 2]);
}

#[test]
fn unexpected_reply_leaves_the_pass_waiting() {
    let mut db = PeerDb::create().unwrap();
    let mut plane: DataPlane<u32> = DataPlane::new();
    assert!(matches!(
        plane.resume(&mut db, Reply::Scheduled(1)),
        Err(Fault::Unexpected)
    ));
    plane.process_events(Instant::now());
    assert!(matches!(
        plane.resume(&mut db, Reply::Judged(vec![])),
        Err(Fault::Unexpected)
    ));
    let request = plane.resume(&mut db, Reply::TimersDispatched(vec![])).unwrap();
    match request {
        Request::RouteUnderlay(batch) => assert!(batch.is_empty()),
        _ => panic!("packets are routed"),
    }
}

#[test]
fn wrong_counts_end_the_pass() {
    let mut db = PeerDb::create().unwrap();
    let mut plane: DataPlane<u32> = DataPlane::new();
    let received = || Reply::Received {
        to_local: vec![(TunnelPeerId(0), vec![echo(1)])],
        to_peers: vec![],
    };

    plane.process_inbound(vec![]);
    plane.resume(&mut db, received()).unwrap();
    let res = plane.resume(&mut db, Reply::PeerKeys(vec![]));
    assert!(matches!(res, Err(Fault::WrongCount)));
    assert!(matches!(plane.stage, dataplane::dataplane::Stage::Idle));

    plane.process_inbound(vec![]);
    plane.resume(&mut db, received()).unwrap();
    plane.resume(&mut db, Reply::PeerKeys(vec![Some(key(1))])).unwrap();
    let res = plane.resume(&mut db, Reply::SourcesLookedUp(vec![vec![]]));
    assert!(matches!(res, Err(Fault::WrongCount)));

    plane.process_inbound(vec![]);
    plane.resume(&mut db, received()).unwrap();
    plane.resume(&mut db, Reply::PeerKeys(vec![Some(key(1))])).unwrap();
    let owners = vec![vec![SourceOwner::Owned(PeerId(0))]];
    plane.resume(&mut db, Reply::SourcesLookedUp(owners)).unwrap();
    let res = plane.resume(&mut db, Reply::Judged(vec![true, true]));
    assert!(matches!(res, Err(Fault::WrongCount)));
}

#[test]
fn peer_that_the_tunnel_loses_ends_the_pass() {
    let mut db = PeerDb::create().unwrap();
    let a = db.get_or_insert(&key(1)).unwrap();
    let mut plane: DataPlane<u32> = DataPlane::new();
    plane.process_outbound(vec![]);
    let reply = Reply::OutboundRouted {
        to_wireguard: vec![(a.peer_id, vec![])],
        loopback: HashMap::new(),
    };
    plane.resume(&mut db, reply).unwrap();
    plane.resume(&mut db, Reply::PeerAdded(None)).unwrap();
    match plane.resume(&mut db, Reply::PeerFound(None)) {
        Err(Fault::NoTunnelPeer(lost)) => assert_eq!(lost, key(1)),
        _ => panic!("the peer is lost"),
    }
    assert!(matches!(plane.stage, dataplane::dataplane::Stage::Idle));
}

#[test]
fn packets_before_the_first_peer_are_dropped() {
    let mut db = PeerDb::create().unwrap();
    let mut world = World::new();
    world.routes = vec![(PeerId(0), vec![packet(1)])];
    let mut plane = DataPlane::new();
    let result = world.outbound(&mut plane, &mut db, vec![packet(5)]);
    assert_eq!(world.sent, vec![vec![]]);
    assert!(result.to_peers.is_empty());
    assert_eq!(result.loopback, HashMap::from([(OVERLAY, vec![packet(5)])]));
}

#[test]
fn overlay_routes_reach_the_underlay_in_order() {
    let mut db = PeerDb::create().unwrap();
    for n in 1..=3u8 {
        db.get_or_insert(&key(n)).unwrap();
    }
    let mut plane: DataPlane<u32> = DataPlane::new();
    let mut world = World::new();
    world.routes = vec![
        (PeerId(2), vec![packet(20)]),
        (PeerId(9), vec![packet(90)]),
        (PeerId(0), vec![packet(1), packet(2)]),
        (PeerId(2), vec![packet(21)]),
    ];
    let mut request = plane.process_outbound(vec![]);
    loop {
        if let Request::RouteUnderlay(batch) = &request {
            assert_eq!(
                *batch,
                vec![
                    (PeerId(2), vec![packet(20)]),
                    (PeerId(0), vec![packet(1), packet(2)]),
                    (PeerId(2), vec![packet(21)]),
                ]
            );
            break;
        }
        let reply = world.answer(&plane, request);
        request = plane.resume(&mut db, reply).unwrap();
    }
    assert_eq!(db.get_or_insert(&key(4)).unwrap().peer_id, PeerId(3));
}

#[test]
fn nothing_is_delivered_where_nothing_passes() {
    let mut db = PeerDb::create().unwrap();
    let a = db.get_or_insert(&key(1)).unwrap();
    let mut plane = DataPlane::new();
    let mut world = World::new();
    world.tunnel = vec![key(1)];
    world.received = (vec![(TunnelPeerId(0), vec![echo(1), echo(2)])], vec![]);
    let result = world.inbound(&mut plane, &mut db);
    assert_eq!(result.to_local, HashMap::from([(OVERLAY, vec![])]));
    world.received = (vec![(TunnelPeerId(0), vec![echo(1), echo(2)])], vec![]);
    world.owners = HashMap::from([(1, a.peer_id), (2, a.peer_id)]);
    world.banned = vec![1, 2];
    let result = world.inbound(&mut plane, &mut db);
    assert_eq!(result.to_local, HashMap::from([(OVERLAY, vec![])]));
}
