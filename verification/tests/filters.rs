use dataplane::filter::{
    check_owners, filter_sources, inspect_all, own_packets, retain_judged, SourceOwner,
};
use dataplane::packet::IpProto;
use dataplane::peer_map::PeerInfo;
use dataplane::types::{NodePublicKey, Packet, PeerId};

fn peer(n: u32) -> PeerInfo {
    PeerInfo {
        peer_id: PeerId(n),
        node_key: NodePublicKey { bytes: [n as u8; 32] },
    }
}

fn packet(n: u8) -> Packet {
    Packet { data: vec![n] }
}

fn echo(n: u8) -> Packet {
    Packet {
        data: vec![
            0x45, 0, 0, 28, 0, 0, 0, 0, 64, 1, 0, 0, 10, 0, 0, n, 10, 0, 0, 1, 8, 0, 0, 0, 0, 0, 0,
            0,
        ],
    }
}

#[test]
fn only_own_packets_are_kept() {
    let owners = vec![
        SourceOwner::Owned(PeerId(1)),
        SourceOwner::NotIp,
        SourceOwner::Unowned,
        SourceOwner::Owned(PeerId(2)),
        SourceOwner::Owned(PeerId(1)),
    ];
    let packets: Vec<Packet> = (0..5).map(packet).collect();
    assert_eq!(own_packets(PeerId(1), packets.clone(), &owners), vec![packet(0), packet(4)]);
    assert_eq!(own_packets(PeerId(2), packets.clone(), &owners), vec![packet(3)]);
    assert_eq!(own_packets(PeerId(3), packets, &owners), vec![]);
}

#[test]
fn groups_pass_in_order() {
    let groups = vec![
        (peer(1), vec![packet(10), packet(11)]),
        (peer(2), vec![]),
        (peer(3), vec![packet(30), packet(31)]),
    ];
    let owners = vec![
        vec![SourceOwner::Owned(PeerId(3)), SourceOwner::Owned(PeerId(1))],
        vec![],
        vec![SourceOwner::Owned(PeerId(3)), SourceOwner::Owned(PeerId(1))],
    ];
    assert!(check_owners(&groups, &owners));
    assert_eq!(filter_sources(groups, &owners), vec![packet(11), packet(30)]);
}

#[test]
fn owners_have_to_fit() {
    let groups = vec![(peer(1), vec![packet(10), packet(11)])];
    assert!(!check_owners(&groups, &vec![]));
    assert!(!check_owners(&groups, &vec![vec![SourceOwner::NotIp]]));
    assert!(check_owners(&groups, &vec![vec![SourceOwner::NotIp, SourceOwner::NotIp]]));
    assert!(check_owners(&vec![], &vec![]));
}

#[test]
fn unreadable_packets_are_dropped() {
    let (kept, infos) = inspect_all(vec![packet(1), echo(2), packet(3), echo(4)]);
    assert_eq!(kept, vec![echo(2), echo(4)]);
    assert_eq!(infos.len(), 2);
    assert_eq!(infos[0].ip_proto, IpProto(1));
    assert_ne!(infos[0].src, infos[1].src);
}

#[test]
fn judged_packets() {
    let packets = vec![packet(1), packet(2), packet(3)];
    assert_eq!(
        retain_judged(packets.clone(), &vec![true, false, true]),
        vec![packet(1), packet(3)]
    );
    assert_eq!(retain_judged(packets, &vec![false, false, false]), vec![]);
}
