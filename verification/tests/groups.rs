use dataplane::groups::{address_groups, gather, key_groups, name_groups, split_groups};
use dataplane::peer_map::{PeerDb, PeerInfo};
use dataplane::types::{NodePublicKey, Packet, PeerId, TunnelPeerId};

fn key(n: u8) -> NodePublicKey {
    NodePublicKey { bytes: [n; 32] }
}

fn packets(n: u8) -> Vec<Packet> {
    vec![Packet { data: vec![n] }]
}

fn info(id: u32, n: u8) -> PeerInfo {
    PeerInfo { peer_id: PeerId(id), node_key: key(n) }
}

#[test]
fn groups_of_unknown_peers_are_dropped() {
    let mut db = PeerDb::create().unwrap();
    let a = db.get_or_insert(&key(1)).unwrap();
    let b = db.get_or_insert(&key(2)).unwrap();
    let groups = vec![
        (b.peer_id, packets(20)),
        (PeerId(99), packets(99)),
        (a.peer_id, packets(10)),
        (b.peer_id, packets(21)),
    ];
    let kept: Vec<_> = key_groups(&db, groups).unwrap().into_iter().collect();
    assert_eq!(
        kept,
        vec![(key(2), packets(20)), (key(1), packets(10)), (key(2), packets(21))]
    );
}

#[test]
fn new_database_keeps_no_group() {
    let db = PeerDb::create().unwrap();
    assert!(key_groups(&db, vec![]).unwrap().is_empty());
    assert!(key_groups(&db, vec![(PeerId(0), packets(1))]).unwrap().is_empty());
}

#[test]
fn known_keys_are_named_as_they_are() {
    let mut db = PeerDb::create().unwrap();
    let a = db.get_or_insert(&key(1)).unwrap();
    let b = db.get_or_insert(&key(2)).unwrap();
    let keys = vec![Some(key(2)), Some(key(1)), Some(key(2))];
    let kept = name_groups(&mut db, &keys, vec![packets(1), packets(2), packets(3)]).unwrap();
    assert_eq!(kept, vec![(b, packets(1)), (a, packets(2)), (b, packets(3))]);
    assert_eq!(db.get_or_insert(&key(3)).unwrap().peer_id, PeerId(2));
}

#[test]
fn groups_are_named_by_their_keys() {
    let mut db = PeerDb::create().unwrap();
    let known = db.get_or_insert(&key(5)).unwrap();
    let keys = vec![Some(key(7)), None, Some(key(5)), Some(key(7)), Some(key(8))];
    let groups = vec![packets(1), packets(2), packets(3), packets(4), packets(5)];
    let kept = name_groups(&mut db, &keys, groups).unwrap();
    assert_eq!(
        kept,
        vec![
            (info(1, 7), packets(1)),
            (known, packets(3)),
            (info(1, 7), packets(4)),
            (info(2, 8), packets(5)),
        ]
    );
    for (named, _) in &kept {
        assert_eq!(db.get_or_insert(&named.node_key).unwrap(), *named);
        assert_eq!(db.get_by_id(named.peer_id).unwrap(), Some(*named));
    }
}

#[test]
fn groups_are_parted_and_addressed() {
    let (ids, parts) =
        split_groups(vec![(TunnelPeerId(4), packets(1)), (TunnelPeerId(2), packets(2))]);
    assert_eq!(ids, vec![TunnelPeerId(4), TunnelPeerId(2)]);
    assert_eq!(parts, vec![packets(1), packets(2)]);
    let addressed = address_groups(vec![(info(3, 1), packets(1)), (info(0, 2), packets(2))]);
    assert_eq!(addressed, vec![(PeerId(3), packets(1)), (PeerId(0), packets(2))]);
}

#[test]
fn later_groups_take_the_place_of_earlier_ones() {
    let gathered = gather(vec![], vec![(info(1, 1), packets(10)), (info(2, 2), packets(20))]);
    assert_eq!(gathered, vec![(PeerId(1), packets(10)), (PeerId(2), packets(20))]);
    let gathered = gather(
        gathered,
        vec![(info(3, 3), packets(30)), (info(1, 1), packets(11)), (info(1, 1), packets(12))],
    );
    assert_eq!(
        gathered,
        vec![(PeerId(1), packets(12)), (PeerId(2), packets(20)), (PeerId(3), packets(30))]
    );
}
