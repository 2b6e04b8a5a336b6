use dataplane::peer_map::{assign, Assignment, PeerDb, PeerInfo};
use dataplane::types::{NodePublicKey, PeerId};

fn key(n: u8) -> NodePublicKey {
    NodePublicKey { bytes: [n; 32] }
}

#[test]
fn width_of_a_record() {
    assert_eq!(PeerInfo::fixed_width(), Some(36));
}

#[test]
fn record_is_id_and_key() {
    let mut bytes = [0u8; 32];
    for (i, b) in bytes.iter_mut().enumerate() {
        *b = i as u8 + 100;
    }
    let info = PeerInfo {
        peer_id: PeerId(0x01020304),
        node_key: NodePublicKey { bytes },
    };
    let record = info.as_bytes();
    assert_eq!(record.len(), 36);
    assert_eq!(&record[..4], &[4, 3, 2, 1]);
    assert_eq!(&record[4..], &bytes[..]);
}

#[test]
fn record_round_trip() {
    for id in [0, 1, 255, 256, 65_535, 0x7fff_ffff, u32::MAX] {
        let info = PeerInfo {
            peer_id: PeerId(id),
            node_key: key(id as u8),
        };
        assert_eq!(PeerInfo::from_bytes(&info.as_bytes()), info);
    }
}

#[test]
fn records_of_different_peers_differ() {
    let a = PeerInfo { peer_id: PeerId(1), node_key: key(1) };
    let b = PeerInfo { peer_id: PeerId(256), node_key: key(1) };
    let c = PeerInfo { peer_id: PeerId(1), node_key: key(2) };
    assert_ne!(a.as_bytes(), b.as_bytes());
    assert_ne!(a.as_bytes(), c.as_bytes());
}

#[test]
fn known_key_is_not_assigned_again() {
    let mut next: u32 = 7;
    let to = assign(Some(PeerId(3)), &key(1), &mut next);
    assert!(matches!(to, Assignment::Existing(PeerId(3))));
    assert_eq!(next, 7);
}

#[test]
fn new_key_gets_the_next_id() {
    let mut next: u32 = 7;
    match assign(None, &key(1), &mut next) {
        Assignment::Fresh(info) => {
            assert_eq!(info, PeerInfo { peer_id: PeerId(7), node_key: key(1) });
        }
        Assignment::Existing(_) => panic!("the key is new"),
    }
    assert_eq!(next, 8);
}

#[test]
fn ids_start_again_behind_the_largest() {
    let mut next: u32 = u32::MAX;
    match assign(None, &key(1), &mut next) {
        Assignment::Fresh(info) => assert_eq!(info.peer_id, PeerId(u32::MAX)),
        Assignment::Existing(_) => panic!("the key is new"),
    }
    assert_eq!(next, 0);
}

#[test]
fn keys_get_ids_in_turn() {
    let mut db = PeerDb::create().unwrap();
    for n in 0..5u8 {
        let info = db.get_or_insert(&key(n)).unwrap();
        assert_eq!(info, PeerInfo { peer_id: PeerId(n as u32), node_key: key(n) });
    }
}

#[test]
fn key_keeps_its_peer() {
    let mut db = PeerDb::create().unwrap();
    let a = db.get_or_insert(&key(1)).unwrap();
    let b = db.get_or_insert(&key(2)).unwrap();
    assert_ne!(a.peer_id, b.peer_id);
    assert_eq!(db.get_or_insert(&key(1)).unwrap(), a);
    assert_eq!(db.get_or_insert(&key(2)).unwrap(), b);
    assert_eq!(db.get_or_insert(&key(3)).unwrap().peer_id, PeerId(2));
}

#[test]
fn peer_is_found_by_its_id() {
    let mut db = PeerDb::create().unwrap();
    let a = db.get_or_insert(&key(1)).unwrap();
    let b = db.get_or_insert(&key(2)).unwrap();
    assert_eq!(db.get_by_id(a.peer_id).unwrap(), Some(a));
    assert_eq!(db.get_by_id(b.peer_id).unwrap(), Some(b));
    assert_eq!(db.get_by_id(PeerId(2)).unwrap(), None);
    assert_eq!(db.get_by_id(PeerId(u32::MAX)).unwrap(), None);
}

#[test]
fn new_database_has_no_peer() {
    let db = PeerDb::create().unwrap();
    assert_eq!(db.get_by_id(PeerId(0)).unwrap(), None);
    assert_eq!(db.get_by_id(PeerId(u32::MAX)).unwrap(), None);
}

#[test]
fn removing_an_unknown_key_changes_nothing() {
    let mut db = PeerDb::create().unwrap();
    db.remove(&key(9)).unwrap();
    assert_eq!(db.get_by_id(PeerId(0)).unwrap(), None);
    let a = db.get_or_insert(&key(1)).unwrap();
    db.remove(&key(9)).unwrap();
    assert_eq!(db.get_by_id(a.peer_id).unwrap(), Some(a));
}

#[test]
fn removed_peer_is_gone() {
    let mut db = PeerDb::create().unwrap();
    let a = db.get_or_insert(&key(1)).unwrap();
    let b = db.get_or_insert(&key(2)).unwrap();
    db.remove(&key(1)).unwrap();
    assert_eq!(db.get_by_id(a.peer_id).unwrap(), None);
    assert_eq!(db.get_by_id(b.peer_id).unwrap(), Some(b));
    assert_eq!(db.get_or_insert(&key(2)).unwrap(), b);
}

#[test]
fn removed_key_gets_a_new_id() {
    let mut db = PeerDb::create().unwrap();
    let a = db.get_or_insert(&key(1)).unwrap();
    let b = db.get_or_insert(&key(2)).unwrap();
    db.remove(&key(1)).unwrap();
    let again = db.get_or_insert(&key(1)).unwrap();
    assert_eq!(again.node_key, key(1));
    assert_eq!(again.peer_id, PeerId(2));
    assert_ne!(again.peer_id, a.peer_id);
    assert_ne!(again.peer_id, b.peer_id);
}

#[test]
fn databases_are_apart() {
    let mut one = PeerDb::create().unwrap();
    let mut two = PeerDb::create().unwrap();
    assert_eq!(one.get_or_insert(&key(1)).unwrap().peer_id, PeerId(0));
    assert_eq!(two.get_or_insert(&key(2)).unwrap().peer_id, PeerId(0));
    assert_eq!(one.get_by_id(PeerId(0)).unwrap().unwrap().node_key, key(1));
    assert_eq!(two.get_by_id(PeerId(0)).unwrap().unwrap().node_key, key(2));
}

#[test]
fn ids_are_not_reused() {
    let mut db = PeerDb::create().unwrap();
    let mut given = vec![];
    for round in 0..4u8 {
        for n in 0..3u8 {
            given.push(db.get_or_insert(&key(10 * round + n)).unwrap().peer_id.0);
        }
        db.remove(&key(10 * round)).unwrap();
        db.remove(&key(10 * round + 2)).unwrap();
        given.push(db.get_or_insert(&key(10 * round)).unwrap().peer_id.0);
    }
    assert_eq!(given, (0..16).collect::<Vec<u32>>());
}

#[test]
fn key_keeps_its_peer_over_other_calls() {
    let mut db = PeerDb::create().unwrap();
    db.get_or_insert(&key(0)).unwrap();
    let kept = db.get_or_insert(&key(1)).unwrap();
    db.remove(&key(0)).unwrap();
    for n in 2..20u8 {
        db.get_or_insert(&key(n)).unwrap();
        db.remove(&key(n - 1 + (n == 2) as u8)).unwrap();
        assert_eq!(db.get_or_insert(&key(1)).unwrap(), kept);
        assert_eq!(db.get_by_id(kept.peer_id).unwrap(), Some(kept));
    }
}
