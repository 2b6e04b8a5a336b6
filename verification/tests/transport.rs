use dataplane::transport::{PeerLookup, SendStep, Transport};
use dataplane::types::{NodePublicKey, Packet, PeerId};

/// Knows the peers below a bound; the key of a peer repeats its id.
#[derive(Debug, PartialEq, Eq)]
struct Below(u32);

impl PeerLookup for Below {
    fn key_to_id(&self, key: &NodePublicKey) -> PeerId {
        PeerId(key.bytes[0] as u32)
    }

    fn id_to_key(&self, id: PeerId) -> Option<NodePublicKey> {
        if id.0 < self.0 {
            Some(key(id.0 as u8))
        } else {
            None
        }
    }
}

fn key(n: u8) -> NodePublicKey {
    NodePublicKey { bytes: [n; 32] }
}

fn packet(n: u8) -> Packet {
    Packet { data: vec![n] }
}

/// Sends a batch; the packet `fails` fails. Returns what was sent, which peers were unknown, and
/// how it ended.
fn run(
    batch: Vec<(PeerId, Vec<Packet>)>,
    fails: Option<u8>,
) -> (Vec<(u8, u8)>, Vec<u32>, Result<(), u8>) {
    let transport = Transport::new((), Below(5));
    let mut sending = transport.send(batch);
    let mut sent = vec![];
    let mut unknown = vec![];
    let mut last: Result<(), u8> = Ok(());
    loop {
        match transport.send_next(&mut sending, last) {
            SendStep::SendOne { node_key, packet } => {
                sent.push((node_key.bytes[0], packet.data[0]));
                last = if fails == Some(packet.data[0]) { Err(packet.data[0]) } else { Ok(()) };
            }
            SendStep::UnknownPeer(id) => {
                unknown.push(id.0);
                last = Ok(());
            }
            SendStep::Finished(res) => return (sent, unknown, res),
        }
    }
}

#[test]
fn parts_come_back() {
    let transport = Transport::new(vec![1, 2, 3], Below(9));
    assert_eq!(transport.inner(), &vec![1, 2, 3]);
    assert_eq!(transport.into_parts(), (vec![1, 2, 3], Below(9)));
}

#[test]
fn received_packet_stands_under_the_id_of_its_sender() {
    let transport = Transport::new((), Below(5));
    let items: [Result<_, ()>; 1] = transport.recv(Ok((key(3), packet(30))));
    assert_eq!(items, [Ok((PeerId(3), [packet(30)]))]);
}

#[test]
fn failed_receive_is_handed_on() {
    let transport = Transport::new((), Below(5));
    let items = transport.recv(Err("lost"));
    assert_eq!(items, [Err("lost")]);
}

#[test]
fn batch_is_sent_in_order() {
    let batch = vec![
        (PeerId(2), vec![packet(20), packet(21)]),
        (PeerId(1), vec![packet(10)]),
        (PeerId(2), vec![packet(22)]),
    ];
    assert_eq!(
        run(batch, None),
        (vec![(2, 20), (2, 21), (1, 10), (2, 22)], vec![], Ok(()))
    );
}

#[test]
fn unknown_peers_are_passed_over() {
    let batch = vec![
        (PeerId(7), vec![packet(70), packet(71)]),
        (PeerId(1), vec![packet(10)]),
        (PeerId(8), vec![]),
        (PeerId(2), vec![packet(20)]),
    ];
    assert_eq!(run(batch, None), (vec![(1, 10), (2, 20)], vec![7, 8], Ok(())));
}

#[test]
fn peers_without_packets_get_nothing() {
    let batch = vec![(PeerId(0), vec![]), (PeerId(1), vec![]), (PeerId(2), vec![packet(20)])];
    assert_eq!(run(batch, None), (vec![(2, 20)], vec![], Ok(())));
    assert_eq!(run(vec![(PeerId(0), vec![])], None), (vec![], vec![], Ok(())));
    assert_eq!(run(vec![], None), (vec![], vec![], Ok(())));
}

#[test]
fn failed_packet_ends_the_batch() {
    let batch = vec![
        (PeerId(1), vec![packet(10), packet(11), packet(12)]),
        (PeerId(2), vec![packet(20)]),
    ];
    assert_eq!(run(batch, Some(11)), (vec![(1, 10), (1, 11)], vec![], Err(11)));
}

#[test]
fn batches_are_sent_in_turn() {
    let first = vec![(PeerId(2), vec![packet(20)]), (PeerId(9), vec![packet(90)])];
    let second = vec![(PeerId(2), vec![packet(21)]), (PeerId(1), vec![packet(10)])];
    let mut both = first.clone();
    both.extend(second.clone());
    let mut sent = run(first, None).0;
    sent.extend(run(second, None).0);
    assert_eq!(run(both, None).0, sent);
}
