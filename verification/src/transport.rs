//! A transport that sends to node keys, offered to callers that know peers by id.

use std::collections::VecDeque;

use vstd::prelude::*;

use crate::types::{NodePublicKey, Packet, PeerId};

verus! {

/// Finds a peer's id by its key, and its key by its id.
pub trait PeerLookup {
    /// The id of the peer that has `key`.
    fn key_to_id(&self, key: &NodePublicKey) -> PeerId;

    /// The key of the peer that has `id`, if it is known.
    fn id_to_key(&self, id: PeerId) -> Option<NodePublicKey>;
}

/// A transport between node keys, with a [`PeerLookup`] that finds the keys.
pub struct Transport<NkT, Lookup> {
    inner: NkT,
    peer_lookup: Lookup,
}

impl<NkT, Lookup> Transport<NkT, Lookup> {
    /// The transport between node keys.
    pub closed spec fn client(self) -> NkT {
        self.inner
    }

    /// What finds the keys.
    pub closed spec fn lookup(self) -> Lookup {
        self.peer_lookup
    }

    /// Construct a new [`Transport`] with the given client and [`PeerLookup`].
    pub fn new(client: NkT, lookup: Lookup) -> (transport: Self)
        ensures
            transport.client() == client,
            transport.lookup() == lookup,
    {
        Transport { inner: client, peer_lookup: lookup }
    }

    /// Destruct this [`Transport`] into its constituent parts.
    pub fn into_parts(self) -> (parts: (NkT, Lookup))
        ensures
            parts == (self.client(), self.lookup()),
    {
        (self.inner, self.peer_lookup)
    }

    /// Lends out the transport between node keys.
    pub fn inner(&self) -> (client: &NkT)
        ensures
            *client == self.client(),
    {
        &self.inner
    }
}

/// Packets that are still to be sent.
pub struct Sending {
    key: Option<NodePublicKey>,
    packets: VecDeque<Packet>,
    rest: VecDeque<(PeerId, Vec<Packet>)>,
}

/// What a [`Sending`] holds.
#[verifier::ext_equal]
pub struct SendQueue {
    /// The key of the peer whose turn it is.
    pub key: Option<NodePublicKey>,
    /// The packets that it has yet to get.
    pub packets: Seq<Packet>,
    /// The peers that follow.
    pub rest: Seq<(PeerId, Vec<Packet>)>,
}

impl View for Sending {
    type V = SendQueue;

    closed spec fn view(&self) -> SendQueue {
        SendQueue { key: self.key, packets: self.packets@, rest: self.rest@ }
    }
}

impl Sending {
    /// Whether packets wait only for a peer whose key is known.
    pub closed spec fn wf(self) -> bool {
        self.packets@.len() > 0 ==> self.key is Some
    }
}

/// What is to be done next. `E` is how sending a packet fails.
#[derive(Debug)]
pub enum SendStep<E> {
    /// Send this packet to this key.
    SendOne {
        /// The key.
        node_key: NodePublicKey,
        /// The packet.
        packet: Packet,
    },
    /// No key is known for this peer: its packets are dropped.
    UnknownPeer(PeerId),
    /// Nothing is left to do.
    Finished(Result<(), E>),
}

/// A queue of packets with nothing left in it.
pub open spec fn nothing_queued() -> SendQueue {
    SendQueue { key: None, packets: Seq::empty(), rest: Seq::empty() }
}

/// Whether `lookup` may say `key` for the peer `id`.
pub open spec fn says_key<Lookup: PeerLookup>(
    lookup: Lookup,
    id: PeerId,
    key: Option<NodePublicKey>,
) -> bool {
    call_ensures(Lookup::id_to_key, (&lookup, id), key)
}

/// Whether `lookup` may say `id` for the peer that has `key`.
pub open spec fn says_id<Lookup: PeerLookup>(
    lookup: Lookup,
    key: NodePublicKey,
    id: PeerId,
) -> bool {
    call_ensures(Lookup::key_to_id, (&lookup, &key), id)
}

impl<NkT, Lookup: PeerLookup> Transport<NkT, Lookup> {
    /// Puts what was received from a node key under the id of its peer.
    pub fn recv<E>(&self, received: Result<(NodePublicKey, Packet), E>) -> (items: [Result<
        (PeerId, [Packet; 1]),
        E,
    >; 1])
        ensures
            match received {
                Ok((key, packet)) => {
                    &&& items[0] is Ok
                    &&& says_id(self.lookup(), key, items[0]->Ok_0.0)
                    &&& items[0]->Ok_0.1@ == seq![packet]
                },
                Err(e) => items[0] == Err::<(PeerId, [Packet; 1]), E>(e),
            },
    {
        let result = match received {
            Ok((key, packet)) => {
                let id = self.peer_lookup.key_to_id(&key);
                Ok((id, [packet]))
            },
            Err(e) => Err(e),
        };
        [result]
    }

    /// Queues a batch of packets, each peer's packets behind those of the peer before it.
    pub fn send(&self, peer_packets: Vec<(PeerId, Vec<Packet>)>) -> (sending: Sending)
        ensures
            sending.wf(),
            sending@ == (SendQueue { rest: peer_packets@, ..nothing_queued() }),
    {
        let mut rest: VecDeque<(PeerId, Vec<Packet>)> = VecDeque::new();
        for batch in it: peer_packets.into_iter()
            invariant
                it.seq() == peer_packets@,
                rest@ == peer_packets@.take(it.index() as int),
        {
            rest.push_back(batch);
        }
        Sending { key: None, packets: VecDeque::new(), rest }
    }

    /// Says what to do next in sending a batch, given how the last packet fared. Before the first
    /// packet, and after an unknown peer, nothing has failed.
    ///
    /// A packet that fails ends the batch. A peer is looked up when its turn comes.
    pub fn send_next<E>(&self, sending: &mut Sending, last: Result<(), E>) -> (step: SendStep<E>)
        requires
            old(sending).wf(),
        ensures
            final(sending).wf(),
            match last {
                Ok(()) => sends_next(self.lookup(), old(sending)@, step, final(sending)@),
                Err(e) => {
                    &&& step == SendStep::Finished(Err::<(), E>(e))
                    &&& final(sending)@ == nothing_queued()
                },
            },
    {
        if let Err(e) = last {
            sending.key = None;
            sending.packets.clear();
            sending.rest.clear();
            return SendStep::Finished(Err(e));
        }
        let ghost before = sending@;
        if let Some(packet) = sending.packets.pop_front() {
            if let Some(node_key) = sending.key {
                assert(sending@.packets =~= before.packets.skip(1));
                return SendStep::SendOne { node_key, packet };
            }
        }
        sending.key = None;
        let ghost mut skipped: int = 0;
        proof {
            assert(before.rest.skip(0) =~= before.rest);
        }
        loop
            invariant
                last is Ok,
                before == old(sending)@,
                before.packets.len() == 0,
                sending.key is None,
                sending.packets@.len() == 0,
                0 <= skipped <= before.rest.len(),
                sending.rest@ == before.rest.skip(skipped),
                skips(self.lookup(), before.rest, skipped),
            decreases sending.rest@.len(),
        {
            let ghost left = sending.rest@;
            match sending.rest.pop_front() {
                None => {
                    let step = SendStep::Finished(Ok(()));
                    proof {
                        assert(sending@ =~= nothing_queued());
                        assert(sends_behind(self.lookup(), before, skipped, step, sending@));
                    }
                    return step;
                },
                Some((peer, packets)) => {
                    proof {
                        assert(left.skip(1) =~= before.rest.skip(skipped + 1));
                        assert(before.rest[skipped] == (peer, packets));
                    }
                    match self.peer_lookup.id_to_key(peer) {
                        None => {
                            let step = SendStep::UnknownPeer(peer);
                            proof {
                                assert(sending@.packets =~= Seq::empty());
                                assert(sends_behind(
                                    self.lookup(),
                                    before,
                                    skipped,
                                    step,
                                    sending@,
                                ));
                            }
                            return step;
                        },
                        Some(node_key) => {
                            let mut queue = queue_packets(packets);
                            if let Some(packet) = queue.pop_front() {
                                sending.key = Some(node_key);
                                sending.packets = queue;
                                let step = SendStep::SendOne { node_key, packet };
                                proof {
                                    assert(sending@.packets =~= packets@.skip(1));
                                    assert(sends_behind(
                                        self.lookup(),
                                        before,
                                        skipped,
                                        step,
                                        sending@,
                                    ));
                                }
                                return step;
                            }
                            proof {
                                assert(says_key(self.lookup(), peer, Some(node_key)));
                                skipped = skipped + 1;
                            }
                        },
                    }
                },
            }
        }
    }
}

/// Queues the packets of one peer.
fn queue_packets(packets: Vec<Packet>) -> (queue: VecDeque<Packet>)
    ensures
        queue@ == packets@,
{
    let mut queue: VecDeque<Packet> = VecDeque::new();
    for packet in it: packets.into_iter()
        invariant
            it.seq() == packets@,
            queue@ == packets@.take(it.index() as int),
    {
        queue.push_back(packet);
    }
    queue
}

/// Whether the first `n` peers of `rest` have a key and no packets.
pub open spec fn skips<Lookup: PeerLookup>(
    lookup: Lookup,
    rest: Seq<(PeerId, Vec<Packet>)>,
    n: int,
) -> bool {
    &&& 0 <= n <= rest.len()
    &&& forall|i: int|
        0 <= i < n ==> (#[trigger] rest[i]).1@.len() == 0 && exists|key: NodePublicKey|
            #[trigger] says_key(lookup, rest[i].0, Some(key))
}

/// Whether `step` is what comes next behind the first `n` peers that follow in `before`, which get
/// nothing, and `after` is queued then.
pub open spec fn sends_behind<Lookup: PeerLookup, E>(
    lookup: Lookup,
    before: SendQueue,
    n: int,
    step: SendStep<E>,
    after: SendQueue,
) -> bool {
    &&& skips(lookup, before.rest, n)
    &&& match step {
        SendStep::SendOne { node_key, packet } => {
            &&& n < before.rest.len()
            &&& says_key(lookup, before.rest[n].0, Some(node_key))
            &&& before.rest[n].1@.len() > 0
            &&& packet == before.rest[n].1@[0]
            &&& after == (SendQueue {
                key: Some(node_key),
                packets: before.rest[n].1@.skip(1),
                rest: before.rest.skip(n + 1),
            })
        },
        SendStep::UnknownPeer(peer) => {
            &&& n < before.rest.len()
            &&& peer == before.rest[n].0
            &&& says_key(lookup, peer, None)
            &&& after == (SendQueue { rest: before.rest.skip(n + 1), ..nothing_queued() })
        },
        SendStep::Finished(result) => {
            &&& n == before.rest.len()
            &&& result is Ok
            &&& after == nothing_queued()
        },
    }
}

/// Whether `step` is what comes next where `before` is queued, and `after` is queued then.
pub open spec fn sends_next<Lookup: PeerLookup, E>(
    lookup: Lookup,
    before: SendQueue,
    step: SendStep<E>,
    after: SendQueue,
) -> bool {
    if before.packets.len() > 0 {
        &&& step == SendStep::<E>::SendOne { node_key: before.key->0, packet: before.packets[0] }
        &&& after == SendQueue { packets: before.packets.skip(1), ..before }
    } else {
        exists|n: int| #[trigger] sends_behind(lookup, before, n, step, after)
    }
}

/// The packets of one peer, each with the key that it goes to.
pub open spec fn under_key(key: NodePublicKey, packets: Seq<Packet>) -> Seq<
    (NodePublicKey, Packet),
> {
    packets.map_values(|packet: Packet| (key, packet))
}

/// The packets of the peers that `look` finds a key for, peer after peer.
pub open spec fn planned_for(
    rest: Seq<(PeerId, Vec<Packet>)>,
    look: spec_fn(PeerId) -> Option<NodePublicKey>,
) -> Seq<(NodePublicKey, Packet)>
    decreases rest.len(),
{
    if rest.len() == 0 {
        Seq::empty()
    } else {
        let first = match look(rest[0].0) {
            Some(key) => under_key(key, rest[0].1@),
            None => Seq::empty(),
        };
        first + planned_for(rest.skip(1), look)
    }
}

/// What is sent of `queue`, in order, where peers have the keys that `look` says and no packet
/// fails.
pub open spec fn planned(
    queue: SendQueue,
    look: spec_fn(PeerId) -> Option<NodePublicKey>,
) -> Seq<(NodePublicKey, Packet)> {
    under_key(queue.key->0, queue.packets) + planned_for(queue.rest, look)
}

proof fn lemma_skipped_plan_nothing<Lookup: PeerLookup>(
    lookup: Lookup,
    look: spec_fn(PeerId) -> Option<NodePublicKey>,
    rest: Seq<(PeerId, Vec<Packet>)>,
    n: int,
)
    requires
        skips(lookup, rest, n),
    ensures
        planned_for(rest, look) == planned_for(rest.skip(n), look),
    decreases n,
{
    if n == 0 {
        assert(rest.skip(0) =~= rest);
    } else {
        assert(rest[0].1@.len() == 0);
        assert forall|i: int| 0 <= i < n - 1 implies (#[trigger] rest.skip(1)[i]).1@.len() == 0
            && exists|key: NodePublicKey| #[trigger]
            says_key(lookup, rest.skip(1)[i].0, Some(key)) by {
            assert(rest.skip(1)[i] == rest[i + 1]);
        }
        lemma_skipped_plan_nothing(lookup, look, rest.skip(1), n - 1);
        assert(rest.skip(1).skip(n - 1) =~= rest.skip(n));
        assert(planned_for(rest, look) =~= planned_for(rest.skip(1), look));
    }
}

/// Where the lookup is settled, a batch is sent packet by packet as planned: in order, to the key
/// of its peer, and without the packets of peers that have no key. Each step leaves less to do, so
/// the batch comes to an end.
pub proof fn law_batch_is_sent_as_planned<Lookup: PeerLookup, E>(
    lookup: Lookup,
    look: spec_fn(PeerId) -> Option<NodePublicKey>,
    before: SendQueue,
    step: SendStep<E>,
    after: SendQueue,
)
    requires
        forall|id: PeerId, key: Option<NodePublicKey>| #[trigger]
            says_key(lookup, id, key) ==> key == look(id),
        sends_next(lookup, before, step, after),
    ensures
        match step {
            SendStep::SendOne { node_key, packet } => planned(before, look) == seq![
                (node_key, packet),
            ] + planned(after, look),
            SendStep::UnknownPeer(peer) => look(peer) is None && planned(before, look) == planned(
                after,
                look,
            ),
            SendStep::Finished(_) => planned(before, look).len() == 0,
        },
        !(step is Finished) ==> after.rest.len() < before.rest.len() || (after.rest.len()
            == before.rest.len() && after.packets.len() < before.packets.len()),
{
    if before.packets.len() > 0 {
        let first = (before.key->0, before.packets[0]);
        assert(under_key(before.key->0, before.packets) =~= seq![first] + under_key(
            before.key->0,
            before.packets.skip(1),
        ));
        assert(planned(before, look) =~= seq![first] + planned(after, look));
    } else {
        let n = choose|n: int| #[trigger] sends_behind(lookup, before, n, step, after);
        lemma_skipped_plan_nothing(lookup, look, before.rest, n);
        let left = before.rest.skip(n);
        assert(planned(before, look) =~= planned_for(left, look));
        match step {
            SendStep::SendOne { node_key, packet } => {
                assert(left[0] == before.rest[n]);
                assert(left.skip(1) =~= before.rest.skip(n + 1));
                assert(look(left[0].0) == Some(node_key));
                assert(under_key(node_key, left[0].1@) =~= seq![(node_key, packet)] + under_key(
                    node_key,
                    left[0].1@.skip(1),
                ));
                assert(planned(before, look) =~= seq![(node_key, packet)] + planned(after, look));
            },
            SendStep::UnknownPeer(peer) => {
                assert(left[0] == before.rest[n]);
                assert(left.skip(1) =~= before.rest.skip(n + 1));
                assert(planned(before, look) =~= planned(after, look));
            },
            SendStep::Finished(_) => {},
        }
    }
}

/// Two batches sent as one are planned as the first and then the second.
pub proof fn law_batches_are_planned_in_turn(
    first: Seq<(PeerId, Vec<Packet>)>,
    second: Seq<(PeerId, Vec<Packet>)>,
    look: spec_fn(PeerId) -> Option<NodePublicKey>,
)
    ensures
        planned_for(first + second, look) == planned_for(first, look) + planned_for(second, look),
    decreases first.len(),
{
    if first.len() == 0 {
        assert(first + second =~= second);
        assert(planned_for(first, look) + planned_for(second, look) =~= planned_for(second, look));
    } else {
        law_batches_are_planned_in_turn(first.skip(1), second, look);
        assert((first + second).skip(1) =~= first.skip(1) + second);
        assert((first + second)[0] == first[0]);
        assert(planned_for(first + second, look) =~= planned_for(first, look) + planned_for(
            second,
            look,
        ));
    }
}

/// What the steps sent, in order.
pub open spec fn sent_by<E>(steps: Seq<SendStep<E>>) -> Seq<(NodePublicKey, Packet)>
    decreases steps.len(),
{
    if steps.len() == 0 {
        Seq::empty()
    } else {
        let rest = sent_by(steps.drop_last());
        match steps.last() {
            SendStep::SendOne { node_key, packet } => rest.push((node_key, packet)),
            _ => rest,
        }
    }
}

/// Whether `steps` lead from one of `queues` to the next, while no packet fails.
pub open spec fn is_sending<Lookup: PeerLookup, E>(
    lookup: Lookup,
    queues: Seq<SendQueue>,
    steps: Seq<SendStep<E>>,
) -> bool {
    &&& queues.len() == steps.len() + 1
    &&& forall|i: int|
        0 <= i < steps.len() ==> sends_next(
            lookup,
            queues[i],
            #[trigger] steps[i],
            queues[i + 1],
        )
}

/// Where the lookup is settled, what was sent of a batch and what is still planned make up the
/// plan, at any time; when nothing is left to do, the whole plan was sent.
pub proof fn law_whole_batch_is_sent<Lookup: PeerLookup, E>(
    lookup: Lookup,
    look: spec_fn(PeerId) -> Option<NodePublicKey>,
    queues: Seq<SendQueue>,
    steps: Seq<SendStep<E>>,
)
    requires
        forall|id: PeerId, key: Option<NodePublicKey>| #[trigger]
            says_key(lookup, id, key) ==> key == look(id),
        is_sending(lookup, queues, steps),
    ensures
        sent_by(steps) + planned(queues.last(), look) == planned(queues[0], look),
        steps.len() > 0 && steps.last() is Finished ==> sent_by(steps) == planned(queues[0], look),
    decreases steps.len(),
{
    if steps.len() == 0 {
        assert(sent_by(steps) + planned(queues[0], look) =~= planned(queues[0], look));
    } else {
        let n = steps.len() - 1;
        assert forall|i: int| 0 <= i < n implies sends_next(
            lookup,
            queues.drop_last()[i],
            #[trigger] steps.drop_last()[i],
            queues.drop_last()[i + 1],
        ) by {
            assert(sends_next(lookup, queues[i], steps[i], queues[i + 1]));
        }
        law_whole_batch_is_sent(lookup, look, queues.drop_last(), steps.drop_last());
        assert(sends_next(lookup, queues[n], steps[n], queues[n + 1]));
        law_batch_is_sent_as_planned(lookup, look, queues[n], steps[n], queues[n + 1]);
        let rest = sent_by(steps.drop_last());
        match steps[n] {
            SendStep::SendOne { node_key, packet } => {
                assert(rest.push((node_key, packet)) + planned(queues[n + 1], look) =~= rest + (
                seq![(node_key, packet)] + planned(queues[n + 1], look)));
            },
            SendStep::UnknownPeer(_) => {},
            SendStep::Finished(_) => {
                assert(queues[n + 1] == nothing_queued());
                assert(planned(queues[n + 1], look) =~= Seq::empty());
                assert(planned(queues[n], look) =~= Seq::empty());
                assert(sent_by(steps) =~= planned(queues[0], look));
            },
        }
    }
}

/// Taking a transport apart gives back what it was made of.
pub proof fn law_parts_come_back<NkT, Lookup>(
    transport: Transport<NkT, Lookup>,
    client: NkT,
    lookup: Lookup,
    parts: (NkT, Lookup),
)
    requires
        call_ensures(Transport::<NkT, Lookup>::new, (client, lookup), transport),
        call_ensures(Transport::<NkT, Lookup>::into_parts, (transport,), parts),
    ensures
        parts == (client, lookup),
{
}

/// How many packets the first `n` entries of `batch` have for peers that `look` finds a key for.
pub open spec fn packets_before(
    batch: Seq<(PeerId, Vec<Packet>)>,
    look: spec_fn(PeerId) -> Option<NodePublicKey>,
    n: int,
) -> int
    decreases n,
{
    if n <= 0 {
        0
    } else if look(batch[0].0) is Some {
        batch[0].1@.len() + packets_before(batch.skip(1), look, n - 1)
    } else {
        packets_before(batch.skip(1), look, n - 1)
    }
}

/// How many of the first `n` entries of `batch` are for peers that `look` finds no key for.
pub open spec fn strangers_before(
    batch: Seq<(PeerId, Vec<Packet>)>,
    look: spec_fn(PeerId) -> Option<NodePublicKey>,
    n: int,
) -> int
    decreases n,
{
    if n <= 0 {
        0
    } else if look(batch[0].0) is None {
        1 + strangers_before(batch.skip(1), look, n - 1)
    } else {
        strangers_before(batch.skip(1), look, n - 1)
    }
}

/// The peers that the steps found no key for, in order.
pub open spec fn strangers_by<E>(steps: Seq<SendStep<E>>) -> Seq<PeerId>
    decreases steps.len(),
{
    if steps.len() == 0 {
        Seq::empty()
    } else {
        let rest = strangers_by(steps.drop_last());
        match steps.last() {
            SendStep::UnknownPeer(peer) => rest.push(peer),
            _ => rest,
        }
    }
}

proof fn lemma_planned_at(
    batch: Seq<(PeerId, Vec<Packet>)>,
    look: spec_fn(PeerId) -> Option<NodePublicKey>,
    i: int,
    j: int,
)
    requires
        0 <= i < batch.len(),
        look(batch[i].0) is Some,
        0 <= j < batch[i].1@.len(),
    ensures
        0 <= packets_before(batch, look, i) + j < planned_for(batch, look).len(),
        planned_for(batch, look)[packets_before(batch, look, i) + j] == (
            look(batch[i].0)->0,
            batch[i].1@[j],
        ),
    decreases i,
{
    if i > 0 {
        assert(batch.skip(1)[i - 1] == batch[i]);
        lemma_planned_at(batch.skip(1), look, i - 1, j);
    }
}

proof fn lemma_planned_len(
    batch: Seq<(PeerId, Vec<Packet>)>,
    look: spec_fn(PeerId) -> Option<NodePublicKey>,
)
    ensures
        planned_for(batch, look).len() == packets_before(batch, look, batch.len() as int),
    decreases batch.len(),
{
    if batch.len() > 0 {
        lemma_planned_len(batch.skip(1), look);
    }
}

/// The peers of `rest` that `look` finds no key for.
spec fn strangers_in(
    rest: Seq<(PeerId, Vec<Packet>)>,
    look: spec_fn(PeerId) -> Option<NodePublicKey>,
) -> Seq<PeerId>
    decreases rest.len(),
{
    if rest.len() == 0 {
        Seq::empty()
    } else if look(rest[0].0) is None {
        seq![rest[0].0] + strangers_in(rest.skip(1), look)
    } else {
        strangers_in(rest.skip(1), look)
    }
}

proof fn lemma_stranger_at(
    batch: Seq<(PeerId, Vec<Packet>)>,
    look: spec_fn(PeerId) -> Option<NodePublicKey>,
    i: int,
)
    requires
        0 <= i < batch.len(),
        look(batch[i].0) is None,
    ensures
        0 <= strangers_before(batch, look, i) < strangers_in(batch, look).len(),
        strangers_in(batch, look)[strangers_before(batch, look, i)] == batch[i].0,
    decreases i,
{
    if i > 0 {
        assert(batch.skip(1)[i - 1] == batch[i]);
        lemma_stranger_at(batch.skip(1), look, i - 1);
    }
}

proof fn lemma_strangers_len(
    batch: Seq<(PeerId, Vec<Packet>)>,
    look: spec_fn(PeerId) -> Option<NodePublicKey>,
)
    ensures
        strangers_in(batch, look).len() == strangers_before(batch, look, batch.len() as int),
    decreases batch.len(),
{
    if batch.len() > 0 {
        lemma_strangers_len(batch.skip(1), look);
    }
}

proof fn lemma_skipped_are_no_strangers<Lookup: PeerLookup>(
    lookup: Lookup,
    look: spec_fn(PeerId) -> Option<NodePublicKey>,
    rest: Seq<(PeerId, Vec<Packet>)>,
    n: int,
)
    requires
        forall|id: PeerId, key: Option<NodePublicKey>| #[trigger]
            says_key(lookup, id, key) ==> key == look(id),
        skips(lookup, rest, n),
    ensures
        strangers_in(rest, look) == strangers_in(rest.skip(n), look),
    decreases n,
{
    if n == 0 {
        assert(rest.skip(0) =~= rest);
    } else {
        assert(rest[0].1@.len() == 0);
        assert(look(rest[0].0) is Some);
        assert forall|i: int| 0 <= i < n - 1 implies (#[trigger] rest.skip(1)[i]).1@.len() == 0
            && exists|key: NodePublicKey| #[trigger]
            says_key(lookup, rest.skip(1)[i].0, Some(key)) by {
            assert(rest.skip(1)[i] == rest[i + 1]);
        }
        lemma_skipped_are_no_strangers(lookup, look, rest.skip(1), n - 1);
        assert(rest.skip(1).skip(n - 1) =~= rest.skip(n));
    }
}

proof fn lemma_strangers_are_reported<Lookup: PeerLookup, E>(
    lookup: Lookup,
    look: spec_fn(PeerId) -> Option<NodePublicKey>,
    queues: Seq<SendQueue>,
    steps: Seq<SendStep<E>>,
)
    requires
        forall|id: PeerId, key: Option<NodePublicKey>| #[trigger]
            says_key(lookup, id, key) ==> key == look(id),
        is_sending(lookup, queues, steps),
    ensures
        strangers_by(steps) + strangers_in(queues.last().rest, look) == strangers_in(
            queues[0].rest,
            look,
        ),
        steps.len() > 0 && steps.last() is Finished ==> queues.last().rest.len() == 0,
    decreases steps.len(),
{
    if steps.len() == 0 {
        assert(strangers_by(steps) + strangers_in(queues[0].rest, look) =~= strangers_in(
            queues[0].rest,
            look,
        ));
    } else {
        let n = steps.len() - 1;
        assert forall|i: int| 0 <= i < n implies sends_next(
            lookup,
            queues.drop_last()[i],
            #[trigger] steps.drop_last()[i],
            queues.drop_last()[i + 1],
        ) by {
            assert(sends_next(lookup, queues[i], steps[i], queues[i + 1]));
        }
        lemma_strangers_are_reported(lookup, look, queues.drop_last(), steps.drop_last());
        assert(sends_next(lookup, queues[n], steps[n], queues[n + 1]));
        let before = queues[n];
        let after = queues[n + 1];
        let told = strangers_by(steps.drop_last());
        if before.packets.len() == 0 {
            let m = choose|m: int| #[trigger] sends_behind(lookup, before, m, steps[n], after);
            lemma_skipped_are_no_strangers(lookup, look, before.rest, m);
            let left = before.rest.skip(m);
            if !(steps[n] is Finished) {
                assert(left[0] == before.rest[m]);
                assert(left.skip(1) =~= before.rest.skip(m + 1));
            }
            if let SendStep::UnknownPeer(peer) = steps[n] {
                assert(told.push(peer) + strangers_in(after.rest, look) =~= told + (seq![peer]
                    + strangers_in(after.rest, look)));
            }
        }
    }
}

/// Where the lookup is settled, every packet of a peer that has a key is sent to that key, at the
/// place that is the number of packets of such peers before it, and nothing else is sent: at any
/// time as far as sending has come, and all of it once it has ended well. Every peer without a key
/// is reported, in order.
pub proof fn law_every_packet_is_sent_in_its_place<Lookup: PeerLookup, E>(
    lookup: Lookup,
    look: spec_fn(PeerId) -> Option<NodePublicKey>,
    batch: Seq<(PeerId, Vec<Packet>)>,
    queues: Seq<SendQueue>,
    steps: Seq<SendStep<E>>,
)
    requires
        forall|id: PeerId, key: Option<NodePublicKey>| #[trigger]
            says_key(lookup, id, key) ==> key == look(id),
        is_sending(lookup, queues, steps),
        queues[0].packets.len() == 0,
        queues[0].rest == batch,
    ensures
        forall|i: int, j: int|
            0 <= i < batch.len() && 0 <= j < (#[trigger] batch[i]).1@.len() && look(batch[i].0)
                is Some && packets_before(batch, look, i) + j < sent_by(steps).len()
                ==> sent_by(steps)[packets_before(batch, look, i) + j] == (
                look(batch[i].0)->0,
                #[trigger] batch[i].1@[j],
            ),
        sent_by(steps).len() <= packets_before(batch, look, batch.len() as int),
        forall|i: int|
            0 <= i < batch.len() && look((#[trigger] batch[i]).0) is None && strangers_before(
                batch,
                look,
                i,
            ) < strangers_by(steps).len() ==> strangers_by(steps)[strangers_before(batch, look, i)]
                == batch[i].0,
        strangers_by(steps).len() <= strangers_before(batch, look, batch.len() as int),
        steps.len() > 0 && steps.last() is Finished ==> {
            &&& steps.last() matches SendStep::Finished(result) && result is Ok
            &&& sent_by(steps).len() == packets_before(batch, look, batch.len() as int)
            &&& strangers_by(steps).len() == strangers_before(batch, look, batch.len() as int)
        },
{
    law_whole_batch_is_sent(lookup, look, queues, steps);
    lemma_strangers_are_reported(lookup, look, queues, steps);
    lemma_planned_len(batch, look);
    lemma_strangers_len(batch, look);
    let plan = planned_for(batch, look);
    assert(planned(queues[0], look) =~= plan);
    let sent = sent_by(steps);
    assert forall|i: int, j: int|
        0 <= i < batch.len() && 0 <= j < (#[trigger] batch[i]).1@.len() && look(batch[i].0) is Some
            && packets_before(batch, look, i) + j < sent.len() implies sent[packets_before(
        batch,
        look,
        i,
    ) + j] == (look(batch[i].0)->0, #[trigger] batch[i].1@[j]) by {
        lemma_planned_at(batch, look, i, j);
        let at = packets_before(batch, look, i) + j;
        assert((sent + planned(queues.last(), look))[at] == sent[at]);
    }
    let told = strangers_by(steps);
    assert forall|i: int|
        0 <= i < batch.len() && look((#[trigger] batch[i]).0) is None && strangers_before(
            batch,
            look,
            i,
        ) < told.len() implies told[strangers_before(batch, look, i)] == batch[i].0 by {
        lemma_stranger_at(batch, look, i);
        let at = strangers_before(batch, look, i);
        assert((told + strangers_in(queues.last().rest, look))[at] == told[at]);
    }
    if steps.len() > 0 && steps.last() is Finished {
        let n = steps.len() - 1;
        assert(sends_next(lookup, queues[n], steps[n], queues[n + 1]));
        assert(strangers_in(queues.last().rest, look).len() == 0);
    }
}

/// A batch is queued whole and in order, and nothing else is.
pub proof fn law_batch_is_queued_whole<NkT, Lookup: PeerLookup>(
    transport: Transport<NkT, Lookup>,
    batch: Vec<(PeerId, Vec<Packet>)>,
    sending: Sending,
)
    requires
        call_ensures(Transport::<NkT, Lookup>::send, (&transport, batch), sending),
    ensures
        sending@.packets.len() == 0,
        sending@.rest == batch@,
{
}

/// A call of [`Transport::send_next`] after a packet that went well is a step of sending; after one
/// that failed it ends the batch with that failure, and nothing is left to send.
pub proof fn law_calls_are_steps_of_sending<NkT, Lookup: PeerLookup, E>(
    transport: Transport<NkT, Lookup>,
    before: Sending,
    last: Result<(), E>,
    step: SendStep<E>,
    after: Sending,
)
    requires
        exists|sending: &mut Sending|
            {
                &&& *sending == before
                &&& *final(sending) == after
                &&& #[trigger] call_ensures(
                    Transport::<NkT, Lookup>::send_next::<E>,
                    (&transport, sending, last),
                    step,
                )
            },
    ensures
        last is Ok ==> is_sending(transport.lookup(), seq![before@, after@], seq![step]),
        last matches Err(e) ==> {
            &&& step == SendStep::Finished(Err::<(), E>(e))
            &&& after@.packets.len() == 0
            &&& after@.rest.len() == 0
        },
{
}

/// What was received from a key stands, alone, under an id that the lookup gives for the key; a
/// failure is handed on.
pub proof fn law_received_packet_is_handed_on<NkT, Lookup: PeerLookup, E>(
    transport: Transport<NkT, Lookup>,
    received: Result<(NodePublicKey, Packet), E>,
    items: [Result<(PeerId, [Packet; 1]), E>; 1],
)
    requires
        call_ensures(Transport::<NkT, Lookup>::recv::<E>, (&transport, received), items),
    ensures
        match (received, items[0]) {
            (Ok((key, packet)), Ok((id, packets))) => {
                &&& call_ensures(Lookup::key_to_id, (&transport.lookup(), &key), id)
                &&& packets[0] == packet
            },
            (Err(e), Err(handed)) => handed == e,
            _ => false,
        },
{
}

/// A transport lends out the client that it was made with.
pub proof fn law_client_is_lent_out<NkT, Lookup>(
    transport: Transport<NkT, Lookup>,
    client: NkT,
    lookup: Lookup,
    lent: &NkT,
)
    requires
        call_ensures(Transport::<NkT, Lookup>::new, (client, lookup), transport),
        call_ensures(Transport::<NkT, Lookup>::inner, (&transport,), lent),
    ensures
        *lent == client,
        transport.lookup() == lookup,
{
}

/// Calls of [`Transport::send_next`] after packets that went well, each on what the one before it
/// left, are sending, however many they are.
pub proof fn law_calls_make_a_sending<NkT, Lookup: PeerLookup, E>(
    transport: Transport<NkT, Lookup>,
    queues: Seq<SendQueue>,
    steps: Seq<SendStep<E>>,
    before: Sending,
    last: Result<(), E>,
    step: SendStep<E>,
    after: Sending,
)
    requires
        is_sending(transport.lookup(), queues, steps),
        queues.last() == before@,
        last is Ok,
        exists|sending: &mut Sending|
            {
                &&& *sending == before
                &&& *final(sending) == after
                &&& #[trigger] call_ensures(
                    Transport::<NkT, Lookup>::send_next::<E>,
                    (&transport, sending, last),
                    step,
                )
            },
    ensures
        is_sending(transport.lookup(), queues.push(after@), steps.push(step)),
        is_sending(transport.lookup(), seq![before@], Seq::<SendStep<E>>::empty()),
{
    let more = steps.push(step);
    let all = queues.push(after@);
    assert forall|i: int| 0 <= i < more.len() implies sends_next(
        transport.lookup(),
        all[i],
        #[trigger] more[i],
        all[i + 1],
    ) by {
        if i < steps.len() {
            assert(sends_next(transport.lookup(), queues[i], steps[i], queues[i + 1]));
        }
    }
}

} // verus!
