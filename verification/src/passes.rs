//! What holds of whole passes of the data plane, whatever the replies are.

use std::time::Instant;

use vstd::prelude::*;

use crate::dataplane::{
    adds_next, answers, asks_for_keys, closer, miscounts, moves, unnamed, DataPlane, InboundResult, Outcome,
    OutboundResult, OverlayPackets, Reply, Request, Stage, Subsystem,
};
use crate::filter::{
    delivered, lemma_filter_map_keeps, owners_fit, paired, readable, told, truly_sourced,
};
use crate::groups::{
    addressed, enrolled_all, ids_suffice, keyed, latest, law_groups_are_named_by_their_keys,
    law_known_keys_are_named_as_they_are, law_naming_keeps_consistent, lemma_latest_behind, named,
    named_once, under_peer,
};
use crate::peer_map::PeerTables;
use crate::types::{NodePublicKey, Packet, PeerId, TunnelPeerId};

verus! {

/// A step of a pass: a reply that was taken, and what followed.
pub struct Step<H> {
    /// The data plane before.
    pub before: DataPlane<H>,
    /// The peers before.
    pub tables: PeerTables,
    /// The reply.
    pub reply: Reply<H>,
    /// The data plane after.
    pub after: DataPlane<H>,
    /// The peers after.
    pub tables_after: PeerTables,
    /// What is asked for then.
    pub request: Request<H>,
}

impl<H> Step<H> {
    /// Whether the step is one that [`DataPlane::resume`] takes.
    pub open spec fn taken(self) -> bool {
        &&& self.before.wf()
        &&& !miscounts(self.before.stage, self.reply)
        &&& moves(
            self.before,
            self.tables,
            self.reply,
            self.after,
            self.tables_after,
            self.request,
        )
    }
}

/// Whether the step at place `i` of `run` starts where the one before it ended.
pub open spec fn follows<H>(run: Seq<Step<H>>, i: int) -> bool {
    run[i].before == run[i - 1].after && run[i].tables == run[i - 1].tables_after
}

/// Whether the steps in `run` were taken one after the other.
pub open spec fn is_run<H>(run: Seq<Step<H>>) -> bool {
    &&& forall|i: int| 0 <= i < run.len() ==> (#[trigger] run[i]).taken()
    &&& forall|i: int| 0 < i < run.len() ==> #[trigger] follows(run, i)
}

pub(crate) proof fn lemma_run_before<H>(run: Seq<Step<H>>)
    requires
        is_run(run),
        run.len() > 0,
    ensures
        is_run(run.drop_last()),
{
    let rest = run.drop_last();
    assert forall|i: int| 0 <= i < rest.len() implies (#[trigger] rest[i]).taken() by {
        assert(run[i].taken());
    }
    assert forall|i: int| 0 < i < rest.len() implies #[trigger] follows(rest, i) by {
        assert(follows(run, i));
    }
}

/// A step leaves less to do, and leaves the data plane sound.
pub proof fn law_step_gets_closer<H>(step: Step<H>)
    requires
        step.taken(),
    ensures
        closer(step.after.stage, step.before.stage),
        step.after.wf(),
{
}

/// Every pass ends: no more replies are taken than were left when it was known how many there can
/// be, and they end no later.
pub proof fn law_pass_ends<H>(run: Seq<Step<H>>)
    requires
        is_run(run),
        run.len() > 0,
        run[0].before.stage.steps_left() is Some,
    ensures
        run.last().after.stage.steps_left() is Some,
        0 <= run.last().after.stage.steps_left()->0 <= run[0].before.stage.steps_left()->0
            - run.len(),
    decreases run.len(),
{
    assert(run[run.len() - 1].taken());
    law_step_gets_closer(run.last());
    if run.len() > 1 {
        let rest = run.drop_last();
        lemma_run_before(run);
        law_pass_ends(rest);
        assert(follows(run, run.len() - 1));
    }
}

/// A pass over outbound packets takes at most two replies for each group that goes to a known peer,
/// and six more.
pub proof fn law_outbound_pass_ends<H>(
    run: Seq<Step<H>>,
    to_wireguard: Vec<(PeerId, Vec<Packet>)>,
    loopback: OverlayPackets,
)
    requires
        is_run(run),
        run.len() > 0,
        run[0].before.stage is OutRouting,
        run[0].reply == (Reply::<H>::OutboundRouted { to_wireguard, loopback }),
    ensures
        run.len() <= 2 * to_wireguard@.filter_map(keyed(run[0].tables)).len() + 6,
{
    assert(run[0].taken());
    if run.len() > 1 {
        lemma_run_behind(run);
        law_pass_ends(run.drop_first());
    }
}

/// A pass over timers takes at most two replies for each event, and four more.
pub proof fn law_events_pass_ends<H>(run: Seq<Step<H>>, due: Vec<Subsystem>)
    requires
        is_run(run),
        run.len() > 0,
        run[0].before.stage is EvDispatching,
        run[0].reply == Reply::<H>::TimersDispatched(due),
    ensures
        run.len() <= 2 * due@.len() + 4,
{
    assert(run[0].taken());
    if run.len() > 1 {
        lemma_run_behind(run);
        law_pass_ends(run.drop_first());
    }
}

proof fn lemma_run_behind<H>(run: Seq<Step<H>>)
    requires
        is_run(run),
        run.len() > 1,
    ensures
        is_run(run.drop_first()),
        run.drop_first()[0].before == run[0].after,
        run.drop_first()[0].tables == run[0].tables_after,
{
    let rest = run.drop_first();
    assert forall|i: int| 0 <= i < rest.len() implies (#[trigger] rest[i]).taken() by {
        assert(run[i + 1].taken());
    }
    assert forall|i: int| 0 < i < rest.len() implies #[trigger] follows(rest, i) by {
        assert(follows(run, i + 1));
    }
    assert(follows(run, 1));
}

/// Whether `reply` is of the kind that `request` asks for.
pub open spec fn is_reply_to<H>(request: Request<H>, reply: Reply<H>) -> bool {
    match request {
        Request::RouteOutbound(_) => reply is OutboundRouted,
        Request::AddPeer(_) => reply is PeerAdded,
        Request::FindPeer(_) => reply is PeerFound,
        Request::Send(_) => reply is Sent,
        Request::PeerKeys(_) => reply is PeerKeys,
        Request::RouteUnderlay(_) => reply is UnderlayRouted,
        Request::Receive(_) => reply is Received,
        Request::LookUpSources => reply is SourcesLookedUp,
        Request::Judge(_) => reply is Judged,
        Request::RouteInbound(_) => reply is InboundRouted,
        Request::DispatchTimers(_) => reply is TimersDispatched,
        Request::DispatchWireguard(_) => reply is WireguardDispatched,
        Request::NextEvent => reply is NextEvent,
        Request::Schedule(_, _) => reply is Scheduled,
        Request::Finish { .. } => false,
    }
}

/// The replies that are taken after a step are those of the kind that was asked for. When the pass
/// is over, and only then, none is.
pub proof fn law_the_answer_is_awaited<H>(step: Step<H>, reply: Reply<H>)
    requires
        step.taken(),
    ensures
        answers(step.after.stage, reply) <==> is_reply_to(step.request, reply),
        step.after.stage is Idle <==> step.request is Finish,
{
}

/// A reply that has as many answers as the request has items is not refused for its count.
pub proof fn law_a_full_answer_counts_right<H>(step: Step<H>, reply: Reply<H>)
    requires
        step.taken(),
    ensures
        match (step.request, reply) {
            (Request::PeerKeys(ids), Reply::PeerKeys(keys)) => miscounts(step.after.stage, reply)
                <==> keys@.len() != ids@.len(),
            (Request::Judge(infos), Reply::Judged(verdicts)) => {
                miscounts(step.after.stage, reply) <==> verdicts@.len() != infos@.len()
            },
            _ => true,
        },
{
    if let (Stage::InFiltering { groups, .. }, Reply::SourcesLookedUp(owners)) = (
        step.before.stage,
        step.reply,
    ) {
        lemma_as_many_told(truly_sourced(groups@, owners@));
    }
}

proof fn lemma_as_many_told(packets: Seq<Packet>)
    ensures
        packets.filter_map(readable()).len() == packets.filter_map(told()).len(),
    decreases packets.len(),
{
    if packets.len() > 0 {
        lemma_as_many_told(packets.drop_last());
    }
}

/// Each group under the tunnel peer that `ids` gives for its key.
pub open spec fn bound(
    groups: Seq<(NodePublicKey, Vec<Packet>)>,
    ids: spec_fn(NodePublicKey) -> TunnelPeerId,
) -> Seq<(TunnelPeerId, Vec<Packet>)> {
    groups.map_values(|group: (NodePublicKey, Vec<Packet>)| (ids(group.0), group.1))
}

/// Whether the tunnel gives the peer that a step adds or finds the id that `ids` gives for its key.
pub open spec fn gives<H>(step: Step<H>, ids: spec_fn(NodePublicKey) -> TunnelPeerId) -> bool {
    match (step.before.stage, step.reply) {
        (Stage::OutAdding { key, .. }, Reply::PeerAdded(Some(id))) => id == ids(key),
        (Stage::OutFinding { key, .. }, Reply::PeerFound(Some(id))) => id == ids(key),
        _ => true,
    }
}

/// What an outbound pass in `stage` will send, where `ids` gives the tunnel peers.
pub open spec fn to_be_sent(
    stage: Stage,
    ids: spec_fn(NodePublicKey) -> TunnelPeerId,
) -> Option<Seq<(TunnelPeerId, Vec<Packet>)>> {
    match stage {
        Stage::OutAdding { ready, key, packets, waiting, .. } => Some(
            ready@.push((ids(key), packets)) + bound(waiting@, ids),
        ),
        Stage::OutFinding { ready, key, packets, waiting, .. } => Some(
            ready@.push((ids(key), packets)) + bound(waiting@, ids),
        ),
        _ => None,
    }
}

/// What an outbound pass in `stage` loops back.
pub open spec fn looped_back(stage: Stage) -> Option<OverlayPackets> {
    match stage {
        Stage::OutAdding { loopback, .. } => Some(loopback),
        Stage::OutFinding { loopback, .. } => Some(loopback),
        Stage::OutSending { loopback } => Some(loopback),
        Stage::OutNaming { loopback, .. } => Some(loopback),
        Stage::OutDelivering { loopback } => Some(loopback),
        Stage::Arming { outcome: Outcome::Outbound(result) } => Some(result.loopback),
        Stage::Scheduling { outcome: Outcome::Outbound(result) } => Some(result.loopback),
        _ => None,
    }
}

proof fn lemma_adding_keeps_plan<H>(step: Step<H>, ids: spec_fn(NodePublicKey) -> TunnelPeerId)
    requires
        step.taken(),
        gives(step, ids),
        to_be_sent(step.before.stage, ids) is Some,
    ensures
        match step.request {
            Request::Send(batch) => Some(batch@) == to_be_sent(step.before.stage, ids),
            _ => to_be_sent(step.after.stage, ids) == to_be_sent(step.before.stage, ids),
        },
{
    match (step.before.stage, step.reply) {
        (
            Stage::OutAdding { ready, key, packets, waiting, .. },
            Reply::PeerAdded(Some(id)),
        ) => lemma_next_keeps_plan(ready@.push((id, packets)), waiting@, step, ids),
        (
            Stage::OutFinding { ready, key, packets, waiting, .. },
            Reply::PeerFound(Some(id)),
        ) => lemma_next_keeps_plan(ready@.push((id, packets)), waiting@, step, ids),
        _ => {},
    }
}

proof fn lemma_next_keeps_plan<H>(
    ready: Seq<(TunnelPeerId, Vec<Packet>)>,
    waiting: Seq<(NodePublicKey, Vec<Packet>)>,
    step: Step<H>,
    ids: spec_fn(NodePublicKey) -> TunnelPeerId,
)
    requires
        exists|loopback: OverlayPackets| #[trigger]
            adds_next(loopback, ready, waiting, step.after.stage, step.request),
    ensures
        match step.request {
            Request::Send(batch) => batch@ == ready + bound(waiting, ids),
            _ => to_be_sent(step.after.stage, ids) == Some(ready + bound(waiting, ids)),
        },
{
    if waiting.len() == 0 {
        assert(ready + bound(waiting, ids) =~= ready);
    } else {
        assert(ready.push((ids(waiting[0].0), waiting[0].1)) + bound(waiting.skip(1), ids) =~= ready
            + bound(waiting, ids));
    }
}

/// An outbound pass sends what the overlay routes to known peers, group by group and in order, each
/// under the tunnel's id for the key of its peer, and nothing else; what the overlay loops back
/// comes back as it was.
pub proof fn law_outbound_sends_to_known_peers<H>(
    run: Seq<Step<H>>,
    to_wireguard: Vec<(PeerId, Vec<Packet>)>,
    loopback: OverlayPackets,
    ids: spec_fn(NodePublicKey) -> TunnelPeerId,
)
    requires
        is_run(run),
        run.len() > 0,
        run[0].before.stage is OutRouting,
        run[0].reply == (Reply::<H>::OutboundRouted { to_wireguard, loopback }),
        forall|i: int| 0 <= i < run.len() ==> gives(#[trigger] run[i], ids),
    ensures
        match run.last().request {
            Request::Send(batch) => batch@ == bound(
                to_wireguard@.filter_map(keyed(run[0].tables)),
                ids,
            ),
            Request::Finish { outcome, .. } => {
                outcome matches Outcome::Outbound(result) && result.loopback == loopback
            },
            _ => {
                &&& looped_back(run.last().after.stage) == Some(loopback)
                &&& match to_be_sent(run.last().after.stage, ids) {
                    Some(plan) => plan == bound(
                        to_wireguard@.filter_map(keyed(run[0].tables)),
                        ids,
                    ),
                    None => !(run.last().request is AddPeer || run.last().request is FindPeer),
                }
            },
        },
        run.last().request is Send ==> looped_back(run.last().after.stage) == Some(loopback),
    decreases run.len(),
{
    let last = run[run.len() - 1];
    assert(last.taken());
    let groups = to_wireguard@.filter_map(keyed(run[0].tables));
    if run.len() == 1 {
        assert(adds_next(loopback, Seq::empty(), groups, last.after.stage, last.request));
        lemma_next_keeps_plan(Seq::empty(), groups, last, ids);
        assert(Seq::empty() + bound(groups, ids) =~= bound(groups, ids));
    } else {
        let rest = run.drop_last();
        lemma_run_before(run);
        assert forall|i: int| 0 <= i < rest.len() implies gives(#[trigger] rest[i], ids) by {
            assert(gives(run[i], ids));
        }
        law_outbound_sends_to_known_peers(rest, to_wireguard, loopback, ids);
        assert(follows(run, run.len() - 1));
        assert(gives(last, ids));
        if to_be_sent(last.before.stage, ids) is Some {
            lemma_adding_keeps_plan(last, ids);
        }
    }
}

/// Up to the encryption, an outbound pass leaves the peers as they are.
proof fn lemma_peers_stay_until_sent<H>(run: Seq<Step<H>>)
    requires
        is_run(run),
        run.len() > 0,
        run[0].before.stage is OutRouting,
        ({
            let stage = run.last().after.stage;
            stage is OutAdding || stage is OutFinding || stage is OutSending
        }),
    ensures
        run.last().tables_after == run[0].tables,
        run.last().after.stage is OutSending ==> run.last().request is Send,
    decreases run.len(),
{
    assert(run[run.len() - 1].taken());
    if run.len() > 1 {
        assert(follows(run, run.len() - 1));
        assert(run[run.len() - 2].taken());
        lemma_run_before(run);
        lemma_peers_stay_until_sent(run.drop_last());
    }
}

/// The end of an outbound run that has named what was sent: the groups were bound and sent two
/// steps before, and are named by the peers that there were at the start.
proof fn lemma_outbound_names<H>(
    run: Seq<Step<H>>,
    to_wireguard: Vec<(PeerId, Vec<Packet>)>,
    loopback: OverlayPackets,
    ids: spec_fn(NodePublicKey) -> TunnelPeerId,
    encrypted: Vec<(TunnelPeerId, Vec<Packet>)>,
    keys: Vec<Option<NodePublicKey>>,
)
    requires
        named_outbound(run, to_wireguard, loopback, ids, encrypted, keys),
    ensures
        run.len() >= 3,
        run[run.len() - 3].request matches Request::Send(batch) && batch@ == bound(
            to_wireguard@.filter_map(keyed(run[0].tables)),
            ids,
        ),
        keys@.len() == encrypted@.len(),
        run.last().request matches Request::RouteUnderlay(routed) && routed@ == addressed(
            named(run[0].tables, keys@, group_packets(encrypted@)),
        ),
        run.last().tables_after == enrolled_all(run[0].tables, keys@),
{
    let n = run.len() as int;
    assert(run[n - 1].taken());
    assert(run[n - 2].taken());
    assert(follows(run, n - 1));
    assert(run[n - 2].before.stage is OutSending);
    assert(follows(run, n - 2));
    let head = run.drop_last().drop_last();
    lemma_run_before(run);
    lemma_run_before(run.drop_last());
    lemma_peers_stay_until_sent(head);
    assert forall|i: int| 0 <= i < head.len() implies gives(#[trigger] head[i], ids) by {
        assert(gives(run[i], ids));
    }
    law_outbound_sends_to_known_peers(head, to_wireguard, loopback, ids);
}

/// Whether `run` is an outbound pass from the routing of packets to the naming of what was sent:
/// the overlay gave `to_wireguard` and `loopback`, the tunnel has the ids that `ids` gives, it made
/// `encrypted`, and it gave `keys` for that.
pub open spec fn named_outbound<H>(
    run: Seq<Step<H>>,
    to_wireguard: Vec<(PeerId, Vec<Packet>)>,
    loopback: OverlayPackets,
    ids: spec_fn(NodePublicKey) -> TunnelPeerId,
    encrypted: Vec<(TunnelPeerId, Vec<Packet>)>,
    keys: Vec<Option<NodePublicKey>>,
) -> bool {
    &&& is_run(run)
    &&& run.len() > 1
    &&& run[0].before.stage is OutRouting
    &&& run[0].reply == (Reply::<H>::OutboundRouted { to_wireguard, loopback })
    &&& forall|i: int| 0 <= i < run.len() ==> gives(#[trigger] run[i], ids)
    &&& run[run.len() - 2].reply == Reply::<H>::Sent(encrypted)
    &&& run[run.len() - 1].reply == Reply::<H>::PeerKeys(keys)
}

/// What the overlay routes to a known peer is handed to the underlay under the id of that peer: it
/// is sent under the tunnel's id for the peer's key, and all that the tunnel makes for that id goes
/// to the peer, as long as the tunnel gives back the key for the id and ids suffice.
pub proof fn law_packets_go_where_they_were_routed<H>(
    run: Seq<Step<H>>,
    to_wireguard: Vec<(PeerId, Vec<Packet>)>,
    loopback: OverlayPackets,
    ids: spec_fn(NodePublicKey) -> TunnelPeerId,
    encrypted: Vec<(TunnelPeerId, Vec<Packet>)>,
    keys: Vec<Option<NodePublicKey>>,
    k: int,
    key: NodePublicKey,
)
    requires
        named_outbound(run, to_wireguard, loopback, ids, encrypted, keys),
        run[0].tables.consistent(),
        ids_suffice(run[0].tables, keys@),
        0 <= k < to_wireguard@.len(),
        run[0].tables.peers.contains_key(to_wireguard@[k].0.0),
        key == run[0].tables.peers[to_wireguard@[k].0.0].node_key,
        forall|i: int|
            0 <= i < encrypted@.len() && (#[trigger] encrypted@[i]).0 == ids(key) ==> keys@[i]
                == Some(key),
    ensures
        run.len() >= 3,
        run[run.len() - 3].request matches Request::Send(batch) && batch@.contains(
            (ids(key), to_wireguard@[k].1),
        ),
        run.last().request matches Request::RouteUnderlay(routed) && forall|i: int|
            0 <= i < encrypted@.len() && (#[trigger] encrypted@[i]).0 == ids(key)
                ==> routed@.contains((to_wireguard@[k].0, encrypted@[i].1)),
{
    let tables = run[0].tables;
    let packets = group_packets(encrypted@);
    lemma_outbound_names(run, to_wireguard, loopback, ids, encrypted, keys);
    let known = to_wireguard@.filter_map(keyed(tables));
    lemma_filter_map_keeps(to_wireguard@, keyed(tables), k, (key, to_wireguard@[k].1));
    let j = choose|j: int| 0 <= j < known.len() && known[j] == (key, to_wireguard@[k].1);
    assert(bound(known, ids)[j] == (ids(key), to_wireguard@[k].1));
    law_groups_are_named_by_their_keys(tables, keys@, packets);
    let after = enrolled_all(tables, keys@);
    let pairs = paired(keys@, packets);
    let kept = named(tables, keys@, packets);
    assert(tables.ids.contains_key(key));
    assert(after.info_for(key).peer_id == to_wireguard@[k].0);
    assert forall|i: int|
        0 <= i < encrypted@.len() && (#[trigger] encrypted@[i]).0 == ids(key) implies addressed(
        kept,
    ).contains((to_wireguard@[k].0, encrypted@[i].1)) by {
        let to = (after.info_for(key), encrypted@[i].1);
        lemma_filter_map_keeps(pairs, under_peer(after), i, to);
        let m = choose|m: int| 0 <= m < kept.len() && kept[m] == to;
        assert(addressed(kept)[m] == (to_wireguard@[k].0, encrypted@[i].1));
    }
}

/// Picks a group whose peer `tables` know.
pub open spec fn known_group(tables: PeerTables) -> spec_fn((PeerId, Vec<Packet>)) -> Option<
    (PeerId, Vec<Packet>),
> {
    |group: (PeerId, Vec<Packet>)|
        if tables.peers.contains_key(group.0.0) {
            Some(group)
        } else {
            None
        }
}

proof fn lemma_known_groups(tables: PeerTables, groups: Seq<(PeerId, Vec<Packet>)>)
    ensures
        ({
            let known = groups.filter_map(known_group(tables));
            let keys = groups.filter_map(keyed(tables));
            &&& known.len() == keys.len()
            &&& forall|i: int|
                0 <= i < known.len() ==> {
                    &&& tables.peers.contains_key((#[trigger] known[i]).0.0)
                    &&& keys[i] == (tables.peers[known[i].0.0].node_key, known[i].1)
                }
        }),
    decreases groups.len(),
{
    if groups.len() > 0 {
        lemma_known_groups(tables, groups.drop_last());
    }
}

/// Where the tunnel makes one group of each that it is sent, and gives back the keys, the underlay
/// gets one group for each that the overlay routes to a known peer, in order and under the id that
/// the overlay gave; no peer is added.
pub proof fn law_underlay_gets_what_the_overlay_routed<H>(
    run: Seq<Step<H>>,
    to_wireguard: Vec<(PeerId, Vec<Packet>)>,
    loopback: OverlayPackets,
    ids: spec_fn(NodePublicKey) -> TunnelPeerId,
    encrypted: Vec<(TunnelPeerId, Vec<Packet>)>,
    keys: Vec<Option<NodePublicKey>>,
)
    requires
        named_outbound(run, to_wireguard, loopback, ids, encrypted, keys),
        run[0].tables.consistent(),
        ({
            let sent = to_wireguard@.filter_map(keyed(run[0].tables));
            &&& encrypted@.len() == sent.len()
            &&& forall|i: int|
                0 <= i < sent.len() ==> (#[trigger] encrypted@[i]).0 == ids(sent[i].0) && keys@[i]
                    == Some(sent[i].0)
        }),
    ensures
        ({
            let known = to_wireguard@.filter_map(known_group(run[0].tables));
            run.last().request matches Request::RouteUnderlay(routed) && routed@ == Seq::new(
                known.len(),
                |i: int| (known[i].0, encrypted@[i].1),
            )
        }),
        run.last().tables_after == run[0].tables,
{
    let tables = run[0].tables;
    let packets = group_packets(encrypted@);
    let sent = to_wireguard@.filter_map(keyed(tables));
    let known = to_wireguard@.filter_map(known_group(tables));
    lemma_outbound_names(run, to_wireguard, loopback, ids, encrypted, keys);
    lemma_known_groups(tables, to_wireguard@);
    assert forall|i: int| 0 <= i < keys@.len() implies (#[trigger] keys@[i] matches Some(key)
        && tables.ids.contains_key(key)) by {
        assert(encrypted@[i].0 == ids(sent[i].0));
        assert(tables.peers.contains_key(known[i].0.0));
    }
    law_known_keys_are_named_as_they_are(tables, keys@, packets);
    let routed = addressed(named(tables, keys@, packets));
    assert forall|i: int| 0 <= i < known.len() implies #[trigger] routed[i] == (
        known[i].0,
        encrypted@[i].1,
    ) by {
        assert(encrypted@[i].0 == ids(sent[i].0));
        assert(tables.peers.contains_key(known[i].0.0));
    }
    assert(routed =~= Seq::new(known.len(), |i: int| (known[i].0, encrypted@[i].1)));
}

/// Behind the encryption, an outbound pass asks for the keys of the tunnel peers that packets go
/// to, routes each group that has a key under the peer of the key, and comes to what that gives.
pub proof fn law_outbound_delivers_what_was_sent<H>(
    run: Seq<Step<H>>,
    encrypted: Vec<(TunnelPeerId, Vec<Packet>)>,
)
    requires
        is_run(run),
        run.len() == 4,
        run[0].before.stage is OutSending,
        run[0].reply == Reply::<H>::Sent(encrypted),
    ensures
        asks_for_keys(encrypted@, run[0].request, group_packets(encrypted@)),
        run[1].reply matches Reply::PeerKeys(keys) && run[1].request matches Request::RouteUnderlay(
            batch,
        ) && batch@ == addressed(named(run[0].tables, keys@, group_packets(encrypted@)))
            && run[1].tables_after == enrolled_all(run[0].tables, keys@),
        run[2].reply matches Reply::UnderlayRouted(to_peers) && looped_back(run[0].before.stage)
            matches Some(loopback) && run[3].comes_to(
            Outcome::Outbound(OutboundResult { to_peers, loopback }),
        ),
{
    assert(run[0].taken() && run[1].taken() && run[2].taken() && run[3].taken());
    assert(follows(run, 1) && follows(run, 2) && follows(run, 3));
}

/// An inbound pass asks for the keys of the tunnel peers that packets came from, hands to the local
/// device what passes the filters, asks for the keys of the tunnel peers that answers go to, routes
/// each answer that has a key under the peer of the key, and comes to what both give.
pub proof fn law_inbound_delivers_what_passes<H>(
    run: Seq<Step<H>>,
    to_local: Vec<(TunnelPeerId, Vec<Packet>)>,
    to_peers: Vec<(TunnelPeerId, Vec<Packet>)>,
)
    requires
        is_run(run),
        run.len() == 8,
        run[0].before.stage is InReceiving,
        run[0].reply == (Reply::<H>::Received { to_local, to_peers }),
    ensures
        asks_for_keys(to_local@, run[0].request, group_packets(to_local@)),
        run[1].request is LookUpSources,
        run[1].reply matches Reply::PeerKeys(keys) && run[2].reply matches Reply::SourcesLookedUp(
            owners,
        ) && run[3].reply matches Reply::Judged(verdicts) && run[3].request
            matches Request::RouteInbound(batch) && {
            let groups = named(run[0].tables, keys@, group_packets(to_local@));
            &&& owners_fit(groups, owners@)
            &&& verdicts@.len() == truly_sourced(groups, owners@).filter_map(readable()).len()
            &&& batch@ == delivered(groups, owners@, verdicts@)
        },
        asks_for_keys(to_peers@, run[4].request, group_packets(to_peers@)),
        run[1].reply matches Reply::PeerKeys(before) && run[5].reply matches Reply::PeerKeys(keys)
            && run[5].request matches Request::RouteUnderlay(batch) && batch@ == addressed(
            named(
                enrolled_all(run[0].tables, before@),
                keys@,
                group_packets(to_peers@),
            ),
        ),
        run[4].reply matches Reply::InboundRouted(to_local) && run[6].reply
            matches Reply::UnderlayRouted(to_peers) && run[7].comes_to(
            Outcome::Inbound(InboundResult { to_local, to_peers }),
        ),
{
    assert(run[0].taken() && run[1].taken() && run[2].taken() && run[3].taken());
    assert(run[4].taken() && run[5].taken() && run[6].taken() && run[7].taken());
    assert(follows(run, 1) && follows(run, 2) && follows(run, 3) && follows(run, 4));
    assert(follows(run, 5) && follows(run, 6) && follows(run, 7));
}

/// The packets of each group.
pub open spec fn group_packets(groups: Seq<(TunnelPeerId, Vec<Packet>)>) -> Seq<Vec<Packet>> {
    groups.map_values(|group: (TunnelPeerId, Vec<Packet>)| group.1)
}

impl<H> Step<H> {
    /// Whether the pass has come to `outcome`, and is either over or about to schedule an event.
    pub open spec fn comes_to(self, outcome: Outcome) -> bool {
        match self.request {
            Request::Finish { outcome: reached, .. } => reached == outcome,
            Request::Schedule(_, _) => self.after.stage == (Stage::Scheduling { outcome }),
            _ => false,
        }
    }
}

/// A pass that schedules an event keeps what it came to.
pub proof fn law_scheduling_keeps_the_outcome<H>(run: Seq<Step<H>>, outcome: Outcome)
    requires
        is_run(run),
        run.len() == 2,
        run[0].comes_to(outcome),
        run[0].request is Schedule,
    ensures
        run[1].request matches Request::Finish { outcome: reached, .. } && reached == outcome,
{
    assert(run[1].taken());
    assert(follows(run, 1));
}

/// The groups that the events of `run` sent to peers, the first event's first.
pub open spec fn event_groups<H>(run: Seq<Step<H>>) -> Seq<(PeerId, Vec<Packet>)>
    decreases run.len(),
{
    if run.len() == 0 {
        Seq::empty()
    } else {
        let rest = event_groups(run.drop_last());
        match (run.last().before.stage, run.last().reply) {
            (Stage::EvNaming { sent, .. }, Reply::PeerKeys(keys)) => rest + addressed(
                named(run.last().tables, keys@, sent@),
            ),
            _ => rest,
        }
    }
}

/// How often the tunnel was asked in `run` to do what is due at `now`.
pub open spec fn dispatches<H>(run: Seq<Step<H>>, now: Instant) -> int
    decreases run.len(),
{
    if run.len() == 0 {
        0
    } else {
        let rest = dispatches(run.drop_last(), now);
        if run.last().request == Request::<H>::DispatchWireguard(now) {
            rest + 1
        } else {
            rest
        }
    }
}

/// A pass over timers asks the tunnel once for each event that is due, always at the time of the
/// pass; of what the events send, a peer gets the last group that names it.
pub proof fn law_events_send_the_last_group<H>(run: Seq<Step<H>>, now: Instant, due: Vec<Subsystem>)
    requires
        is_run(run),
        run.len() > 0,
        run[0].before.stage == (Stage::EvDispatching { now }),
        run[0].reply == Reply::<H>::TimersDispatched(due),
    ensures
        match run.last().after.stage {
            Stage::EvRunning { now: at, due: all, begun, gathered } => {
                &&& at == now
                &&& all@ == due@
                &&& begun == dispatches(run, now)
                &&& latest(gathered@) == latest(event_groups(run))
            },
            Stage::EvNaming { now: at, due: all, begun, gathered, .. } => {
                &&& at == now
                &&& all@ == due@
                &&& begun == dispatches(run, now)
                &&& latest(gathered@) == latest(event_groups(run))
            },
            Stage::EvDelivering => {
                &&& dispatches(run, now) == due@.len()
                &&& run.last().request matches Request::RouteUnderlay(batch) && named_once(batch@)
                    && latest(batch@) == latest(event_groups(run))
            },
            Stage::Arming { outcome } => outcome is Events && dispatches(run, now) == due@.len(),
            Stage::Scheduling { outcome } => outcome is Events && dispatches(run, now)
                == due@.len(),
            Stage::Idle => dispatches(run, now) == due@.len(),
            _ => false,
        },
    decreases run.len(),
{
    let last = run[run.len() - 1];
    let rest = run.drop_last();
    assert(last.taken());
    reveal_with_fuel(dispatches, 2);
    reveal_with_fuel(event_groups, 2);
    if run.len() > 1 {
        lemma_run_before(run);
        law_events_send_the_last_group(rest, now, due);
        assert(follows(run, run.len() - 1));
        if let (Stage::EvNaming { gathered, sent, .. }, Reply::PeerKeys(keys)) = (
            last.before.stage,
            last.reply,
        ) {
            lemma_latest_behind(
                gathered@,
                event_groups(rest),
                addressed(named(last.tables, keys@, sent@)),
            );
        }
    }
}

/// A pass over timers does no harm where no event is due: it sends nothing and changes no peer.
pub proof fn law_nothing_due_sends_nothing<H>(step: Step<H>, due: Vec<Subsystem>)
    requires
        step.taken(),
        step.before.stage is EvDispatching,
        step.reply == Reply::<H>::TimersDispatched(due),
        due@.len() == 0,
    ensures
        step.request matches Request::RouteUnderlay(batch) && batch@.len() == 0,
        step.tables_after == step.tables,
{
    if let Request::RouteUnderlay(batch) = step.request {
        if batch@.len() > 0 {
            assert(latest(batch@).contains_key(batch@.last().0));
        }
    }
}

/// The events that were scheduled in `run`.
pub open spec fn scheduled<H>(run: Seq<Step<H>>) -> Seq<H>
    decreases run.len(),
{
    if run.len() == 0 {
        Seq::empty()
    } else {
        let rest = scheduled(run.drop_last());
        match run.last().reply {
            Reply::Scheduled(handle) => rest.push(handle),
            _ => rest,
        }
    }
}

/// The events that were cancelled in `run`.
pub open spec fn cancelled<H>(run: Seq<Step<H>>) -> Seq<H>
    decreases run.len(),
{
    if run.len() == 0 {
        Seq::empty()
    } else {
        let rest = cancelled(run.drop_last());
        match run.last().request {
            Request::Finish { cancel: Some(handle), .. } => rest.push(handle),
            _ => rest,
        }
    }
}

/// The event that is scheduled and not cancelled, where there is one.
pub open spec fn outstanding<H>(plane: DataPlane<H>) -> Seq<H> {
    match plane.wg_next {
        Some(handle) => seq![handle],
        None => Seq::empty(),
    }
}

/// Whether the step at place `i` of `run` has the scheduled event that the one before it left.
pub open spec fn keeps_event<H>(run: Seq<Step<H>>, i: int) -> bool {
    run[i].before.wg_next == run[i - 1].after.wg_next
}

/// Whether the steps in `run` were taken one after the other, in one pass or in several: between
/// two passes the event that is scheduled stays.
pub open spec fn is_history<H>(run: Seq<Step<H>>) -> bool {
    &&& forall|i: int| 0 <= i < run.len() ==> (#[trigger] run[i]).taken()
    &&& forall|i: int| 0 < i < run.len() ==> #[trigger] keeps_event(run, i)
}

/// Events are cancelled in the order in which they were scheduled, all but the last: at most one is
/// outstanding at any time.
pub proof fn law_one_event_is_outstanding<H>(run: Seq<Step<H>>)
    requires
        is_history(run),
        run.len() > 0,
    ensures
        outstanding(run[0].before) + scheduled(run) == cancelled(run) + outstanding(
            run.last().after,
        ),
    decreases run.len(),
{
    let last = run[run.len() - 1];
    let rest = run.drop_last();
    assert(last.taken());
    reveal_with_fuel(scheduled, 2);
    reveal_with_fuel(cancelled, 2);
    if run.len() > 1 {
        assert forall|i: int| 0 <= i < rest.len() implies (#[trigger] rest[i]).taken() by {
            assert(run[i].taken());
        }
        assert forall|i: int| 0 < i < rest.len() implies #[trigger] keeps_event(rest, i) by {
            assert(keeps_event(run, i));
        }
        law_one_event_is_outstanding(rest);
        assert(keeps_event(run, run.len() - 1));
    } else {
        assert(scheduled(rest) =~= Seq::empty());
        assert(cancelled(rest) =~= Seq::empty());
        assert(outstanding(last.before) + scheduled(rest) =~= cancelled(rest) + outstanding(
            last.before,
        ));
    }
    let first = outstanding(run[0].before);
    assert(first + scheduled(rest) == cancelled(rest) + outstanding(last.before));
    if last.reply is Scheduled {
        assert(first + scheduled(run) =~= (first + scheduled(rest)).push(last.reply->Scheduled_0));
        assert(cancelled(run) =~= cancelled(rest) + outstanding(last.before));
        assert(outstanding(last.after) =~= seq![last.reply->Scheduled_0]);
    }
    assert(first + scheduled(run) =~= cancelled(run) + outstanding(last.after));
}

/// A step changes the peers only by naming the senders or receivers of packets: the peers that
/// there are stay as they are, and the tables stay consistent, as long as ids suffice.
pub proof fn law_step_keeps_peers<H>(step: Step<H>)
    requires
        step.taken(),
        step.tables.consistent(),
        step.reply matches Reply::PeerKeys(keys) ==> ids_suffice(step.tables, keys@),
    ensures
        step.tables_after.consistent(),
        forall|key: NodePublicKey| #[trigger]
            step.tables.ids.contains_key(key) ==> step.tables_after.ids.contains_key(key)
                && step.tables_after.info_for(key) == step.tables.info_for(key),
        !(step.reply is PeerKeys) ==> step.tables_after == step.tables,
{
    if let (Some(groups), Reply::PeerKeys(keys)) = (unnamed(step.before.stage), step.reply) {
        law_naming_keeps_consistent(step.tables, keys@);
        law_groups_are_named_by_their_keys(step.tables, keys@, groups);
    }
}

} // verus!
