//! Where packets go in a pass, told by the replies that the pass gets and the requests that it
//! makes.

use std::time::Instant;

use vstd::prelude::*;

use crate::dataplane::{
    adds_next, DataPlane, EventResult, Fault, InboundResult, OutboundResult, Outcome,
    OverlayPackets, Reply, Request, Stage, Subsystem,
};
use crate::filter::{lemma_let_in_at, lemma_readable_at, packets_at, paired, SourceOwner};
use crate::groups::{
    addressed, enrolled_all, ids_suffice, keyed, last_groups, latest,
    law_groups_are_named_by_their_keys, law_ids_ahead_suffice, law_naming_adds_only_the_named,
    law_naming_keeps_consistent, lemma_filter_map_agrees, lemma_keyed_at, lemma_last_groups,
    lemma_latest_behind, lemma_named_at, named, named_once, named_until, under_peer,
};
use crate::packet::{sliced_ip, IpAddr, NetPart, PacketInfo, SlicedIp, TransportPart};
use crate::passes::{
    bound, dispatches, follows, group_packets, is_run, law_events_send_the_last_group,
    law_step_gets_closer, lemma_run_before, Step,
};
use crate::peer_map::{PeerDb, PeerDbError, PeerInfo, PeerTables};
use crate::places::{lemma_places_kept, places};
use crate::types::{NodePublicKey, Packet, PeerId, TunnelPeerId};

verus! {

/// Whether the tunnel gives the peer that `request` adds or looks for the id that `ids` gives for
/// its key.
pub open spec fn tells_id<H>(
    request: Request<H>,
    reply: Reply<H>,
    ids: spec_fn(NodePublicKey) -> TunnelPeerId,
) -> bool {
    match (request, reply) {
        (Request::AddPeer(config), Reply::PeerAdded(Some(id))) => id == ids(config.key),
        (Request::FindPeer(key), Reply::PeerFound(Some(id))) => id == ids(key),
        _ => true,
    }
}

/// Whether the tunnel gives, for each id that `request` asks about, the key that `key_of` gives.
pub open spec fn tells_keys<H>(
    request: Request<H>,
    reply: Reply<H>,
    key_of: spec_fn(TunnelPeerId) -> Option<NodePublicKey>,
) -> bool {
    match (request, reply) {
        (Request::PeerKeys(asked), Reply::PeerKeys(keys)) => {
            &&& keys@.len() == asked@.len()
            &&& forall|i: int| 0 <= i < asked@.len() ==> #[trigger] keys@[i] == key_of(asked@[i])
        },
        _ => true,
    }
}

/// Whether the step at place `i` of `run` gets the tunnel's ids from `ids`.
pub open spec fn ids_told<H>(
    run: Seq<Step<H>>,
    i: int,
    ids: spec_fn(NodePublicKey) -> TunnelPeerId,
) -> bool {
    tells_id(run[i - 1].request, run[i].reply, ids)
}

/// Whether the step at place `i` of `run` gets the tunnel's keys from `key_of`.
pub open spec fn keys_told<H>(
    run: Seq<Step<H>>,
    i: int,
    key_of: spec_fn(TunnelPeerId) -> Option<NodePublicKey>,
) -> bool {
    tells_keys(run[i - 1].request, run[i].reply, key_of)
}

/// Whether there are free ids for the keys that a step learns of.
pub open spec fn has_ids<H>(step: Step<H>) -> bool {
    step.reply matches Reply::PeerKeys(keys) ==> ids_suffice(step.tables, keys@)
}

/// What [`DataPlane::resume`] takes well is a step.
pub proof fn law_resume_takes_a_step<H>(
    before: DataPlane<H>,
    db: PeerDb,
    reply: Reply<H>,
    request: Request<H>,
    after: DataPlane<H>,
    db_after: PeerDb,
)
    requires
        before.wf(),
        exists|plane: &mut DataPlane<H>, peers: &mut PeerDb|
            {
                &&& *plane == before
                &&& *final(plane) == after
                &&& *peers == db
                &&& *final(peers) == db_after
                &&& #[trigger] call_ensures(
                    DataPlane::<H>::resume,
                    (plane, peers, reply),
                    Ok::<Request<H>, Fault>(request),
                )
            },
    ensures
        (Step {
            before,
            tables: db@,
            reply,
            after,
            tables_after: db_after@,
            request,
        }).taken(),
        after.wf(),
        db_after.wf(),
{
}

/// [`DataPlane::resume`] refuses a reply exactly where it is not of the kind that the stage waits
/// for, or has not one answer for each item asked about, or says that the tunnel neither adds a
/// peer nor has it. Otherwise it fails only with the peer database, and only in the stages that ask
/// it. A reply of the wrong kind changes nothing; after any other failure there is no pass, and the
/// scheduled event stays.
pub proof fn law_resume_fails_as_told<H>(
    before: DataPlane<H>,
    db: PeerDb,
    reply: Reply<H>,
    res: Result<Request<H>, Fault>,
    after: DataPlane<H>,
    db_after: PeerDb,
)
    requires
        exists|plane: &mut DataPlane<H>, peers: &mut PeerDb|
            {
                &&& *plane == before
                &&& *final(plane) == after
                &&& *peers == db
                &&& *final(peers) == db_after
                &&& #[trigger] call_ensures(
                    DataPlane::<H>::resume,
                    (plane, peers, reply),
                    res,
                )
            },
    ensures
        (res matches Err(fault) && fault is Unexpected) <==> !{
            ||| before.stage is OutRouting && reply is OutboundRouted
            ||| before.stage is OutAdding && reply is PeerAdded
            ||| before.stage is OutFinding && reply is PeerFound
            ||| before.stage is OutSending && reply is Sent
            ||| before.stage is OutNaming && reply is PeerKeys
            ||| before.stage is OutDelivering && reply is UnderlayRouted
            ||| before.stage is InReceiving && reply is Received
            ||| before.stage is InNaming && reply is PeerKeys
            ||| before.stage is InFiltering && reply is SourcesLookedUp
            ||| before.stage is InJudging && reply is Judged
            ||| before.stage is InRouting && reply is InboundRouted
            ||| before.stage is InReplying && reply is PeerKeys
            ||| before.stage is InDelivering && reply is UnderlayRouted
            ||| before.stage is EvDispatching && reply is TimersDispatched
            ||| before.stage is EvRunning && reply is WireguardDispatched
            ||| before.stage is EvNaming && reply is PeerKeys
            ||| before.stage is EvDelivering && reply is UnderlayRouted
            ||| before.stage is Arming && reply is NextEvent
            ||| before.stage is Scheduling && reply is Scheduled
        },
        (res matches Err(fault) && fault is WrongCount) <==> match (before.stage, reply) {
            (Stage::OutNaming { sent, .. }, Reply::PeerKeys(keys)) => keys@.len() != sent@.len(),
            (Stage::InNaming { to_local, .. }, Reply::PeerKeys(keys)) => keys@.len()
                != to_local@.len(),
            (Stage::InReplying { to_peers, .. }, Reply::PeerKeys(keys)) => keys@.len()
                != to_peers@.len(),
            (Stage::EvNaming { sent, .. }, Reply::PeerKeys(keys)) => keys@.len() != sent@.len(),
            (Stage::InFiltering { groups, .. }, Reply::SourcesLookedUp(owners)) => !{
                &&& groups@.len() == owners@.len()
                &&& forall|g: int|
                    0 <= g < groups@.len() ==> (#[trigger] groups@[g]).1@.len() == owners@[g]@.len()
            },
            (Stage::InJudging { packets, .. }, Reply::Judged(verdicts)) => verdicts@.len()
                != packets@.len(),
            _ => false,
        },
        (res matches Err(fault) && fault is NoTunnelPeer) <==> match (before.stage, reply) {
            (Stage::OutFinding { .. }, Reply::PeerFound(None)) => true,
            _ => false,
        },
        res matches Err(Fault::NoTunnelPeer(key)) ==> before.stage->OutFinding_key == key,
        res matches Err(fault) && fault is Unexpected ==> after == before && db_after == db,
        res matches Err(fault) && (fault is WrongCount || fault is NoTunnelPeer) ==> db_after == db,
        res matches Err(fault) && !(fault is Unexpected) ==> after.stage is Idle && after.wg_next
            == before.wg_next,
        res matches Err(Fault::Peers(e)) ==> match reply {
            Reply::OutboundRouted { to_wireguard, .. } => e matches PeerDbError::Storage(error)
                && exists|k: int|
                0 <= k < to_wireguard@.len() && db.lookup_fails(
                    #[trigger] to_wireguard@[k].0,
                    error,
                ),
            Reply::PeerKeys(keys) => match e {
                PeerDbError::Storage(error) => exists|k: int, asked: PeerDb|
                    0 <= k < keys@.len() && keys@[k] is Some && #[trigger] asked.asking_fails(
                        #[trigger] keys@[k]->0,
                        error,
                    ),
                PeerDbError::Commit(error) => exists|k: int, asked: PeerDb|
                    0 <= k < keys@.len() && keys@[k] is Some && #[trigger] asked.enrolling_fails(
                        #[trigger] keys@[k]->0,
                        error,
                    ),
                PeerDbError::MissingPeer(_) => !(db@.consistent() && ids_suffice(db@, keys@)),
            },
            _ => false,
        },
{
    if let (Err(Fault::Peers(PeerDbError::MissingPeer(id))), Reply::PeerKeys(keys)) = (res, reply) {
        if db@.consistent() && ids_suffice(db@, keys@) {
            let n = choose|n: int|
                {
                    &&& #[trigger] named_until(db@, keys@, n, db_after@)
                    &&& db_after@.next_id == enrolled_all(db@, keys@.take(n)).next_id
                    &&& db_after@.dangling(keys@[n]->0)
                };
            lemma_ids_suffice_until(db@, keys@, n);
            law_naming_keeps_consistent(db@, keys@.take(n));
        }
    }
}

proof fn lemma_ids_suffice_until(tables: PeerTables, keys: Seq<Option<NodePublicKey>>, n: int)
    requires
        ids_suffice(tables, keys),
        0 <= n <= keys.len(),
    ensures
        ids_suffice(tables, keys.take(n)),
{
    let rest = keys.take(n);
    assert forall|i: int| 0 <= i < rest.len() && #[trigger] rest[i] is Some implies {
        let held = enrolled_all(tables, rest.take(i));
        ||| held.ids.contains_key(rest[i]->0)
        ||| !held.peers.contains_key(held.next_id)
    } by {
        assert(keys[i] is Some);
        assert(rest.take(i) =~= keys.take(i));
    }
}

/// The peers change only where keys are learned: each key that is learned gets a peer, unless it
/// has one, under an id that no peer has. Every other key and every peer stays as it was.
pub proof fn law_only_learned_keys_get_peers<H>(step: Step<H>)
    requires
        step.taken(),
        step.tables.consistent(),
        has_ids(step),
    ensures
        step.tables_after.consistent(),
        match step.reply {
            Reply::PeerKeys(keys) => forall|key: NodePublicKey| #[trigger]
                step.tables_after.ids.contains_key(key) <==> step.tables.ids.contains_key(key)
                    || keys@.contains(Some(key)),
            _ => step.tables_after == step.tables,
        },
        forall|key: NodePublicKey| #[trigger]
            step.tables.ids.contains_key(key) ==> {
                &&& step.tables_after.ids.contains_key(key)
                &&& step.tables_after.ids[key] == step.tables.ids[key]
            },
        forall|id: u32| #[trigger]
            step.tables.peers.contains_key(id) ==> {
                &&& step.tables_after.peers.contains_key(id)
                &&& step.tables_after.peers[id] == step.tables.peers[id]
            },
        forall|key: NodePublicKey|
            !step.tables.ids.contains_key(key) && #[trigger] step.tables_after.ids.contains_key(key)
                ==> !step.tables.peers.contains_key(step.tables_after.ids[key]),
{
    if let Reply::PeerKeys(keys) = step.reply {
        law_naming_adds_only_the_named(step.tables, keys@);
        law_naming_keeps_consistent(step.tables, keys@);
        assert forall|key: NodePublicKey| #[trigger] step.tables.ids.contains_key(key) implies {
            &&& step.tables_after.ids.contains_key(key)
            &&& step.tables_after.ids[key] == step.tables.ids[key]
        } by {
            assert(enrolled_all(step.tables, keys@).ids.contains_key(key));
        }
    }
}

/// Where an outbound pass stands before it sends: behind the first groups of `known`, which have
/// their tunnel peers.
spec fn on_plan<H>(
    step: Step<H>,
    known: Seq<(NodePublicKey, Vec<Packet>)>,
    loopback: OverlayPackets,
    ids: spec_fn(NodePublicKey) -> TunnelPeerId,
) -> bool {
    match (step.after.stage, step.request) {
        (
            Stage::OutAdding { loopback: kept, ready, key, packets, waiting },
            Request::AddPeer(config),
        ) => {
            let n = ready@.len() as int;
            &&& kept == loopback
            &&& n < known.len()
            &&& known[n] == (key, packets)
            &&& waiting@ == known.skip(n + 1)
            &&& ready@ == bound(known.take(n), ids)
            &&& config.key == key
            &&& config.psk@ == Seq::new(32, |i: int| 0u8)
        },
        (
            Stage::OutFinding { loopback: kept, ready, key, packets, waiting },
            Request::FindPeer(asked),
        ) => {
            let n = ready@.len() as int;
            &&& kept == loopback
            &&& n < known.len()
            &&& known[n] == (key, packets)
            &&& waiting@ == known.skip(n + 1)
            &&& ready@ == bound(known.take(n), ids)
            &&& asked == key
        },
        (Stage::OutSending { loopback: kept }, Request::Send(batch)) => {
            &&& kept == loopback
            &&& batch@ == bound(known, ids)
        },
        _ => false,
    }
}

proof fn lemma_adding_is_on_plan<H>(
    step: Step<H>,
    known: Seq<(NodePublicKey, Vec<Packet>)>,
    loopback: OverlayPackets,
    ids: spec_fn(NodePublicKey) -> TunnelPeerId,
    ready: Seq<(TunnelPeerId, Vec<Packet>)>,
    n: int,
)
    requires
        0 <= n <= known.len(),
        ready == bound(known.take(n), ids),
        adds_next(loopback, ready, known.skip(n), step.after.stage, step.request),
    ensures
        on_plan(step, known, loopback, ids),
{
    if n == known.len() {
        assert(known.take(n) =~= known);
    } else {
        assert(known.skip(n).skip(1) =~= known.skip(n + 1));
        assert(known.skip(n)[0] == known[n]);
    }
}

proof fn lemma_outbound_on_plan<H>(
    run: Seq<Step<H>>,
    to_wireguard: Vec<(PeerId, Vec<Packet>)>,
    loopback: OverlayPackets,
    ids: spec_fn(NodePublicKey) -> TunnelPeerId,
)
    requires
        is_run(run),
        run.len() > 0,
        run[0].before.stage is OutRouting,
        run[0].reply == (Reply::<H>::OutboundRouted { to_wireguard, loopback }),
        forall|i: int| 0 < i < run.len() ==> #[trigger] ids_told(run, i, ids),
        forall|i: int| 0 <= i < run.len() - 1 ==> !((#[trigger] run[i]).request is Send),
    ensures
        on_plan(
            run.last(),
            to_wireguard@.filter_map(keyed(run[0].tables)),
            loopback,
            ids,
        ),
        run.last().tables_after == run[0].tables,
    decreases run.len(),
{
    let n = run.len() - 1;
    let known = to_wireguard@.filter_map(keyed(run[0].tables));
    assert(run[n].taken());
    if n == 0 {
        assert(known.skip(0) =~= known);
        assert(bound(known.take(0), ids) =~= Seq::empty());
        lemma_adding_is_on_plan(run[0], known, loopback, ids, Seq::empty(), 0);
    } else {
        let rest = run.drop_last();
        lemma_run_before(run);
        assert forall|i: int| 0 < i < rest.len() implies #[trigger] ids_told(rest, i, ids) by {
            assert(ids_told(run, i, ids));
        }
        assert forall|i: int| 0 <= i < rest.len() - 1 implies !((#[trigger] rest[i]).request
            is Send) by {
            assert(!(run[i].request is Send));
        }
        lemma_outbound_on_plan(rest, to_wireguard, loopback, ids);
        assert(follows(run, n));
        assert(ids_told(run, n, ids));
        assert(!(run[n - 1].request is Send));
        match (run[n].before.stage, run[n].reply) {
            (
                Stage::OutAdding { ready, key, packets, waiting, .. },
                Reply::PeerAdded(Some(id)),
            ) => {
                let m = ready@.len() as int;
                assert(bound(known.take(m + 1), ids) =~= ready@.push((id, packets)));
                lemma_adding_is_on_plan(
                    run[n],
                    known,
                    loopback,
                    ids,
                    ready@.push((id, packets)),
                    m + 1,
                );
            },
            (
                Stage::OutFinding { ready, key, packets, waiting, .. },
                Reply::PeerFound(Some(id)),
            ) => {
                let m = ready@.len() as int;
                assert(bound(known.take(m + 1), ids) =~= ready@.push((id, packets)));
                lemma_adding_is_on_plan(
                    run[n],
                    known,
                    loopback,
                    ids,
                    ready@.push((id, packets)),
                    m + 1,
                );
            },
            _ => {},
        }
    }
}

/// What the overlay routes to peers that are known is sent, all of it and nothing else, in order,
/// each group under the id that the tunnel gives for the key of its peer. Before that the pass adds
/// only such peers to the tunnel, without a shared secret, and looks for one only where it is not
/// added. No peer changes, and what is looped back is kept.
pub proof fn law_known_peers_are_sent_their_groups<H>(
    run: Seq<Step<H>>,
    to_wireguard: Vec<(PeerId, Vec<Packet>)>,
    loopback: OverlayPackets,
    ids: spec_fn(NodePublicKey) -> TunnelPeerId,
)
    requires
        is_run(run),
        run.len() > 0,
        run[0].before.stage is OutRouting,
        run[0].reply == (Reply::<H>::OutboundRouted { to_wireguard, loopback }),
        forall|i: int| 0 < i < run.len() ==> #[trigger] ids_told(run, i, ids),
        forall|i: int| 0 <= i < run.len() - 1 ==> !((#[trigger] run[i]).request is Send),
    ensures
        run.last().tables_after == run[0].tables,
        match run.last().request {
            Request::Send(batch) => {
                &&& run.last().after.stage == (Stage::OutSending { loopback })
                &&& exists|at: Seq<int>|
                    {
                        let peers = run[0].tables.peers;
                        &&& #[trigger] places(at, to_wireguard@.len() as int)
                        &&& at.len() == batch@.len()
                        &&& forall|k: int|
                            0 <= k < to_wireguard@.len() ==> (#[trigger] at.contains(k)
                                <==> peers.contains_key(to_wireguard@[k].0.0))
                        &&& forall|i: int|
                            0 <= i < at.len() ==> batch@[i] == (
                                ids(peers[to_wireguard@[#[trigger] at[i]].0.0].node_key),
                                to_wireguard@[at[i]].1,
                            )
                    }
            },
            Request::AddPeer(config) => {
                &&& forall|i: int| 0 <= i < 32 ==> #[trigger] config.psk@[i] == 0
                &&& exists|k: int|
                    {
                        let peers = run[0].tables.peers;
                        &&& 0 <= k < to_wireguard@.len()
                        &&& peers.contains_key((#[trigger] to_wireguard@[k]).0.0)
                        &&& config.key == peers[to_wireguard@[k].0.0].node_key
                    }
            },
            Request::FindPeer(key) => {
                &&& run.len() > 1
                &&& run[run.len() - 2].request matches Request::AddPeer(config) && config.key == key
                &&& run.last().reply == Reply::<H>::PeerAdded(None)
            },
            _ => false,
        },
{
    let n = run.len() - 1;
    let known = to_wireguard@.filter_map(keyed(run[0].tables));
    lemma_outbound_on_plan(run, to_wireguard, loopback, ids);
    let at = lemma_keyed_at(run[0].tables, to_wireguard@);
    assert(run[n].taken());
    match run[n].request {
        Request::Send(batch) => {
            assert forall|i: int| 0 <= i < at.len() implies batch@[i] == (
                ids(run[0].tables.peers[to_wireguard@[#[trigger] at[i]].0.0].node_key),
                to_wireguard@[at[i]].1,
            ) by {
                assert(bound(known, ids)[i] == (ids(known[i].0), known[i].1));
            }
        },
        Request::AddPeer(config) => {
            if let Stage::OutAdding { ready, .. } = run[n].after.stage {
                let m = ready@.len() as int;
                assert(known[m].0 == config.key);
                assert(0 <= at[m] < to_wireguard@.len());
                assert(at.contains(at[m]));
            }
        },
        Request::FindPeer(key) => {
            if n > 0 {
                let rest = run.drop_last();
                lemma_run_before(run);
                assert forall|i: int| 0 < i < rest.len() implies #[trigger] ids_told(
                    rest,
                    i,
                    ids,
                ) by {
                    assert(ids_told(run, i, ids));
                }
                assert forall|i: int| 0 <= i < rest.len() - 1 implies !((
                #[trigger] rest[i]).request is Send) by {
                    assert(!(run[i].request is Send));
                }
                lemma_outbound_on_plan(rest, to_wireguard, loopback, ids);
                assert(follows(run, n));
            }
        },
        _ => {},
    }
}

/// Whether `batch` has the groups of all tunnel peers that have a key, in order, each under the id
/// that `tables` have for the key, and nothing else.
pub open spec fn routed_in_place(
    groups: Seq<(TunnelPeerId, Vec<Packet>)>,
    key_of: spec_fn(TunnelPeerId) -> Option<NodePublicKey>,
    tables: PeerTables,
    batch: Seq<(PeerId, Vec<Packet>)>,
) -> bool {
    exists|at: Seq<int>|
        {
            &&& #[trigger] places(at, groups.len() as int)
            &&& at.len() == batch.len()
            &&& forall|k: int|
                0 <= k < groups.len() ==> (#[trigger] at.contains(k) <==> key_of(groups[k].0)
                    is Some)
            &&& forall|i: int|
                0 <= i < at.len() ==> {
                    let key = key_of(groups[#[trigger] at[i]].0)->0;
                    &&& tables.ids.contains_key(key)
                    &&& batch[i].0 == PeerId(tables.ids[key])
                    &&& batch[i].1 == groups[at[i]].1
                }
        }
}

/// Whether `kept` has the groups of all tunnel peers that have a key, in order, each under the peer
/// that `tables` have for the key, and nothing else.
pub open spec fn named_in_place(
    groups: Seq<(TunnelPeerId, Vec<Packet>)>,
    key_of: spec_fn(TunnelPeerId) -> Option<NodePublicKey>,
    tables: PeerTables,
    kept: Seq<(PeerInfo, Vec<Packet>)>,
) -> bool {
    exists|at: Seq<int>|
        {
            &&& #[trigger] places(at, groups.len() as int)
            &&& at.len() == kept.len()
            &&& forall|k: int|
                0 <= k < groups.len() ==> (#[trigger] at.contains(k) <==> key_of(groups[k].0)
                    is Some)
            &&& forall|i: int|
                0 <= i < at.len() ==> {
                    let key = key_of(groups[#[trigger] at[i]].0)->0;
                    &&& tables.ids.contains_key(key)
                    &&& kept[i].0 == (PeerInfo {
                        peer_id: PeerId(tables.ids[key]),
                        node_key: key,
                    })
                    &&& kept[i].1 == groups[at[i]].1
                }
        }
}

/// What `groups` are named by where the keys of their tunnel peers were learned.
proof fn lemma_named_in_place(
    tables: PeerTables,
    groups: Seq<(TunnelPeerId, Vec<Packet>)>,
    keys: Seq<Option<NodePublicKey>>,
    key_of: spec_fn(TunnelPeerId) -> Option<NodePublicKey>,
)
    requires
        tables.consistent(),
        ids_suffice(tables, keys),
        keys.len() == groups.len(),
        forall|i: int| 0 <= i < keys.len() ==> #[trigger] keys[i] == key_of(groups[i].0),
    ensures
        named_in_place(
            groups,
            key_of,
            enrolled_all(tables, keys),
            named(tables, keys, group_packets(groups)),
        ),
        routed_in_place(
            groups,
            key_of,
            enrolled_all(tables, keys),
            addressed(named(tables, keys, group_packets(groups))),
        ),
{
    let after = enrolled_all(tables, keys);
    let kept = named(tables, keys, group_packets(groups));
    let at = lemma_named_at(tables, keys, group_packets(groups));
    assert forall|k: int| 0 <= k < groups.len() implies (#[trigger] at.contains(k) <==> key_of(
        groups[k].0,
    ) is Some) by {
        assert(keys[k] == key_of(groups[k].0));
    }
    assert forall|i: int| 0 <= i < at.len() implies {
        let key = key_of(groups[#[trigger] at[i]].0)->0;
        &&& after.ids.contains_key(key)
        &&& kept[i].0 == (PeerInfo { peer_id: PeerId(after.ids[key]), node_key: key })
        &&& kept[i].1 == groups[at[i]].1
        &&& addressed(kept)[i].0 == PeerId(after.ids[key])
        &&& addressed(kept)[i].1 == groups[at[i]].1
    } by {
        assert(keys[at[i]] == key_of(groups[at[i]].0));
        assert(group_packets(groups)[at[i]] == groups[at[i]].1);
    }
}

/// Whether `run`, from place `n` on, asks the tunnel when it has to be called, schedules that call
/// where there is one, and ends with `outcome`. An event that was scheduled before is cancelled
/// exactly where a new one is scheduled.
pub open spec fn winds_up<H>(run: Seq<Step<H>>, n: int, outcome: Outcome) -> bool {
    &&& run.len() > n ==> match run[n].reply {
        Reply::NextEvent(None) => {
            &&& run[n].request == (Request::<H>::Finish { outcome, cancel: None })
            &&& run[n].after.wg_next == run[0].before.wg_next
        },
        Reply::NextEvent(Some(next)) => {
            &&& run[n].request == Request::<H>::Schedule(next, Subsystem::Wireguard)
            &&& run[n].after.wg_next == run[0].before.wg_next
        },
        _ => false,
    }
    &&& run.len() > n + 1 ==> {
        &&& run[n].request is Schedule
        &&& run[n + 1].reply matches Reply::Scheduled(handle) && run[n + 1].after.wg_next == Some(
            handle,
        )
        &&& run[n + 1].request == (Request::Finish { outcome, cancel: run[0].before.wg_next })
    }
    &&& run.len() <= n + 2
}

/// Behind the encryption, an outbound pass asks for the keys of the tunnel peers. What was
/// encrypted for a tunnel peer that has a key is handed to the underlay under the peer of that key:
/// all of it, in order, and nothing else. The pass ends with what the underlay made of it and with
/// what is looped back.
pub proof fn law_encrypted_groups_go_to_their_peers<H>(
    run: Seq<Step<H>>,
    loopback: OverlayPackets,
    encrypted: Vec<(TunnelPeerId, Vec<Packet>)>,
    key_of: spec_fn(TunnelPeerId) -> Option<NodePublicKey>,
)
    requires
        is_run(run),
        run.len() > 0,
        run[0].before.stage == (Stage::OutSending { loopback }),
        run[0].reply == Reply::<H>::Sent(encrypted),
        run[0].tables.consistent(),
        forall|i: int| 0 < i < run.len() ==> #[trigger] keys_told(run, i, key_of),
        forall|i: int| 0 <= i < run.len() ==> has_ids(#[trigger] run[i]),
    ensures
        run[0].request is PeerKeys,
        run.len() > 1 ==> {
            &&& run[1].request matches Request::RouteUnderlay(batch) && routed_in_place(
                encrypted@,
                key_of,
                run[1].tables_after,
                batch@,
            )
        },
        run.len() > 2 ==> {
            &&& run[2].request is NextEvent
            &&& run[2].reply matches Reply::UnderlayRouted(to_peers) && winds_up(
                run,
                3,
                Outcome::Outbound(OutboundResult { to_peers, loopback }),
            )
        },
{
    assert(run[0].taken());
    if run.len() > 1 {
        assert(run[1].taken() && follows(run, 1) && keys_told(run, 1, key_of) && has_ids(run[1]));
        if let (Request::PeerKeys(asked), Reply::PeerKeys(keys)) = (run[0].request, run[1].reply) {
            assert forall|i: int| 0 <= i < keys@.len() implies #[trigger] keys@[i] == key_of(
                encrypted@[i].0,
            ) by {
                assert(asked@[i] == encrypted@[i].0);
            }
            lemma_named_in_place(run[0].tables, encrypted@, keys@, key_of);
        }
    }
    if run.len() > 2 {
        assert(run[2].taken() && follows(run, 2));
        lemma_winds_up(run, 3);
    }
}

proof fn lemma_winds_up<H>(run: Seq<Step<H>>, n: int)
    requires
        is_run(run),
        0 < n <= run.len(),
        run[n - 1].after.stage is Arming,
        run[n - 1].after.wg_next == run[0].before.wg_next,
    ensures
        winds_up(run, n, run[n - 1].after.stage->Arming_outcome),
{
    if run.len() > n {
        assert(run[n].taken() && follows(run, n));
    }
    if run.len() > n + 1 {
        assert(run[n + 1].taken() && follows(run, n + 1));
    }
    if run.len() > n + 2 {
        assert(run[n + 2].taken() && follows(run, n + 2));
    }
}

/// Whether `info` tells what `sliced` says: the protocol and the addresses of the network layer, and
/// the destination port of UDP or TCP, or zero.
pub open spec fn tells_headers(info: PacketInfo, sliced: SlicedIp) -> bool {
    &&& match sliced.net {
        NetPart::Version4(proto, src, dst) => {
            &&& info.ip_proto.0 == proto
            &&& info.src == IpAddr::V4(src)
            &&& info.dst == IpAddr::V4(dst)
        },
        NetPart::Version6(proto, src, dst) => {
            &&& info.ip_proto.0 == proto
            &&& info.src == IpAddr::V6(src)
            &&& info.dst == IpAddr::V6(dst)
        },
        NetPart::AddressResolution => true,
    }
    &&& match sliced.transport {
        TransportPart::UdpPorts(_, to) => info.port == to,
        TransportPart::TcpPorts(_, to) => info.port == to,
        _ => info.port == 0,
    }
}

/// Whether `at` names the packets of `groups` that have the owner of their source address for a
/// sender, and whose headers can be sliced: all of them, in order, and nothing else.
pub open spec fn passes_source_at(
    groups: Seq<(PeerInfo, Vec<Packet>)>,
    owners: Seq<Vec<SourceOwner>>,
    at: Seq<(int, int)>,
) -> bool {
    &&& packets_at(groups, at)
    &&& forall|g: int, j: int|
        0 <= g < groups.len() && 0 <= j < groups[g].1@.len() ==> (#[trigger] at.contains((g, j))
            <==> owners[g]@[j] == SourceOwner::Owned(groups[g].0.peer_id) && sliced_ip(
            groups[g].1@[j].data@,
        ) is Some)
}

/// Whether the packet filter is asked about `infos`: one for each packet that passes the source
/// filter, in order, with what its headers say.
pub open spec fn asks_in_place(
    groups: Seq<(PeerInfo, Vec<Packet>)>,
    owners: Seq<Vec<SourceOwner>>,
    infos: Seq<PacketInfo>,
) -> bool {
    exists|at: Seq<(int, int)>|
        {
            &&& #[trigger] passes_source_at(groups, owners, at)
            &&& at.len() == infos.len()
            &&& forall|i: int|
                0 <= i < at.len() ==> tells_headers(
                    infos[i],
                    sliced_ip(groups[(#[trigger] at[i]).0].1@[at[i].1].data@)->0,
                )
        }
}

/// Whether `batch` has the packets that pass the source filter and that `verdicts` let in: all of
/// them, in order, and nothing else.
pub open spec fn delivers_in_place(
    groups: Seq<(PeerInfo, Vec<Packet>)>,
    owners: Seq<Vec<SourceOwner>>,
    verdicts: Seq<bool>,
    batch: Seq<Packet>,
) -> bool {
    exists|at: Seq<(int, int)>, kept: Seq<int>|
        {
            &&& #[trigger] passes_source_at(groups, owners, at)
            &&& at.len() == verdicts.len()
            &&& #[trigger] places(kept, at.len() as int)
            &&& kept.len() == batch.len()
            &&& forall|k: int| 0 <= k < at.len() ==> (#[trigger] kept.contains(k) <==> verdicts[k])
            &&& forall|i: int|
                0 <= i < kept.len() ==> batch[i] == groups[at[#[trigger] kept[i]].0].1@[at[kept[i]].1]
        }
}

/// The packets that wait for the owners of their source addresses.
pub open spec fn unfiltered_groups(stage: Stage) -> Seq<(PeerInfo, Vec<Packet>)> {
    match stage {
        Stage::InFiltering { groups, .. } => groups@,
        _ => Seq::empty(),
    }
}

/// An inbound pass, reply by reply. What was decrypted from a tunnel peer that has a key waits for
/// the source filter under the peer of the key. The packet filter is asked about the packets that
/// came from the owner of their source address and can be sliced, and the local device gets those
/// of them that it lets in. What the tunnel answers to a tunnel peer that has a key is handed to
/// the underlay under the peer of that key. All of it goes its way, in order, and nothing else; the
/// pass ends with what both routers made of it.
pub proof fn law_inbound_packets_go_their_way<H>(
    run: Seq<Step<H>>,
    to_local: Vec<(TunnelPeerId, Vec<Packet>)>,
    to_peers: Vec<(TunnelPeerId, Vec<Packet>)>,
    key_of: spec_fn(TunnelPeerId) -> Option<NodePublicKey>,
)
    requires
        is_run(run),
        run.len() > 0,
        run[0].before.stage is InReceiving,
        run[0].reply == (Reply::<H>::Received { to_local, to_peers }),
        run[0].tables.consistent(),
        forall|i: int| 0 < i < run.len() ==> #[trigger] keys_told(run, i, key_of),
        forall|i: int| 0 <= i < run.len() ==> has_ids(#[trigger] run[i]),
    ensures
        run[0].request is PeerKeys,
        run.len() > 1 ==> run[1].request is LookUpSources && run[1].after.stage is InFiltering
            && named_in_place(
            to_local@,
            key_of,
            run[1].tables_after,
            unfiltered_groups(run[1].after.stage),
        ),
        run.len() > 2 ==> match (run[2].reply, run[2].request) {
            (Reply::SourcesLookedUp(owners), Request::Judge(infos)) => asks_in_place(
                unfiltered_groups(run[1].after.stage),
                owners@,
                infos@,
            ),
            _ => false,
        },
        run.len() > 3 ==> match (run[2].reply, run[3].reply, run[3].request) {
            (
                Reply::SourcesLookedUp(owners),
                Reply::Judged(verdicts),
                Request::RouteInbound(batch),
            ) => delivers_in_place(
                unfiltered_groups(run[1].after.stage),
                owners@,
                verdicts@,
                batch@,
            ),
            _ => false,
        },
        run.len() > 4 ==> run[4].reply is InboundRouted && run[4].request is PeerKeys,
        run.len() > 5 ==> {
            &&& run[5].request matches Request::RouteUnderlay(batch) && routed_in_place(
                to_peers@,
                key_of,
                run[5].tables_after,
                batch@,
            )
        },
        run.len() > 6 ==> {
            &&& run[6].request is NextEvent
            &&& match (run[4].reply, run[6].reply) {
                (Reply::InboundRouted(local), Reply::UnderlayRouted(peers)) => winds_up(
                    run,
                    7,
                    Outcome::Inbound(InboundResult { to_local: local, to_peers: peers }),
                ),
                _ => false,
            }
        },
{
    assert(run[0].taken());
    if run.len() > 1 {
        assert(run[1].taken() && follows(run, 1) && keys_told(run, 1, key_of) && has_ids(run[1]));
        if let (Request::PeerKeys(asked), Reply::PeerKeys(keys)) = (run[0].request, run[1].reply) {
            assert forall|i: int| 0 <= i < keys@.len() implies #[trigger] keys@[i] == key_of(
                to_local@[i].0,
            ) by {
                assert(asked@[i] == to_local@[i].0);
            }
            lemma_named_in_place(run[0].tables, to_local@, keys@, key_of);
            law_naming_keeps_consistent(run[0].tables, keys@);
        }
    }
    if run.len() > 2 {
        assert(run[2].taken() && follows(run, 2));
        let groups = unfiltered_groups(run[1].after.stage);
        if let Reply::SourcesLookedUp(owners) = run[2].reply {
            let at = lemma_readable_at(groups, owners@);
            assert(passes_source_at(groups, owners@, at));
            if run.len() > 3 {
                assert(run[3].taken() && follows(run, 3));
                if let (Stage::InJudging { packets, .. }, Reply::Judged(verdicts)) = (
                    run[3].before.stage,
                    run[3].reply,
                ) {
                    let kept = lemma_let_in_at(packets@, verdicts@);
                    assert(places(kept, at.len() as int));
                }
            }
        }
    }
    if run.len() > 4 {
        assert(run[4].taken() && follows(run, 4));
    }
    if run.len() > 5 {
        assert(run[5].taken() && follows(run, 5) && keys_told(run, 5, key_of) && has_ids(run[5]));
        if let (Request::PeerKeys(asked), Reply::PeerKeys(keys)) = (run[4].request, run[5].reply) {
            assert forall|i: int| 0 <= i < keys@.len() implies #[trigger] keys@[i] == key_of(
                to_peers@[i].0,
            ) by {
                assert(asked@[i] == to_peers@[i].0);
            }
            lemma_named_in_place(run[5].tables, to_peers@, keys@, key_of);
        }
    }
    if run.len() > 6 {
        assert(run[6].taken() && follows(run, 6));
        lemma_winds_up(run, 7);
    }
}

/// What the tunnel sent at the events of `run`, the first event's groups first.
pub open spec fn dispatched<H>(run: Seq<Step<H>>) -> Seq<(TunnelPeerId, Vec<Packet>)>
    decreases run.len(),
{
    if run.len() == 0 {
        Seq::empty()
    } else {
        let rest = dispatched(run.drop_last());
        match run.last().reply {
            Reply::WireguardDispatched(groups) => rest + groups@,
            _ => rest,
        }
    }
}

/// Puts a group of a tunnel peer that has a key under the id that `tables` have for the key.
spec fn under_id(
    tables: PeerTables,
    key_of: spec_fn(TunnelPeerId) -> Option<NodePublicKey>,
) -> spec_fn((TunnelPeerId, Vec<Packet>)) -> Option<(PeerId, Vec<Packet>)> {
    |group: (TunnelPeerId, Vec<Packet>)|
        match key_of(group.0) {
            Some(key) => Some((PeerId(tables.ids[key]), group.1)),
            None => None,
        }
}

/// Whether `tables` have an id for every key that `groups` have.
spec fn all_named(
    tables: PeerTables,
    key_of: spec_fn(TunnelPeerId) -> Option<NodePublicKey>,
    groups: Seq<(TunnelPeerId, Vec<Packet>)>,
) -> bool {
    forall|i: int|
        0 <= i < groups.len() && key_of((#[trigger] groups[i]).0) is Some
            ==> tables.ids.contains_key(key_of(groups[i].0)->0)
}

proof fn lemma_filter_map_in_turn<A, B>(a: Seq<A>, b: Seq<A>, f: spec_fn(A) -> Option<B>)
    ensures
        (a + b).filter_map(f) == a.filter_map(f) + b.filter_map(f),
    decreases b.len(),
{
    if b.len() == 0 {
        assert(a + b =~= a);
        assert(a.filter_map(f) + b.filter_map(f) =~= a.filter_map(f));
    } else {
        assert((a + b).drop_last() =~= a + b.drop_last());
        assert((a + b).last() == b.last());
        lemma_filter_map_in_turn(a, b.drop_last(), f);
        assert((a + b).filter_map(f) =~= a.filter_map(f) + b.filter_map(f));
    }
}

proof fn lemma_named_under_id(
    after: PeerTables,
    groups: Seq<(TunnelPeerId, Vec<Packet>)>,
    keys: Seq<Option<NodePublicKey>>,
    key_of: spec_fn(TunnelPeerId) -> Option<NodePublicKey>,
)
    requires
        after.consistent(),
        keys.len() == groups.len(),
        forall|i: int| 0 <= i < keys.len() ==> #[trigger] keys[i] == key_of(groups[i].0),
        forall|i: int|
            0 <= i < keys.len() && #[trigger] keys[i] is Some ==> after.ids.contains_key(
                keys[i]->0,
            ),
    ensures
        addressed(paired(keys, group_packets(groups)).filter_map(under_peer(after)))
            == groups.filter_map(under_id(after, key_of)),
    decreases keys.len(),
{
    let pairs = paired(keys, group_packets(groups));
    if keys.len() == 0 {
        assert(addressed(pairs.filter_map(under_peer(after))) =~= groups.filter_map(
            under_id(after, key_of),
        ));
    } else {
        let last = keys.len() - 1;
        let rest = keys.drop_last();
        let before = groups.drop_last();
        assert forall|i: int| 0 <= i < rest.len() implies #[trigger] rest[i] == key_of(
            before[i].0,
        ) by {
            assert(keys[i] == key_of(groups[i].0));
        }
        assert forall|i: int| 0 <= i < rest.len() && #[trigger] rest[i] is Some implies
            after.ids.contains_key(rest[i]->0) by {
            assert(keys[i] is Some);
        }
        lemma_named_under_id(after, before, rest, key_of);
        assert(pairs.drop_last() =~= paired(rest, group_packets(before)));
        assert(keys[last] == key_of(groups[last].0));
        assert(pairs.last() == (keys[last], groups[last].1));
        assert(addressed(pairs.filter_map(under_peer(after))) =~= groups.filter_map(
            under_id(after, key_of),
        ));
    }
}

/// What is gathered at the end of `run`, and of which groups.
spec fn gathers<H>(
    run: Seq<Step<H>>,
    key_of: spec_fn(TunnelPeerId) -> Option<NodePublicKey>,
) -> bool {
    let tables = run.last().tables_after;
    let all = dispatched(run);
    &&& tables.consistent()
    &&& match run.last().after.stage {
        Stage::EvRunning { gathered, .. } => {
            &&& all_named(tables, key_of, all)
            &&& latest(gathered@) == latest(all.filter_map(under_id(tables, key_of)))
            &&& run.last().request is DispatchWireguard
        },
        Stage::EvNaming { gathered, sent, .. } => {
            let done = dispatched(run.drop_last());
            &&& all_named(tables, key_of, done)
            &&& latest(gathered@) == latest(done.filter_map(under_id(tables, key_of)))
            &&& match (run.last().reply, run.last().request) {
                (Reply::WireguardDispatched(groups), Request::PeerKeys(asked)) => {
                    &&& all == done + groups@
                    &&& sent@ == group_packets(groups@)
                    &&& asked@.len() == groups@.len()
                    &&& forall|i: int|
                        0 <= i < groups@.len() ==> #[trigger] asked@[i] == groups@[i].0
                },
                _ => false,
            }
        },
        Stage::EvDelivering => {
            &&& all_named(tables, key_of, all)
            &&& run.last().request matches Request::RouteUnderlay(batch) && named_once(batch@)
                && latest(batch@) == latest(all.filter_map(under_id(tables, key_of)))
        },
        _ => false,
    }
}

proof fn lemma_events_gather<H>(
    run: Seq<Step<H>>,
    now: Instant,
    due: Vec<Subsystem>,
    key_of: spec_fn(TunnelPeerId) -> Option<NodePublicKey>,
)
    requires
        is_run(run),
        run.len() > 0,
        run[0].before.stage == (Stage::EvDispatching { now }),
        run[0].reply == Reply::<H>::TimersDispatched(due),
        run[0].tables.consistent(),
        forall|i: int| 0 < i < run.len() ==> #[trigger] keys_told(run, i, key_of),
        forall|i: int| 0 <= i < run.len() ==> has_ids(#[trigger] run[i]),
        forall|i: int| 0 <= i < run.len() - 1 ==> !((#[trigger] run[i]).request is RouteUnderlay),
    ensures
        gathers(run, key_of),
    decreases run.len(),
{
    let n = run.len() - 1;
    let last = run[n];
    assert(last.taken());
    let rest = run.drop_last();
    reveal_with_fuel(dispatched, 2);
    if n == 0 {
        assert(dispatched(run) =~= Seq::empty());
        assert(dispatched(run).filter_map(under_id(last.tables_after, key_of)) =~= Seq::empty());
    } else {
        lemma_run_before(run);
        assert forall|i: int| 0 < i < rest.len() implies #[trigger] keys_told(rest, i, key_of) by {
            assert(keys_told(run, i, key_of));
        }
        assert forall|i: int| 0 <= i < rest.len() implies has_ids(#[trigger] rest[i]) by {
            assert(has_ids(run[i]));
        }
        assert forall|i: int| 0 <= i < rest.len() - 1 implies !((#[trigger] rest[i]).request
            is RouteUnderlay) by {
            assert(!(run[i].request is RouteUnderlay));
        }
        lemma_events_gather(rest, now, due, key_of);
        assert(follows(run, n) && keys_told(run, n, key_of) && has_ids(run[n]));
        assert(!(run[n - 1].request is RouteUnderlay));
        assert(rest.last() == run[n - 1]);
        if let (Stage::EvNaming { gathered, sent, .. }, Reply::PeerKeys(keys)) = (
            last.before.stage,
            last.reply,
        ) {
            let before = last.tables;
            let after = last.tables_after;
            let done = dispatched(rest.drop_last());
            let groups = run[n - 1].reply->WireguardDispatched_0@;
            let asked = run[n - 1].request->PeerKeys_0@;
            assert forall|i: int| 0 <= i < keys@.len() implies #[trigger] keys@[i] == key_of(
                groups[i].0,
            ) by {
                assert(asked[i] == groups[i].0);
            }
            law_groups_are_named_by_their_keys(before, keys@, sent@);
            law_naming_keeps_consistent(before, keys@);
            lemma_named_under_id(after, groups, keys@, key_of);
            law_naming_adds_only_the_named(before, keys@);
            assert forall|i: int|
                0 <= i < done.len() && key_of((#[trigger] done[i]).0) is Some implies {
                &&& after.ids.contains_key(key_of(done[i].0)->0)
                &&& after.ids[key_of(done[i].0)->0] == before.ids[key_of(done[i].0)->0]
            } by {
                let key = key_of(done[i].0)->0;
                assert(before.ids.contains_key(key));
                assert(enrolled_all(before, keys@).ids.contains_key(key));
            }
            lemma_filter_map_agrees(done, under_id(before, key_of), under_id(after, key_of));
            lemma_filter_map_in_turn(done, groups, under_id(after, key_of));
            lemma_latest_behind(
                gathered@,
                done.filter_map(under_id(after, key_of)),
                groups.filter_map(under_id(after, key_of)),
            );
            let all = dispatched(run);
            assert(all == done + groups);
            assert forall|i: int| 0 <= i < all.len() && key_of((#[trigger] all[i]).0) is Some implies
                after.ids.contains_key(key_of(all[i].0)->0) by {
                if i < done.len() {
                    assert(all[i] == done[i]);
                } else {
                    assert(all[i] == groups[i - done.len()]);
                    assert(keys@[i - done.len()] == key_of(all[i].0));
                    assert(keys@[i - done.len()] is Some);
                }
            }
        }
    }
}

/// A pass over timers asks the tunnel once for each event that is due, always at the time of the
/// pass. Of all that the tunnel sends at these events, the groups of tunnel peers that have a key
/// go to the peers of the keys, and nothing else does; a peer to which several go gets the last of
/// them.
pub proof fn law_dispatched_groups_go_to_their_peers<H>(
    run: Seq<Step<H>>,
    now: Instant,
    due: Vec<Subsystem>,
    key_of: spec_fn(TunnelPeerId) -> Option<NodePublicKey>,
)
    requires
        is_run(run),
        run.len() > 0,
        run[0].before.stage == (Stage::EvDispatching { now }),
        run[0].reply == Reply::<H>::TimersDispatched(due),
        run[0].tables.consistent(),
        forall|i: int| 0 < i < run.len() ==> #[trigger] keys_told(run, i, key_of),
        forall|i: int| 0 <= i < run.len() ==> has_ids(#[trigger] run[i]),
        forall|i: int| 0 <= i < run.len() - 1 ==> !((#[trigger] run[i]).request is RouteUnderlay),
    ensures
        match run.last().request {
            Request::DispatchWireguard(at) => at == now && dispatches(run, now) <= due@.len(),
            Request::PeerKeys(_) => run.last().reply is WireguardDispatched,
            Request::RouteUnderlay(batch) => {
                &&& run.last().after.stage is EvDelivering
                &&& dispatches(run, now) == due@.len()
                &&& exists|routed: Seq<(PeerId, Vec<Packet>)>|
                    {
                        &&& #[trigger] routed_in_place(
                            dispatched(run),
                            key_of,
                            run.last().tables_after,
                            routed,
                        )
                        &&& last_groups(routed, batch@)
                    }
            },
            _ => false,
        },
{
    let n = run.len() - 1;
    assert(run[n].taken());
    lemma_events_gather(run, now, due, key_of);
    law_events_send_the_last_group(run, now, due);
    law_step_gets_closer(run[n]);
    let tables = run[n].tables_after;
    let all = dispatched(run);
    let f = under_id(tables, key_of);
    if let Request::RouteUnderlay(batch) = run[n].request {
        let routed = all.filter_map(f);
        lemma_last_groups(routed, batch@);
        let at = lemma_places_kept(all, f);
        assert forall|i: int| 0 <= i < at.len() implies {
            let key = key_of(all[#[trigger] at[i]].0)->0;
            &&& tables.ids.contains_key(key)
            &&& routed[i].0 == PeerId(tables.ids[key])
            &&& routed[i].1 == all[at[i]].1
        } by {
            assert(f(all[at[i]]) == Some(routed[i]));
        }
        assert(routed_in_place(all, key_of, tables, routed));
    }
}

/// The end of a pass over timers: it ends with what the underlay made of the packets.
pub proof fn law_events_end_with_what_was_routed<H>(run: Seq<Step<H>>)
    requires
        is_run(run),
        run.len() > 0,
        run[0].before.stage is EvDelivering,
    ensures
        run[0].request is NextEvent,
        run[0].reply matches Reply::UnderlayRouted(to_peers) && winds_up(
            run,
            1,
            Outcome::Events(EventResult { to_peers }),
        ),
        run[0].tables_after == run[0].tables,
{
    assert(run[0].taken());
    lemma_winds_up(run, 1);
}

/// A pass begins by routing what it is given, by decrypting it, or by collecting the events that
/// are due, and in no other way; the scheduled event stays.
pub proof fn law_passes_begin_with_what_is_given<H>(
    packets: Vec<Packet>,
    now: Instant,
    request: Request<H>,
)
    ensures
        forall|plane: &mut DataPlane<H>| #[trigger]
            call_ensures(DataPlane::<H>::process_outbound, (plane, packets), request) ==> {
                &&& request == Request::<H>::RouteOutbound(packets)
                &&& final(plane).stage is OutRouting
                &&& final(plane).wg_next == plane.wg_next
            },
        forall|plane: &mut DataPlane<H>| #[trigger]
            call_ensures(DataPlane::<H>::process_inbound, (plane, packets), request) ==> {
                &&& request == Request::<H>::Receive(packets)
                &&& final(plane).stage is InReceiving
                &&& final(plane).wg_next == plane.wg_next
            },
        forall|plane: &mut DataPlane<H>| #[trigger]
            call_ensures(DataPlane::<H>::process_events, (plane, now), request) ==> {
                &&& request == Request::<H>::DispatchTimers(now)
                &&& final(plane).stage == (Stage::EvDispatching { now })
                &&& final(plane).wg_next == plane.wg_next
            },
        forall|plane: DataPlane<H>| #[trigger]
            call_ensures(DataPlane::<H>::new, (), plane) ==> plane.stage is Idle && plane.wg_next
                is None,
{
}

/// The packets whose source addresses are asked about are those that wait for it.
pub proof fn law_unfiltered_packets_are_shown<H>(
    plane: DataPlane<H>,
    shown: Option<&Vec<(PeerInfo, Vec<Packet>)>>,
)
    requires
        call_ensures(DataPlane::<H>::unfiltered, (&plane,), shown),
    ensures
        shown is Some <==> plane.stage is InFiltering,
        shown matches Some(groups) ==> groups@ == unfiltered_groups(plane.stage),
{
}

/// Where keys are learned, whatever the peers are, the groups that waited for them are named by
/// them and go on their way at once: what was encrypted or answered, to the underlay; what was
/// decrypted, to the source filter; what an event sent, to what was gathered before it.
pub proof fn law_learned_keys_name_what_waits<H>(step: Step<H>, keys: Vec<Option<NodePublicKey>>)
    requires
        step.taken(),
        step.reply == Reply::<H>::PeerKeys(keys),
    ensures
        step.tables_after == enrolled_all(step.tables, keys@),
        match (step.before.stage, step.after.stage, step.request) {
            (
                Stage::OutNaming { loopback, sent },
                Stage::OutDelivering { loopback: kept },
                Request::RouteUnderlay(batch),
            ) => {
                let groups = named(step.tables, keys@, sent@);
                &&& kept == loopback
                &&& batch@.len() == groups.len()
                &&& forall|i: int|
                    0 <= i < groups.len() ==> #[trigger] batch@[i] == (
                        groups[i].0.peer_id,
                        groups[i].1,
                    )
            },
            (
                Stage::InNaming { to_local, to_peers },
                Stage::InFiltering { groups, to_peers: kept },
                Request::LookUpSources,
            ) => kept == to_peers && groups@ == named(step.tables, keys@, to_local@),
            (
                Stage::InReplying { to_local, to_peers },
                Stage::InDelivering { to_local: kept },
                Request::RouteUnderlay(batch),
            ) => {
                let groups = named(step.tables, keys@, to_peers@);
                &&& kept == to_local
                &&& batch@.len() == groups.len()
                &&& forall|i: int|
                    0 <= i < groups.len() ==> #[trigger] batch@[i] == (
                        groups[i].0.peer_id,
                        groups[i].1,
                    )
            },
            (
                Stage::EvNaming { now, due, begun, gathered, sent },
                Stage::EvRunning { now: at, due: all, begun: count, gathered: more },
                Request::DispatchWireguard(time),
            ) => {
                let groups = named(step.tables, keys@, sent@);
                &&& begun < due@.len()
                &&& at == now && time == now && all@ == due@ && count == begun + 1
                &&& last_groups(
                    gathered@ + Seq::new(
                        groups.len(),
                        |i: int| (groups[i].0.peer_id, groups[i].1),
                    ),
                    more@,
                )
            },
            (
                Stage::EvNaming { now, due, begun, gathered, sent },
                Stage::EvDelivering,
                Request::RouteUnderlay(batch),
            ) => {
                let groups = named(step.tables, keys@, sent@);
                &&& begun == due@.len()
                &&& last_groups(
                    gathered@ + Seq::new(
                        groups.len(),
                        |i: int| (groups[i].0.peer_id, groups[i].1),
                    ),
                    batch@,
                )
            },
            _ => false,
        },
{
    if let Stage::EvNaming { gathered, sent, .. } = step.before.stage {
        let groups = named(step.tables, keys@, sent@);
        let added = Seq::new(groups.len(), |i: int| (groups[i].0.peer_id, groups[i].1));
        assert(addressed(groups) =~= added);
        match (step.after.stage, step.request) {
            (Stage::EvRunning { gathered: more, .. }, _) => lemma_last_groups(
                gathered@ + added,
                more@,
            ),
            (_, Request::RouteUnderlay(batch)) => lemma_last_groups(gathered@ + added, batch@),
            _ => {},
        }
    }
}

/// Steps that are taken, each where the one before it ended, are a run, however many they are.
pub proof fn law_steps_make_a_run<H>(run: Seq<Step<H>>, step: Step<H>)
    requires
        is_run(run),
        step.taken(),
        run.len() > 0 ==> step.before == run.last().after && step.tables == run.last().tables_after,
    ensures
        is_run(run.push(step)),
        is_run(Seq::<Step<H>>::empty()),
{
    let more = run.push(step);
    assert forall|i: int| 0 <= i < more.len() implies (#[trigger] more[i]).taken() by {
        if i < run.len() {
            assert(run[i].taken());
        }
    }
    assert forall|i: int| 0 < i < more.len() implies #[trigger] follows(more, i) by {
        if i < run.len() {
            assert(follows(run, i));
        }
    }
}

/// A tunnel that answers each id with one key, always the same, and each key with one id, tells
/// them as the laws of passes ask for.
pub proof fn law_a_steady_tunnel_tells_all<H>(
    request: Request<H>,
    reply: Reply<H>,
    ids: spec_fn(NodePublicKey) -> TunnelPeerId,
    key_of: spec_fn(TunnelPeerId) -> Option<NodePublicKey>,
)
    requires
        request matches Request::PeerKeys(asked) ==> {
            &&& reply matches Reply::PeerKeys(keys) ==> keys@ == asked@.map_values(key_of)
        },
        request matches Request::AddPeer(config) ==> {
            &&& reply matches Reply::PeerAdded(Some(id)) ==> id == ids(config.key)
        },
        request matches Request::FindPeer(key) ==> {
            &&& reply matches Reply::PeerFound(Some(id)) ==> id == ids(key)
        },
    ensures
        tells_keys(request, reply, key_of),
        tells_id(request, reply, ids),
{
}

/// While ids are ahead and one is left for each key, a step has free ids.
pub proof fn law_ids_ahead_are_free<H>(step: Step<H>)
    requires
        step.tables.ahead(),
        step.reply matches Reply::PeerKeys(keys) ==> step.tables.next_id + keys@.len() <= u32::MAX,
    ensures
        has_ids(step),
{
    if let Reply::PeerKeys(keys) = step.reply {
        law_ids_ahead_suffice(step.tables, keys@);
    }
}

} // verus!
