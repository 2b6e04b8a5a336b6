//! Packets in groups: to whom they go and from whom they come.

use std::collections::VecDeque;

use vstd::prelude::*;

use crate::filter::paired;
use crate::peer_map::{
    law_enrol_again, law_enrol_keeps_consistent, law_enrol_leaves_others, PeerDb, PeerDbError,
    PeerInfo, PeerTables,
};
use crate::places::{lemma_places_kept, places};
use crate::types::{NodePublicKey, Packet, PeerId, TunnelPeerId};

verus! {

/// Picks a group whose peer `tables` know, under the key of that peer.
pub open spec fn keyed(tables: PeerTables) -> spec_fn((PeerId, Vec<Packet>)) -> Option<
    (NodePublicKey, Vec<Packet>),
> {
    |group: (PeerId, Vec<Packet>)|
        match tables.peers.get(group.0.0) {
            Some(info) => Some((info.node_key, group.1)),
            None => None,
        }
}

/// Puts each group under the key of its peer. Groups of unknown peers are dropped.
///
/// Which lookups the engine fails is not said here.
pub fn key_groups(db: &PeerDb, groups: Vec<(PeerId, Vec<Packet>)>) -> (res: Result<
    VecDeque<(NodePublicKey, Vec<Packet>)>,
    PeerDbError,
>)
    requires
        db.wf(),
    ensures
        match res {
            Ok(kept) => kept@ == groups@.filter_map(keyed(db@)),
            Err(PeerDbError::Storage(e)) => groups@.len() > 0 && exists|i: int|
                0 <= i < groups@.len() && db.lookup_fails(#[trigger] groups@[i].0, e),
            Err(_) => false,
        },
{
    let mut kept: VecDeque<(NodePublicKey, Vec<Packet>)> = VecDeque::new();
    for group in it: groups.into_iter()
        invariant
            db.wf(),
            it.seq() == groups@,
            kept@ == groups@.take(it.index() as int).filter_map(keyed(db@)),
    {
        proof {
            groups@.lemma_filter_map_take_succ(keyed(db@), it.index() as int);
        }
        match db.get_by_id(group.0) {
            Ok(Some(info)) => {
                kept.push_back((info.node_key, group.1));
            },
            Ok(None) => {},
            Err(e) => {
                return Err(e);
            },
        }
    }
    proof {
        assert(groups@.take(groups@.len() as int) =~= groups@);
    }
    Ok(kept)
}

/// The tables once every key in `keys` has a peer, the first key first.
pub open spec fn enrolled_all(tables: PeerTables, keys: Seq<Option<NodePublicKey>>) -> PeerTables
    decreases keys.len(),
{
    if keys.len() == 0 {
        tables
    } else {
        let rest = enrolled_all(tables, keys.drop_last());
        match keys.last() {
            Some(key) => rest.enrolled(key),
            None => rest,
        }
    }
}

/// The groups whose sender has a key, each under the peer of that key, where keys without a peer
/// get one in turn.
pub open spec fn named(
    tables: PeerTables,
    keys: Seq<Option<NodePublicKey>>,
    groups: Seq<Vec<Packet>>,
) -> Seq<(PeerInfo, Vec<Packet>)>
    decreases keys.len(),
{
    if keys.len() == 0 {
        Seq::empty()
    } else {
        let rest = named(tables, keys.drop_last(), groups.drop_last());
        match keys.last() {
            Some(key) => rest.push(
                (enrolled_all(tables, keys.drop_last()).info_for(key), groups.last()),
            ),
            None => rest,
        }
    }
}

/// Whether the first `n` keys got their peers, and those alone; the id for the next may be used up.
pub open spec fn named_until(
    before: PeerTables,
    keys: Seq<Option<NodePublicKey>>,
    n: int,
    after: PeerTables,
) -> bool {
    &&& 0 <= n < keys.len()
    &&& keys[n] is Some
    &&& after == PeerTables { next_id: after.next_id, ..enrolled_all(before, keys.take(n)) }
    &&& {
        ||| after.next_id == enrolled_all(before, keys.take(n)).next_id
        ||| after.next_id == enrolled_all(before, keys.take(n + 1)).next_id
    }
}

/// Whether `e` is how the engine failed a call, short of the commit, that asking for `key` needs in
/// a database that holds `tables`.
pub open spec fn asking_failed(tables: PeerTables, key: NodePublicKey, e: redb::Error) -> bool {
    exists|db: PeerDb| db@ == tables && #[trigger] db.asking_fails(key, e)
}

/// Whether `e` is how the engine failed to commit the new peer of `key` in a database that held
/// `tables`.
pub open spec fn enrolling_failed(tables: PeerTables, key: NodePublicKey, e: redb::Error) -> bool {
    exists|db: PeerDb| db@ == tables && #[trigger] db.enrolling_fails(key, e)
}

/// What is known of the database `db` once `e` ended the naming of the groups of `keys`: the keys
/// before the one at which it ended have their peers. Only a new peer is committed, so only for
/// one can a commit fail; of the database it then leaves nothing is known.
pub open spec fn naming_failed(
    before: PeerTables,
    keys: Seq<Option<NodePublicKey>>,
    e: PeerDbError,
    db: PeerDb,
) -> bool {
    match e {
        PeerDbError::MissingPeer(id) => {
            &&& db.wf()
            &&& exists|n: int|
                {
                    &&& #[trigger] named_until(before, keys, n, db@)
                    &&& db@.next_id == enrolled_all(before, keys.take(n)).next_id
                    &&& db@.dangling(keys[n]->0)
                    &&& id == PeerId(db@.ids[keys[n]->0])
                }
        },
        PeerDbError::Storage(error) => {
            &&& db.wf()
            &&& exists|n: int|
                {
                    &&& #[trigger] named_until(before, keys, n, db@)
                    &&& asking_failed(enrolled_all(before, keys.take(n)), keys[n]->0, error)
                }
        },
        PeerDbError::Commit(error) => exists|n: int|
            {
                &&& 0 <= n < keys.len()
                &&& #[trigger] keys[n] is Some
                &&& !enrolled_all(before, keys.take(n)).ids.contains_key(keys[n]->0)
                &&& enrolling_failed(enrolled_all(before, keys.take(n)), keys[n]->0, error)
            },
    }
}

/// Puts each group under the peer that its key stands for; keys without a peer get one. Groups
/// without a key are dropped.
///
/// Which calls the engine fails is not said here. Where one fails, the keys before it have their
/// peers.
pub fn name_groups(
    db: &mut PeerDb,
    keys: &Vec<Option<NodePublicKey>>,
    groups: Vec<Vec<Packet>>,
) -> (res: Result<Vec<(PeerInfo, Vec<Packet>)>, PeerDbError>)
    requires
        old(db).wf(),
        keys@.len() == groups@.len(),
    ensures
        match res {
            Ok(kept) => {
                &&& final(db).wf()
                &&& final(db)@ == enrolled_all(old(db)@, keys@)
                &&& kept@ == named(old(db)@, keys@, groups@)
                &&& forall|n: int|
                    0 <= n < keys@.len() && #[trigger] keys@[n] is Some ==> !enrolled_all(
                        old(db)@,
                        keys@.take(n),
                    ).dangling(keys@[n]->0)
            },
            Err(e) => naming_failed(old(db)@, keys@, e, *final(db)),
        },
{
    let mut kept: Vec<(PeerInfo, Vec<Packet>)> = Vec::new();
    let mut i: usize = 0;
    for group in it: groups.into_iter()
        invariant
            i == it.index(),
            db.wf(),
            it.seq() == groups@,
            keys.len() == groups@.len(),
            db@ == enrolled_all(old(db)@, keys@.take(it.index() as int)),
            kept@ == named(
                old(db)@,
                keys@.take(it.index() as int),
                groups@.take(it.index() as int),
            ),
            forall|m: int|
                0 <= m < i && #[trigger] keys@[m] is Some ==> !enrolled_all(
                    old(db)@,
                    keys@.take(m),
                ).dangling(keys@[m]->0),
    {
        let ghost n = i as int;
        proof {
            assert(keys@.take(n + 1).drop_last() =~= keys@.take(n));
            assert(groups@.take(n + 1).drop_last() =~= groups@.take(n));
        }
        if let Some(key) = keys[i] {
            let ghost held = *db;
            match db.get_or_insert(&key) {
                Ok(info) => {
                    kept.push((info, group));
                },
                Err(e) => {
                    proof {
                        assert(e is Storage ==> held.asking_fails(key, e->Storage_0));
                        assert(e is Commit ==> held.enrolling_fails(key, e->Commit_0));
                        assert(!(e is Commit) ==> named_until(old(db)@, keys@, n, db@));
                    }
                    return Err(e);
                },
            }
        }
        i += 1;
    }
    proof {
        assert(groups@.take(groups@.len() as int) =~= groups@);
        assert(keys@.take(keys@.len() as int) =~= keys@);
    }
    Ok(kept)
}

/// Parts each group from the id that it stands under.
pub fn split_groups(groups: Vec<(TunnelPeerId, Vec<Packet>)>) -> (parts: (
    Vec<TunnelPeerId>,
    Vec<Vec<Packet>>,
))
    ensures
        parts.0@ == groups@.map_values(|group: (TunnelPeerId, Vec<Packet>)| group.0),
        parts.1@ == groups@.map_values(|group: (TunnelPeerId, Vec<Packet>)| group.1),
{
    let mut ids: Vec<TunnelPeerId> = Vec::new();
    let mut packets: Vec<Vec<Packet>> = Vec::new();
    for group in it: groups.into_iter()
        invariant
            it.seq() == groups@,
            ids@ == groups@.take(it.index() as int).map_values(
                |group: (TunnelPeerId, Vec<Packet>)| group.0,
            ),
            packets@ == groups@.take(it.index() as int).map_values(
                |group: (TunnelPeerId, Vec<Packet>)| group.1,
            ),
    {
        ids.push(group.0);
        packets.push(group.1);
    }
    (ids, packets)
}

/// Addresses each group by the id of its peer.
pub open spec fn addressed(groups: Seq<(PeerInfo, Vec<Packet>)>) -> Seq<(PeerId, Vec<Packet>)> {
    groups.map_values(|group: (PeerInfo, Vec<Packet>)| (group.0.peer_id, group.1))
}

/// Addresses each group by the id of its peer.
pub fn address_groups(groups: Vec<(PeerInfo, Vec<Packet>)>) -> (addressed_groups: Vec<
    (PeerId, Vec<Packet>),
>)
    ensures
        addressed_groups@ == addressed(groups@),
{
    let mut out: Vec<(PeerId, Vec<Packet>)> = Vec::new();
    for group in it: groups.into_iter()
        invariant
            it.seq() == groups@,
            out@ == addressed(groups@.take(it.index() as int)),
    {
        out.push((group.0.peer_id, group.1));
    }
    out
}

/// What each peer gets of `groups`: the last group that names it.
pub open spec fn latest(groups: Seq<(PeerId, Vec<Packet>)>) -> Map<PeerId, Vec<Packet>>
    decreases groups.len(),
{
    if groups.len() == 0 {
        Map::empty()
    } else {
        latest(groups.drop_last()).insert(groups.last().0, groups.last().1)
    }
}

/// Whether no peer is named twice.
pub open spec fn named_once(groups: Seq<(PeerId, Vec<Packet>)>) -> bool {
    forall|i: int, j: int|
        0 <= i < groups.len() && 0 <= j < groups.len() && i != j ==> (#[trigger] groups[i]).0 != (
        #[trigger] groups[j]).0
}

/// In groups that name each peer once, a peer gets the group that names it, and no other peer gets
/// anything.
proof fn lemma_latest_named_once(groups: Seq<(PeerId, Vec<Packet>)>)
    requires
        named_once(groups),
    ensures
        forall|i: int|
            0 <= i < groups.len() ==> latest(groups).contains_key((#[trigger] groups[i]).0)
                && latest(groups)[groups[i].0] == groups[i].1,
        forall|id: PeerId| #[trigger]
            latest(groups).contains_key(id) ==> exists|i: int|
                0 <= i < groups.len() && (#[trigger] groups[i]).0 == id,
    decreases groups.len(),
{
    if groups.len() > 0 {
        let rest = groups.drop_last();
        lemma_latest_named_once(rest);
        assert forall|i: int| 0 <= i < groups.len() implies latest(groups).contains_key(
            (#[trigger] groups[i]).0,
        ) && latest(groups)[groups[i].0] == groups[i].1 by {
            if i < rest.len() {
                assert(rest[i] == groups[i]);
            }
        }
        assert forall|id: PeerId| #[trigger] latest(groups).contains_key(id) implies exists|i: int|
            0 <= i < groups.len() && (#[trigger] groups[i]).0 == id by {
            if id == groups.last().0 {
                assert(groups[groups.len() - 1].0 == id);
            } else {
                assert(latest(rest).contains_key(id));
                let i = choose|i: int| 0 <= i < rest.len() && (#[trigger] rest[i]).0 == id;
                assert(groups[i] == rest[i]);
            }
        }
    }
}

/// Gives a peer `packets` in place of what `gathered` has for it.
fn put_group(gathered: &mut Vec<(PeerId, Vec<Packet>)>, peer_id: PeerId, packets: Vec<Packet>)
    requires
        named_once(old(gathered)@),
    ensures
        named_once(final(gathered)@),
        latest(final(gathered)@) == latest(old(gathered)@).insert(peer_id, packets),
{
    let mut i: usize = 0;
    while i < gathered.len()
        invariant
            i <= gathered.len(),
            gathered@ == old(gathered)@,
            forall|j: int| 0 <= j < i ==> (#[trigger] gathered@[j]).0 != peer_id,
        ensures
            i <= gathered.len(),
            gathered@ == old(gathered)@,
            forall|j: int| 0 <= j < i ==> (#[trigger] gathered@[j]).0 != peer_id,
            i < gathered.len() ==> gathered@[i as int].0 == peer_id,
        decreases gathered.len() - i,
    {
        if gathered[i].0 == peer_id {
            break;
        }
        i += 1;
    }
    if i < gathered.len() {
        gathered.set(i, (peer_id, packets));
    } else {
        gathered.push((peer_id, packets));
    }
    proof {
        lemma_latest_named_once(old(gathered)@);
        assert(named_once(gathered@));
        lemma_latest_named_once(gathered@);
        let before = latest(old(gathered)@).insert(peer_id, packets);
        let after = latest(gathered@);
        assert(gathered@[i as int] == (peer_id, packets));
        assert forall|id: PeerId| after.contains_key(id) <==> before.contains_key(id) by {
            if after.contains_key(id) {
                let j = choose|j: int|
                    0 <= j < gathered@.len() && (#[trigger] gathered@[j]).0 == id;
                if j != i {
                    assert(old(gathered)@[j] == gathered@[j]);
                }
            }
            if before.contains_key(id) && id != peer_id {
                let j = choose|j: int|
                    0 <= j < old(gathered)@.len() && (#[trigger] old(gathered)@[j]).0 == id;
                assert(old(gathered)@[j] == gathered@[j]);
            }
        }
        assert forall|id: PeerId| after.contains_key(id) implies after[id] == before[id] by {
            let j = choose|j: int| 0 <= j < gathered@.len() && (#[trigger] gathered@[j]).0 == id;
            if j != i {
                assert(old(gathered)@[j] == gathered@[j]);
            }
        }
        assert(after =~= before);
    }
}

/// Adds groups to those gathered. A peer that is named again gets the later packets alone.
pub fn gather(
    gathered: Vec<(PeerId, Vec<Packet>)>,
    groups: Vec<(PeerInfo, Vec<Packet>)>,
) -> (all: Vec<(PeerId, Vec<Packet>)>)
    requires
        named_once(gathered@),
    ensures
        named_once(all@),
        latest(all@) == latest(gathered@ + addressed(groups@)),
{
    let mut all = gathered;
    proof {
        assert(gathered@ + addressed(groups@.take(0)) =~= gathered@);
    }
    for group in it: groups.into_iter()
        invariant
            it.seq() == groups@,
            named_once(all@),
            latest(all@) == latest(gathered@ + addressed(groups@.take(it.index() as int))),
    {
        let ghost n = it.index() as int;
        proof {
            let next = gathered@ + addressed(groups@.take(n + 1));
            assert(next.drop_last() =~= gathered@ + addressed(groups@.take(n)));
            assert(next.last() == (group.0.peer_id, group.1));
        }
        put_group(&mut all, group.0.peer_id, group.1);
    }
    proof {
        assert(groups@.take(groups@.len() as int) =~= groups@);
    }
    all
}

/// Whether each key that has no peer yet gets an id that is free, in turn.
pub open spec fn ids_suffice(tables: PeerTables, keys: Seq<Option<NodePublicKey>>) -> bool {
    forall|n: int|
        0 <= n < keys.len() && #[trigger] keys[n] is Some ==> {
            let held = enrolled_all(tables, keys.take(n));
            ||| held.ids.contains_key(keys[n]->0)
            ||| !held.peers.contains_key(held.next_id)
        }
}

/// Ids suffice while they are ahead and there is one left for each key.
pub proof fn law_ids_ahead_suffice(tables: PeerTables, keys: Seq<Option<NodePublicKey>>)
    requires
        tables.ahead(),
        tables.next_id + keys.len() <= u32::MAX,
    ensures
        ids_suffice(tables, keys),
        enrolled_all(tables, keys).ahead(),
        tables.next_id <= enrolled_all(tables, keys).next_id <= tables.next_id + keys.len(),
    decreases keys.len(),
{
    if keys.len() > 0 {
        let rest = keys.drop_last();
        law_ids_ahead_suffice(tables, rest);
        assert forall|n: int| 0 <= n < keys.len() && #[trigger] keys[n] is Some implies {
            let held = enrolled_all(tables, keys.take(n));
            ||| held.ids.contains_key(keys[n]->0)
            ||| !held.peers.contains_key(held.next_id)
        } by {
            if n < rest.len() {
                assert(rest[n] is Some);
                assert(rest.take(n) =~= keys.take(n));
            } else {
                assert(rest =~= keys.take(n));
            }
        }
    }
}

/// Naming groups keeps the tables consistent, as long as ids suffice, and every key that was named
/// has a peer from then on.
pub proof fn law_naming_keeps_consistent(tables: PeerTables, keys: Seq<Option<NodePublicKey>>)
    requires
        tables.consistent(),
        ids_suffice(tables, keys),
    ensures
        enrolled_all(tables, keys).consistent(),
        forall|n: int|
            0 <= n < keys.len() && #[trigger] keys[n] is Some ==> enrolled_all(
                tables,
                keys,
            ).ids.contains_key(keys[n]->0),
    decreases keys.len(),
{
    if keys.len() > 0 {
        let rest = keys.drop_last();
        lemma_ids_suffice_before(tables, keys);
        law_naming_keeps_consistent(tables, rest);
        let last = keys.len() - 1;
        assert(keys.take(last) =~= rest);
        if let Some(key) = keys[last] {
            law_enrol_keeps_consistent(enrolled_all(tables, rest), key);
        }
        let after = enrolled_all(tables, keys);
        assert forall|n: int|
            0 <= n < keys.len() && #[trigger] keys[n] is Some implies after.ids.contains_key(
            keys[n]->0,
        ) by {
            if n < last {
                assert(rest[n] is Some);
            }
        }
    }
}

proof fn lemma_ids_suffice_before(tables: PeerTables, keys: Seq<Option<NodePublicKey>>)
    requires
        keys.len() > 0,
        ids_suffice(tables, keys),
    ensures
        ids_suffice(tables, keys.drop_last()),
{
    let rest = keys.drop_last();
    assert forall|n: int| 0 <= n < rest.len() && #[trigger] rest[n] is Some implies {
        let held = enrolled_all(tables, rest.take(n));
        ||| held.ids.contains_key(rest[n]->0)
        ||| !held.peers.contains_key(held.next_id)
    } by {
        assert(keys[n] is Some);
        assert(rest.take(n) =~= keys.take(n));
    }
}

/// Puts a group that has a key under the peer that `tables` have for the key.
pub open spec fn under_peer(tables: PeerTables) -> spec_fn(
    (Option<NodePublicKey>, Vec<Packet>),
) -> Option<(PeerInfo, Vec<Packet>)> {
    |group: (Option<NodePublicKey>, Vec<Packet>)|
        match group.0 {
            Some(key) => Some((tables.info_for(key), group.1)),
            None => None,
        }
}

/// Every group that has a key is named, in order, by the peer that the key stands for afterwards:
/// groups of one key go to one peer, and a key that had a peer keeps it.
pub proof fn law_groups_are_named_by_their_keys(
    tables: PeerTables,
    keys: Seq<Option<NodePublicKey>>,
    groups: Seq<Vec<Packet>>,
)
    requires
        tables.consistent(),
        ids_suffice(tables, keys),
        keys.len() == groups.len(),
    ensures
        named(tables, keys, groups) == paired(keys, groups).filter_map(
            under_peer(enrolled_all(tables, keys)),
        ),
        forall|key: NodePublicKey| #[trigger]
            tables.ids.contains_key(key) ==> enrolled_all(tables, keys).ids.contains_key(key)
                && enrolled_all(tables, keys).info_for(key) == tables.info_for(key),
    decreases keys.len(),
{
    let pairs = paired(keys, groups);
    let after = enrolled_all(tables, keys);
    if keys.len() > 0 {
        let rest = keys.drop_last();
        let before = enrolled_all(tables, rest);
        lemma_ids_suffice_before(tables, keys);
        law_groups_are_named_by_their_keys(tables, rest, groups.drop_last());
        law_naming_keeps_consistent(tables, rest);
        let last = keys.len() - 1;
        assert(keys.take(last) =~= rest);
        assert(pairs.drop_last() =~= paired(rest, groups.drop_last()));
        assert forall|other: NodePublicKey| #[trigger]
            before.ids.contains_key(other) implies after.ids.contains_key(other) && after.info_for(
            other,
        ) == before.info_for(other) by {
            if let Some(key) = keys[last] {
                law_enrol_leaves_others(before, key, other);
            }
        }
        assert forall|i: int| 0 <= i < pairs.drop_last().len() implies under_peer(before)(
            #[trigger] pairs.drop_last()[i],
        ) == under_peer(after)(pairs.drop_last()[i]) by {
            assert(pairs.drop_last()[i].0 == rest[i]);
            if rest[i] is Some {
                assert(before.ids.contains_key(rest[i]->0));
            }
        }
        lemma_filter_map_agrees(pairs.drop_last(), under_peer(before), under_peer(after));
        if let Some(key) = keys[last] {
            law_enrol_again(before, key);
        }
    }
}

/// Groups whose keys all have peers are named by those, one for one, and no peer is added.
pub proof fn law_known_keys_are_named_as_they_are(
    tables: PeerTables,
    keys: Seq<Option<NodePublicKey>>,
    groups: Seq<Vec<Packet>>,
)
    requires
        keys.len() == groups.len(),
        forall|i: int|
            0 <= i < keys.len() ==> (#[trigger] keys[i] matches Some(key)
                && tables.ids.contains_key(key)),
    ensures
        enrolled_all(tables, keys) == tables,
        named(tables, keys, groups) == Seq::new(
            keys.len(),
            |i: int| (tables.info_for(keys[i]->0), groups[i]),
        ),
    decreases keys.len(),
{
    let all = Seq::new(keys.len(), |i: int| (tables.info_for(keys[i]->0), groups[i]));
    if keys.len() > 0 {
        let rest = keys.drop_last();
        assert forall|i: int| 0 <= i < rest.len() implies (#[trigger] rest[i] matches Some(key)
            && tables.ids.contains_key(key)) by {
            assert(keys[i] is Some);
        }
        law_known_keys_are_named_as_they_are(tables, rest, groups.drop_last());
        assert(keys[keys.len() - 1] is Some);
    }
    assert(named(tables, keys, groups) =~= all);
}

/// Two ways to pick items that agree on every item pick the same.
pub(crate) proof fn lemma_filter_map_agrees<A, B>(
    s: Seq<A>,
    f: spec_fn(A) -> Option<B>,
    g: spec_fn(A) -> Option<B>,
)
    requires
        forall|i: int| 0 <= i < s.len() ==> f(#[trigger] s[i]) == g(s[i]),
    ensures
        s.filter_map(f) == s.filter_map(g),
    decreases s.len(),
{
    if s.len() > 0 {
        let rest = s.drop_last();
        assert forall|i: int| 0 <= i < rest.len() implies f(#[trigger] rest[i]) == g(rest[i]) by {
            assert(rest[i] == s[i]);
        }
        lemma_filter_map_agrees(rest, f, g);
        assert(f(s[s.len() - 1]) == g(s[s.len() - 1]));
    }
}

/// What groups come to goes by what came before only through what that came to.
pub(crate) proof fn lemma_latest_behind(
    a: Seq<(PeerId, Vec<Packet>)>,
    b: Seq<(PeerId, Vec<Packet>)>,
    groups: Seq<(PeerId, Vec<Packet>)>,
)
    requires
        latest(a) == latest(b),
    ensures
        latest(a + groups) == latest(b + groups),
    decreases groups.len(),
{
    if groups.len() == 0 {
        assert(a + groups =~= a);
        assert(b + groups =~= b);
    } else {
        lemma_latest_behind(a, b, groups.drop_last());
        assert((a + groups).drop_last() =~= a + groups.drop_last());
        assert((b + groups).drop_last() =~= b + groups.drop_last());
    }
}

/// A batch is put under the keys of its peers: the groups of all peers that the database has, in
/// order, each under the key of its peer, and nothing else. It fails only where the engine fails to
/// read the record of a peer in the batch.
pub proof fn law_known_peers_are_keyed(
    db: PeerDb,
    groups: Vec<(PeerId, Vec<Packet>)>,
    res: Result<VecDeque<(NodePublicKey, Vec<Packet>)>, PeerDbError>,
)
    requires
        call_ensures(key_groups, (&db, groups), res),
    ensures
        match res {
            Ok(kept) => exists|at: Seq<int>|
                {
                    &&& #[trigger] places(at, groups@.len() as int)
                    &&& at.len() == kept@.len()
                    &&& forall|k: int|
                        0 <= k < groups@.len() ==> (#[trigger] at.contains(k)
                            <==> db@.peers.contains_key(groups@[k].0.0))
                    &&& forall|i: int|
                        0 <= i < at.len() ==> kept@[i] == (
                            db@.peers[groups@[#[trigger] at[i]].0.0].node_key,
                            groups@[at[i]].1,
                        )
                },
            Err(PeerDbError::Storage(e)) => exists|k: int|
                0 <= k < groups@.len() && db.lookup_fails(#[trigger] groups@[k].0, e),
            Err(_) => false,
        },
{
    let at = lemma_keyed_at(db@, groups@);
}

pub(crate) proof fn lemma_keyed_at(
    tables: PeerTables,
    groups: Seq<(PeerId, Vec<Packet>)>,
) -> (at: Seq<int>)
    ensures
        places(at, groups.len() as int),
        at.len() == groups.filter_map(keyed(tables)).len(),
        forall|k: int|
            0 <= k < groups.len() ==> (#[trigger] at.contains(k) <==> tables.peers.contains_key(
                groups[k].0.0,
            )),
        forall|i: int|
            0 <= i < at.len() ==> groups.filter_map(keyed(tables))[i] == (
                tables.peers[groups[#[trigger] at[i]].0.0].node_key,
                groups[at[i]].1,
            ),
{
    let at = lemma_places_kept(groups, keyed(tables));
    assert forall|i: int| 0 <= i < at.len() implies groups.filter_map(keyed(tables))[i] == (
        tables.peers[groups[#[trigger] at[i]].0.0].node_key,
        groups[at[i]].1,
    ) by {
        assert(keyed(tables)(groups[at[i]]) == Some(groups.filter_map(keyed(tables))[i]));
    }
    at
}

pub(crate) proof fn lemma_named_at(
    tables: PeerTables,
    keys: Seq<Option<NodePublicKey>>,
    groups: Seq<Vec<Packet>>,
) -> (at: Seq<int>)
    requires
        tables.consistent(),
        ids_suffice(tables, keys),
        keys.len() == groups.len(),
    ensures
        places(at, groups.len() as int),
        at.len() == named(tables, keys, groups).len(),
        forall|k: int| 0 <= k < groups.len() ==> (#[trigger] at.contains(k) <==> keys[k] is Some),
        forall|i: int|
            0 <= i < at.len() ==> {
                let after = enrolled_all(tables, keys);
                let key = keys[#[trigger] at[i]]->0;
                &&& keys[at[i]] is Some
                &&& after.ids.contains_key(key)
                &&& named(tables, keys, groups)[i] == (
                    PeerInfo { peer_id: PeerId(after.ids[key]), node_key: key },
                    groups[at[i]],
                )
            },
{
    let after = enrolled_all(tables, keys);
    let pairs = paired(keys, groups);
    law_groups_are_named_by_their_keys(tables, keys, groups);
    law_naming_keeps_consistent(tables, keys);
    let at = lemma_places_kept(pairs, under_peer(after));
    assert forall|k: int| 0 <= k < groups.len() implies (#[trigger] at.contains(k) <==> keys[k]
        is Some) by {
        assert(pairs[k] == (keys[k], groups[k]));
    }
    assert forall|i: int| 0 <= i < at.len() implies {
        let key = keys[#[trigger] at[i]]->0;
        &&& keys[at[i]] is Some
        &&& after.ids.contains_key(key)
        &&& named(tables, keys, groups)[i] == (
            PeerInfo { peer_id: PeerId(after.ids[key]), node_key: key },
            groups[at[i]],
        )
    } by {
        assert(under_peer(after)(pairs[at[i]]) == Some(named(tables, keys, groups)[i]));
        assert(pairs[at[i]] == (keys[at[i]], groups[at[i]]));
        assert(keys[at[i]] is Some);
    }
    at
}

/// Naming keys gives a peer to each of them and to no other key; every key that had one keeps it,
/// and a new one gets an id under which no peer stood.
pub proof fn law_naming_adds_only_the_named(tables: PeerTables, keys: Seq<Option<NodePublicKey>>)
    requires
        tables.consistent(),
        ids_suffice(tables, keys),
    ensures
        forall|key: NodePublicKey| #[trigger]
            enrolled_all(tables, keys).ids.contains_key(key) <==> tables.ids.contains_key(key)
                || keys.contains(Some(key)),
        forall|key: NodePublicKey| #[trigger]
            tables.ids.contains_key(key) ==> enrolled_all(tables, keys).ids[key]
                == tables.ids[key],
        forall|id: u32| #[trigger]
            tables.peers.contains_key(id) ==> enrolled_all(tables, keys).peers.contains_key(id)
                && enrolled_all(tables, keys).peers[id] == tables.peers[id],
        forall|key: NodePublicKey|
            !tables.ids.contains_key(key) && #[trigger] enrolled_all(
                tables,
                keys,
            ).ids.contains_key(key) ==> !tables.peers.contains_key(
                enrolled_all(tables, keys).ids[key],
            ),
    decreases keys.len(),
{
    if keys.len() > 0 {
        let rest = keys.drop_last();
        let last = keys.len() - 1;
        let before = enrolled_all(tables, rest);
        let after = enrolled_all(tables, keys);
        lemma_ids_suffice_before(tables, keys);
        law_naming_adds_only_the_named(tables, rest);
        law_naming_keeps_consistent(tables, rest);
        assert(keys.take(last) =~= rest);
        assert(keys[last] == keys.last());
        assert forall|key: NodePublicKey| #[trigger]
            after.ids.contains_key(key) <==> tables.ids.contains_key(key) || keys.contains(
            Some(key),
        ) by {
            if rest.contains(Some(key)) {
                let i = choose|i: int| 0 <= i < rest.len() && rest[i] == Some(key);
                assert(keys[i] == Some(key));
            }
            if keys.contains(Some(key)) {
                let i = choose|i: int| 0 <= i < keys.len() && keys[i] == Some(key);
                if i < last {
                    assert(rest[i] == Some(key));
                    assert(rest.contains(Some(key)));
                }
            }
            assert(before.ids.contains_key(key) <==> tables.ids.contains_key(key) || rest.contains(
                Some(key),
            ));
        }
        assert forall|id: u32| #[trigger] tables.peers.contains_key(id) implies {
            &&& after.peers.contains_key(id)
            &&& after.peers[id] == tables.peers[id]
        } by {
            assert(before.peers.contains_key(id));
        }
        assert forall|key: NodePublicKey| #[trigger] tables.ids.contains_key(key) implies
            after.ids[key] == tables.ids[key] by {
            assert(before.ids.contains_key(key));
        }
        assert forall|key: NodePublicKey|
            !tables.ids.contains_key(key) && #[trigger] after.ids.contains_key(
                key,
            ) implies !tables.peers.contains_key(after.ids[key]) by {
            if before.ids.contains_key(key) {
                assert(after.ids[key] == before.ids[key]);
            } else {
                assert(after.ids[key] == before.next_id);
            }
        }
    }
}

/// Of gathered groups a peer gets the last one that names it: every peer that is named, and no
/// other, gets one group.
pub(crate) proof fn lemma_latest_at(groups: Seq<(PeerId, Vec<Packet>)>, id: PeerId)
    ensures
        latest(groups).contains_key(id) <==> exists|k: int|
            0 <= k < groups.len() && (#[trigger] groups[k]).0 == id,
        latest(groups).contains_key(id) ==> exists|k: int|
            {
                &&& 0 <= k < groups.len()
                &&& (#[trigger] groups[k]).0 == id
                &&& groups[k].1 == latest(groups)[id]
                &&& forall|later: int|
                    k < later < groups.len() ==> (#[trigger] groups[later]).0 != id
            },
    decreases groups.len(),
{
    if groups.len() > 0 {
        let rest = groups.drop_last();
        let last = groups.len() - 1;
        lemma_latest_at(rest, id);
        if groups[last].0 == id {
            assert(groups[last].1 == latest(groups)[id]);
        } else {
            if latest(groups).contains_key(id) {
                let k = choose|k: int|
                    {
                        &&& 0 <= k < rest.len()
                        &&& (#[trigger] rest[k]).0 == id
                        &&& rest[k].1 == latest(rest)[id]
                        &&& forall|later: int|
                            k < later < rest.len() ==> (#[trigger] rest[later]).0 != id
                    };
                assert(groups[k] == rest[k]);
                assert forall|later: int| k < later < groups.len() implies (
                #[trigger] groups[later]).0 != id by {
                    if later < last {
                        assert(rest[later] == groups[later]);
                    }
                }
            }
            if exists|k: int| 0 <= k < groups.len() && (#[trigger] groups[k]).0 == id {
                let k = choose|k: int| 0 <= k < groups.len() && (#[trigger] groups[k]).0 == id;
                assert(rest[k].0 == id);
            }
        }
    }
}

/// Whether each peer gets, in `batch`, the last group of `groups` that names it: every peer that is
/// named gets one entry, and no other does.
pub open spec fn last_groups(
    groups: Seq<(PeerId, Vec<Packet>)>,
    batch: Seq<(PeerId, Vec<Packet>)>,
) -> bool {
    &&& forall|i: int, j: int|
        0 <= i < batch.len() && 0 <= j < batch.len() && i != j ==> (#[trigger] batch[i]).0 != (
        #[trigger] batch[j]).0
    &&& forall|k: int|
        0 <= k < groups.len() ==> exists|i: int|
            0 <= i < batch.len() && (#[trigger] batch[i]).0 == (#[trigger] groups[k]).0
    &&& forall|i: int|
        0 <= i < batch.len() ==> exists|k: int|
            {
                &&& 0 <= k < groups.len()
                &&& #[trigger] groups[k] == #[trigger] batch[i]
                &&& forall|later: int|
                    k < later < groups.len() ==> (#[trigger] groups[later]).0 != batch[i].0
            }
}

pub(crate) proof fn lemma_last_groups(
    groups: Seq<(PeerId, Vec<Packet>)>,
    batch: Seq<(PeerId, Vec<Packet>)>,
)
    requires
        named_once(batch),
        latest(batch) == latest(groups),
    ensures
        last_groups(groups, batch),
{
    lemma_latest_named_once(batch);
    assert forall|k: int| 0 <= k < groups.len() implies exists|i: int|
        0 <= i < batch.len() && (#[trigger] batch[i]).0 == (#[trigger] groups[k]).0 by {
        lemma_latest_at(groups, groups[k].0);
        assert(latest(batch).contains_key(groups[k].0));
    }
    assert forall|i: int| 0 <= i < batch.len() implies exists|k: int|
        {
            &&& 0 <= k < groups.len()
            &&& #[trigger] groups[k] == #[trigger] batch[i]
            &&& forall|later: int|
                k < later < groups.len() ==> (#[trigger] groups[later]).0 != batch[i].0
        } by {
        assert(latest(batch).contains_key(batch[i].0));
        lemma_latest_at(groups, batch[i].0);
        let k = choose|k: int|
            {
                &&& 0 <= k < groups.len()
                &&& (#[trigger] groups[k]).0 == batch[i].0
                &&& groups[k].1 == latest(groups)[batch[i].0]
                &&& forall|later: int|
                    k < later < groups.len() ==> (#[trigger] groups[later]).0 != batch[i].0
            };
        assert(groups[k] == batch[i]);
    }
}

/// Gathering adds groups to those gathered: each peer gets the last group that names it.
pub proof fn law_gathering_keeps_the_last_group(
    gathered: Vec<(PeerId, Vec<Packet>)>,
    groups: Vec<(PeerInfo, Vec<Packet>)>,
    all: Vec<(PeerId, Vec<Packet>)>,
)
    requires
        call_ensures(gather, (gathered, groups), all),
    ensures
        last_groups(
            gathered@ + Seq::new(
                groups@.len(),
                |i: int| (groups@[i].0.peer_id, groups@[i].1),
            ),
            all@,
        ),
{
    let added = Seq::new(groups@.len(), |i: int| (groups@[i].0.peer_id, groups@[i].1));
    assert(addressed(groups@) =~= added);
    lemma_last_groups(gathered@ + added, all@);
}

/// Naming the groups of one batch of keys and then those of another names both as one: the second
/// goes by the peers that the first has left.
pub proof fn law_naming_in_turn(
    tables: PeerTables,
    keys: Seq<Option<NodePublicKey>>,
    groups: Seq<Vec<Packet>>,
    more_keys: Seq<Option<NodePublicKey>>,
    more: Seq<Vec<Packet>>,
)
    requires
        keys.len() == groups.len(),
        more_keys.len() == more.len(),
    ensures
        enrolled_all(tables, keys + more_keys) == enrolled_all(
            enrolled_all(tables, keys),
            more_keys,
        ),
        named(tables, keys + more_keys, groups + more) == named(tables, keys, groups) + named(
            enrolled_all(tables, keys),
            more_keys,
            more,
        ),
    decreases more_keys.len(),
{
    let all = keys + more_keys;
    if more_keys.len() == 0 {
        assert(all =~= keys);
        assert(groups + more =~= groups);
        assert(named(tables, keys, groups) + named(
            enrolled_all(tables, keys),
            more_keys,
            more,
        ) =~= named(tables, keys, groups));
    } else {
        law_naming_in_turn(tables, keys, groups, more_keys.drop_last(), more.drop_last());
        assert(all.drop_last() =~= keys + more_keys.drop_last());
        assert((groups + more).drop_last() =~= groups + more.drop_last());
        assert(all.last() == more_keys.last());
        assert(named(tables, all, groups + more) =~= named(tables, keys, groups) + named(
            enrolled_all(tables, keys),
            more_keys,
            more,
        ));
    }
}

/// Naming one group: without a key it is dropped and nothing changes. A key that has an id gives
/// the peer under that id, and nothing changes; a new key gives a peer with the next id, which
/// stands in both tables from then on.
pub proof fn law_naming_one_group(
    tables: PeerTables,
    key: Option<NodePublicKey>,
    packets: Vec<Packet>,
)
    ensures
        match key {
            None => {
                &&& named(tables, seq![key], seq![packets]).len() == 0
                &&& enrolled_all(tables, seq![key]) == tables
            },
            Some(k) => {
                let kept = named(tables, seq![key], seq![packets]);
                let after = enrolled_all(tables, seq![key]);
                &&& kept.len() == 1
                &&& kept[0].1 == packets
                &&& tables.ids.contains_key(k) ==> {
                    &&& kept[0].0 == tables.peers[tables.ids[k]]
                    &&& after == tables
                }
                &&& !tables.ids.contains_key(k) ==> {
                    &&& kept[0].0 == (PeerInfo { peer_id: PeerId(tables.next_id), node_key: k })
                    &&& after.ids == tables.ids.insert(k, tables.next_id)
                    &&& after.peers == tables.peers.insert(tables.next_id, kept[0].0)
                    &&& after.next_id == (if tables.next_id == u32::MAX {
                        0
                    } else {
                        tables.next_id + 1
                    })
                }
            },
        },
{
    reveal_with_fuel(enrolled_all, 2);
    reveal_with_fuel(named, 2);
    assert(seq![key].drop_last() =~= Seq::empty());
    assert(seq![packets].drop_last() =~= Seq::empty());
}

/// Parting groups from their ids, and addressing groups by the ids of their peers, goes one for
/// one.
pub proof fn law_groups_are_parted_and_addressed_in_place(
    groups: Vec<(TunnelPeerId, Vec<Packet>)>,
    ids: Vec<TunnelPeerId>,
    packets: Vec<Vec<Packet>>,
    named_groups: Vec<(PeerInfo, Vec<Packet>)>,
    out: Vec<(PeerId, Vec<Packet>)>,
)
    ensures
        call_ensures(split_groups, (groups,), (ids, packets)) ==> {
            &&& ids@.len() == groups@.len()
            &&& packets@.len() == groups@.len()
            &&& forall|i: int| 0 <= i < groups@.len() ==> #[trigger] ids@[i] == groups@[i].0
            &&& forall|i: int| 0 <= i < groups@.len() ==> #[trigger] packets@[i] == groups@[i].1
        },
        call_ensures(address_groups, (named_groups,), out) ==> {
            &&& out@.len() == named_groups@.len()
            &&& forall|i: int|
                0 <= i < out@.len() ==> #[trigger] out@[i] == (
                    named_groups@[i].0.peer_id,
                    named_groups@[i].1,
                )
        },
{
}

} // verus!
