//! Which of the packets that the tunnel decrypted reach the local device.

use vstd::prelude::*;

use crate::packet::{inspect, inspected, told_truly, PacketInfo};
use crate::peer_map::PeerInfo;
use crate::places::{earlier, lemma_places_kept, places};
use crate::types::{Packet, PeerId};

verus! {

/// Who owns the address that a packet says it comes from.
#[derive(Clone, Copy, Debug, PartialEq, Eq)]
pub enum SourceOwner {
    /// The packet does not look like an IP packet.
    NotIp,
    /// No peer owns the address.
    Unowned,
    /// This peer owns the address.
    Owned(PeerId),
}

/// The items of `a` and `b`, each with the other at its place.
pub open spec fn paired<A, B>(a: Seq<A>, b: Seq<B>) -> Seq<(A, B)> {
    Seq::new(a.len(), |i: int| (a[i], b[i]))
}

/// Picks a packet whose source address belongs to `peer`.
pub open spec fn owned_by(peer: PeerId) -> spec_fn((Packet, SourceOwner)) -> Option<Packet> {
    |pair: (Packet, SourceOwner)|
        if pair.1 == SourceOwner::Owned(peer) {
            Some(pair.0)
        } else {
            None
        }
}

/// Keeps the packets whose source address belongs to the peer that sent them.
pub fn own_packets(peer: PeerId, packets: Vec<Packet>, owners: &Vec<SourceOwner>) -> (kept: Vec<
    Packet,
>)
    requires
        packets@.len() == owners@.len(),
    ensures
        kept@ == paired(packets@, owners@).filter_map(owned_by(peer)),
{
    let ghost pairs = paired(packets@, owners@);
    let mut kept: Vec<Packet> = Vec::new();
    let mut i: usize = 0;
    for packet in it: packets.into_iter()
        invariant
            i == it.index(),
            it.seq() == packets@,
            packets@.len() == owners.len(),
            pairs == paired(packets@, owners@),
            kept@ == pairs.take(it.index() as int).filter_map(owned_by(peer)),
    {
        proof {
            pairs.lemma_filter_map_take_succ(owned_by(peer), i as int);
        }
        if let SourceOwner::Owned(owner) = owners[i] {
            if owner == peer {
                kept.push(packet);
            }
        }
        i += 1;
    }
    proof {
        assert(pairs.take(pairs.len() as int) =~= pairs);
    }
    kept
}

/// Whether there is one owner for each packet of each group.
pub open spec fn owners_fit(
    groups: Seq<(PeerInfo, Vec<Packet>)>,
    owners: Seq<Vec<SourceOwner>>,
) -> bool {
    &&& groups.len() == owners.len()
    &&& forall|i: int|
        0 <= i < groups.len() ==> (#[trigger] groups[i]).1@.len() == owners[i]@.len()
}

/// Tells whether there is one owner for each packet of each group.
pub fn check_owners(groups: &Vec<(PeerInfo, Vec<Packet>)>, owners: &Vec<Vec<SourceOwner>>) -> (fit:
    bool)
    ensures
        fit == owners_fit(groups@, owners@),
{
    if groups.len() != owners.len() {
        return false;
    }
    let mut i: usize = 0;
    while i < groups.len()
        invariant
            i <= groups.len(),
            groups.len() == owners.len(),
            forall|j: int| 0 <= j < i ==> (#[trigger] groups@[j]).1@.len() == owners@[j]@.len(),
        decreases groups.len() - i,
    {
        if groups[i].1.len() != owners[i].len() {
            assert(groups@[i as int].1@.len() != owners@[i as int]@.len());
            return false;
        }
        i += 1;
    }
    true
}

/// The packets, group after group, whose source address belongs to the peer that sent them.
pub open spec fn truly_sourced(
    groups: Seq<(PeerInfo, Vec<Packet>)>,
    owners: Seq<Vec<SourceOwner>>,
) -> Seq<Packet>
    decreases groups.len(),
{
    if groups.len() == 0 {
        Seq::empty()
    } else {
        truly_sourced(groups.drop_last(), owners.drop_last()) + paired(
            groups.last().1@,
            owners.last()@,
        ).filter_map(owned_by(groups.last().0.peer_id))
    }
}

/// Keeps, group after group, the packets whose source address belongs to the peer that sent them.
pub fn filter_sources(groups: Vec<(PeerInfo, Vec<Packet>)>, owners: &Vec<Vec<SourceOwner>>) -> (
    kept: Vec<Packet>)
    requires
        owners_fit(groups@, owners@),
    ensures
        kept@ == truly_sourced(groups@, owners@),
{
    let mut kept: Vec<Packet> = Vec::new();
    let mut i: usize = 0;
    for group in it: groups.into_iter()
        invariant
            i == it.index(),
            it.seq() == groups@,
            owners_fit(groups@, owners@),
            groups@.len() == owners.len(),
            kept@ == truly_sourced(
                groups@.take(it.index() as int),
                owners@.take(it.index() as int),
            ),
    {
        proof {
            assert(groups@.take(i + 1).drop_last() =~= groups@.take(i as int));
            assert(owners@.take(i + 1).drop_last() =~= owners@.take(i as int));
            assert(groups@[i as int] == group);
        }
        let mut own = own_packets(group.0.peer_id, group.1, &owners[i]);
        kept.append(&mut own);
        i += 1;
    }
    proof {
        assert(groups@.take(groups@.len() as int) =~= groups@);
        assert(owners@.take(owners@.len() as int) =~= owners@);
    }
    kept
}

/// Picks a packet that looks like an IP packet.
pub open spec fn readable() -> spec_fn(Packet) -> Option<Packet> {
    |packet: Packet|
        if inspected(packet.data@) is Some {
            Some(packet)
        } else {
            None
        }
}

/// What is told of a packet.
pub open spec fn told() -> spec_fn(Packet) -> Option<PacketInfo> {
    |packet: Packet| inspected(packet.data@)
}

/// Keeps the packets that look like IP packets, and says what each of them is.
pub fn inspect_all(packets: Vec<Packet>) -> (res: (Vec<Packet>, Vec<PacketInfo>))
    ensures
        res.0@ == packets@.filter_map(readable()),
        res.1@ == packets@.filter_map(told()),
        res.0@.len() == res.1@.len(),
        forall|i: int|
            0 <= i < res.0@.len() ==> inspected((#[trigger] res.0@[i]).data@) == Some(res.1@[i])
                && told_truly(res.1@[i], res.0@[i].data@),
{
    let mut kept: Vec<Packet> = Vec::new();
    let mut infos: Vec<PacketInfo> = Vec::new();
    for packet in it: packets.into_iter()
        invariant
            it.seq() == packets@,
            kept@ == packets@.take(it.index() as int).filter_map(readable()),
            infos@ == packets@.take(it.index() as int).filter_map(told()),
            kept@.len() == infos@.len(),
            forall|i: int|
                0 <= i < kept@.len() ==> inspected((#[trigger] kept@[i]).data@) == Some(infos@[i])
                    && told_truly(infos@[i], kept@[i].data@),
    {
        proof {
            packets@.lemma_filter_map_take_succ(readable(), it.index() as int);
            packets@.lemma_filter_map_take_succ(told(), it.index() as int);
        }
        if let Some(info) = inspect(&packet) {
            kept.push(packet);
            infos.push(info);
        }
    }
    proof {
        assert(packets@.take(packets@.len() as int) =~= packets@);
    }
    (kept, infos)
}

/// Picks a packet that was judged well.
pub open spec fn let_in() -> spec_fn((Packet, bool)) -> Option<Packet> {
    |pair: (Packet, bool)|
        if pair.1 {
            Some(pair.0)
        } else {
            None
        }
}

/// Keeps the packets that the packet filter lets in.
pub fn retain_judged(packets: Vec<Packet>, verdicts: &Vec<bool>) -> (kept: Vec<Packet>)
    requires
        packets@.len() == verdicts@.len(),
    ensures
        kept@ == paired(packets@, verdicts@).filter_map(let_in()),
{
    let ghost pairs = paired(packets@, verdicts@);
    let mut kept: Vec<Packet> = Vec::new();
    let mut i: usize = 0;
    for packet in it: packets.into_iter()
        invariant
            i == it.index(),
            it.seq() == packets@,
            packets@.len() == verdicts.len(),
            pairs == paired(packets@, verdicts@),
            kept@ == pairs.take(it.index() as int).filter_map(let_in()),
    {
        proof {
            pairs.lemma_filter_map_take_succ(let_in(), i as int);
        }
        if verdicts[i] {
            kept.push(packet);
        }
        i += 1;
    }
    proof {
        assert(pairs.take(pairs.len() as int) =~= pairs);
    }
    kept
}

/// What reaches the local device: the packets whose source address belongs to their sender, that
/// look like IP packets, and that the packet filter lets in.
pub open spec fn delivered(
    groups: Seq<(PeerInfo, Vec<Packet>)>,
    owners: Seq<Vec<SourceOwner>>,
    verdicts: Seq<bool>,
) -> Seq<Packet> {
    paired(truly_sourced(groups, owners).filter_map(readable()), verdicts).filter_map(let_in())
}

/// Whether `packet` is the one at place `j` of group `g`, and its source address belongs to the
/// peer that the group came from.
pub open spec fn truly_sourced_at(
    groups: Seq<(PeerInfo, Vec<Packet>)>,
    owners: Seq<Vec<SourceOwner>>,
    g: int,
    j: int,
    packet: Packet,
) -> bool {
    &&& 0 <= g < groups.len()
    &&& 0 <= j < groups[g].1@.len()
    &&& groups[g].1@[j] == packet
    &&& owners[g]@[j] == SourceOwner::Owned(groups[g].0.peer_id)
}

/// A packet that passes the source filter came from the peer that owns its source address.
pub proof fn law_no_packet_passes_under_a_foreign_address(
    groups: Seq<(PeerInfo, Vec<Packet>)>,
    owners: Seq<Vec<SourceOwner>>,
    packet: Packet,
)
    requires
        owners_fit(groups, owners),
        truly_sourced(groups, owners).contains(packet),
    ensures
        exists|g: int, j: int| truly_sourced_at(groups, owners, g, j, packet),
    decreases groups.len(),
{
    if groups.len() > 0 {
        let rest = groups.drop_last();
        let rest_owners = owners.drop_last();
        let last = groups.len() - 1;
        let pairs = paired(groups.last().1@, owners.last()@);
        let own = pairs.filter_map(owned_by(groups.last().0.peer_id));
        if truly_sourced(rest, rest_owners).contains(packet) {
            assert forall|i: int| 0 <= i < rest.len() implies (#[trigger] rest[i]).1@.len()
                == rest_owners[i]@.len() by {
                assert(rest[i] == groups[i]);
            }
            law_no_packet_passes_under_a_foreign_address(rest, rest_owners, packet);
            let (g, j) = choose|g: int, j: int|
                truly_sourced_at(rest, rest_owners, g, j, packet);
            assert(truly_sourced_at(groups, owners, g, j, packet));
        } else {
            assert(own.contains(packet));
            pairs.lemma_filter_map_contains(owned_by(groups.last().0.peer_id), packet);
            let pair = choose|pair: (Packet, SourceOwner)| #[trigger]
                pairs.contains(pair) && owned_by(groups.last().0.peer_id)(pair) == Some(packet);
            let j = choose|j: int| 0 <= j < pairs.len() && pairs[j] == pair;
            assert(groups[last].1@.len() == owners[last]@.len());
            assert(truly_sourced_at(groups, owners, last, j, packet));
        }
    }
}

/// A packet that came from the peer that owns its source address passes the source filter.
pub proof fn law_every_truly_sourced_packet_passes(
    groups: Seq<(PeerInfo, Vec<Packet>)>,
    owners: Seq<Vec<SourceOwner>>,
    g: int,
    j: int,
    packet: Packet,
)
    requires
        owners_fit(groups, owners),
        truly_sourced_at(groups, owners, g, j, packet),
    ensures
        truly_sourced(groups, owners).contains(packet),
    decreases groups.len(),
{
    let rest = groups.drop_last();
    let rest_owners = owners.drop_last();
    let before = truly_sourced(rest, rest_owners);
    let pairs = paired(groups.last().1@, owners.last()@);
    let own = pairs.filter_map(owned_by(groups.last().0.peer_id));
    if g < rest.len() {
        assert forall|i: int| 0 <= i < rest.len() implies (#[trigger] rest[i]).1@.len()
            == rest_owners[i]@.len() by {
            assert(rest[i] == groups[i]);
        }
        assert(truly_sourced_at(rest, rest_owners, g, j, packet));
        law_every_truly_sourced_packet_passes(rest, rest_owners, g, j, packet);
        let k = choose|k: int| 0 <= k < before.len() && before[k] == packet;
        assert((before + own)[k] == packet);
    } else {
        lemma_filter_map_keeps(pairs, owned_by(groups.last().0.peer_id), j, packet);
        let k = choose|k: int| 0 <= k < own.len() && own[k] == packet;
        assert((before + own)[before.len() + k] == packet);
    }
}

/// What an item is mapped to is kept.
pub(crate) proof fn lemma_filter_map_keeps<A, B>(s: Seq<A>, f: spec_fn(A) -> Option<B>, i: int, to: B)
    requires
        0 <= i < s.len(),
        f(s[i]) == Some(to),
    ensures
        s.filter_map(f).contains(to),
    decreases s.len(),
{
    let rest = s.drop_last();
    if i == rest.len() {
        assert(s.filter_map(f)[s.filter_map(f).len() - 1] == to);
    } else {
        lemma_filter_map_keeps(rest, f, i, to);
        let k = choose|k: int| 0 <= k < rest.filter_map(f).len() && rest.filter_map(f)[k] == to;
        assert(s.filter_map(f)[k] == to);
    }
}

/// A packet that reaches the local device passed every filter: it came from the peer that owns its
/// source address, it looks like an IP packet, and the packet filter let it in.
pub proof fn law_delivered_packets_passed_every_filter(
    groups: Seq<(PeerInfo, Vec<Packet>)>,
    owners: Seq<Vec<SourceOwner>>,
    verdicts: Seq<bool>,
    packet: Packet,
)
    requires
        owners_fit(groups, owners),
        verdicts.len() == truly_sourced(groups, owners).filter_map(readable()).len(),
        delivered(groups, owners, verdicts).contains(packet),
    ensures
        exists|g: int, j: int| truly_sourced_at(groups, owners, g, j, packet),
        inspected(packet.data@) is Some,
        exists|i: int|
            0 <= i < verdicts.len() && #[trigger] verdicts[i] && truly_sourced(
                groups,
                owners,
            ).filter_map(readable())[i] == packet,
{
    let sourced = truly_sourced(groups, owners);
    let read = sourced.filter_map(readable());
    let pairs = paired(read, verdicts);
    pairs.lemma_filter_map_contains(let_in(), packet);
    let pair = choose|pair: (Packet, bool)| #[trigger]
        pairs.contains(pair) && let_in()(pair) == Some(packet);
    let i = choose|i: int| 0 <= i < pairs.len() && pairs[i] == pair;
    assert(verdicts[i]);
    assert(read[i] == packet);
    assert(read.contains(packet));
    sourced.lemma_filter_map_contains(readable(), packet);
    law_no_packet_passes_under_a_foreign_address(groups, owners, packet);
}

/// A packet that passes every filter reaches the local device.
pub proof fn law_every_passing_packet_is_delivered(
    groups: Seq<(PeerInfo, Vec<Packet>)>,
    owners: Seq<Vec<SourceOwner>>,
    verdicts: Seq<bool>,
    i: int,
)
    requires
        owners_fit(groups, owners),
        verdicts.len() == truly_sourced(groups, owners).filter_map(readable()).len(),
        0 <= i < verdicts.len(),
        verdicts[i],
    ensures
        delivered(groups, owners, verdicts).contains(
            truly_sourced(groups, owners).filter_map(readable())[i],
        ),
{
    let read = truly_sourced(groups, owners).filter_map(readable());
    lemma_filter_map_keeps(paired(read, verdicts), let_in(), i, read[i]);
}

/// Where no source address has an owner, nothing reaches the local device.
pub proof fn law_unowned_sources_deliver_nothing(
    groups: Seq<(PeerInfo, Vec<Packet>)>,
    owners: Seq<Vec<SourceOwner>>,
    verdicts: Seq<bool>,
)
    requires
        owners_fit(groups, owners),
        verdicts.len() == truly_sourced(groups, owners).filter_map(readable()).len(),
        forall|g: int, j: int|
            0 <= g < owners.len() && 0 <= j < owners[g]@.len() ==> !(#[trigger] owners[g]@[j]
                is Owned),
    ensures
        delivered(groups, owners, verdicts).len() == 0,
{
    let out = delivered(groups, owners, verdicts);
    if out.len() > 0 {
        let packet = out[0];
        assert(out.contains(packet));
        law_delivered_packets_passed_every_filter(groups, owners, verdicts, packet);
        let (g, j) = choose|g: int, j: int| truly_sourced_at(groups, owners, g, j, packet);
        assert(groups[g].1@.len() == owners[g]@.len());
        assert(owners[g]@[j] is Owned);
    }
}

/// Where the packet filter lets nothing in, nothing reaches the local device.
pub proof fn law_refused_packets_are_not_delivered(
    groups: Seq<(PeerInfo, Vec<Packet>)>,
    owners: Seq<Vec<SourceOwner>>,
    verdicts: Seq<bool>,
)
    requires
        owners_fit(groups, owners),
        verdicts.len() == truly_sourced(groups, owners).filter_map(readable()).len(),
        forall|i: int| 0 <= i < verdicts.len() ==> !(#[trigger] verdicts[i]),
    ensures
        delivered(groups, owners, verdicts).len() == 0,
{
    let out = delivered(groups, owners, verdicts);
    if out.len() > 0 {
        assert(out.contains(out[0]));
        law_delivered_packets_passed_every_filter(groups, owners, verdicts, out[0]);
    }
}

/// Whether `at` names packets of `groups`, each further on than the one before it.
pub open spec fn packets_at(
    groups: Seq<(PeerInfo, Vec<Packet>)>,
    at: Seq<(int, int)>,
) -> bool {
    &&& forall|i: int|
        0 <= i < at.len() ==> {
            &&& 0 <= (#[trigger] at[i]).0 < groups.len()
            &&& 0 <= at[i].1 < groups[at[i].0].1@.len()
        }
    &&& forall|i: int, j: int|
        0 <= i < j < at.len() ==> earlier(#[trigger] at[i], #[trigger] at[j])
}

proof fn lemma_sourced_at(
    groups: Seq<(PeerInfo, Vec<Packet>)>,
    owners: Seq<Vec<SourceOwner>>,
) -> (at: Seq<(int, int)>)
    requires
        owners_fit(groups, owners),
    ensures
        packets_at(groups, at),
        forall|g: int, j: int|
            0 <= g < groups.len() && 0 <= j < groups[g].1@.len() ==> (#[trigger] at.contains((g, j))
                <==> owners[g]@[j] == SourceOwner::Owned(groups[g].0.peer_id)),
        at.len() == truly_sourced(groups, owners).len(),
        forall|i: int|
            0 <= i < at.len() ==> truly_sourced(groups, owners)[i] == groups[(
            #[trigger] at[i]).0].1@[at[i].1],
    decreases groups.len(),
{
    if groups.len() == 0 {
        Seq::empty()
    } else {
        let rest = groups.drop_last();
        let rest_owners = owners.drop_last();
        let last = groups.len() - 1;
        assert forall|i: int| 0 <= i < rest.len() implies (#[trigger] rest[i]).1@.len()
            == rest_owners[i]@.len() by {
            assert(rest[i] == groups[i]);
        }
        let before = lemma_sourced_at(rest, rest_owners);
        let peer = groups[last].0.peer_id;
        assert(groups[last].1@.len() == owners[last]@.len());
        let pairs = paired(groups[last].1@, owners[last]@);
        let own = lemma_places_kept(pairs, owned_by(peer));
        let n = before.len() as int;
        let at = Seq::new(
            before.len() + own.len(),
            |i: int|
                if i < before.len() {
                    before[i]
                } else {
                    (last, own[i - before.len()])
                },
        );
        let keep = |g: int, j: int| owners[g]@[j] == SourceOwner::Owned(groups[g].0.peer_id);
        let keep_rest = |g: int, j: int|
            rest_owners[g]@[j] == SourceOwner::Owned(rest[g].0.peer_id);
        assert(packets_at(rest, before));
        assert forall|i: int| 0 <= i < at.len() implies {
            &&& 0 <= (#[trigger] at[i]).0 < groups.len()
            &&& 0 <= at[i].1 < groups[at[i].0].1@.len()
        } by {
            if i < n {
                assert(before[i].0 < rest.len());
            } else {
                assert(own[i - n] < pairs.len());
            }
        }
        assert forall|i: int, j: int| 0 <= i < j < at.len() implies earlier(
            #[trigger] at[i],
            #[trigger] at[j],
        ) by {
            if j < n {
                assert(earlier(before[i], before[j]));
            } else if i < n {
                assert(before[i].0 < rest.len());
            } else {
                assert(own[i - n] < own[j - n]);
            }
        }
        assert forall|g: int, j: int| 0 <= g < groups.len() && 0 <= j < groups[g].1@.len() implies (
        #[trigger] at.contains((g, j)) <==> keep(g, j)) by {
            if g < last {
                assert(rest[g] == groups[g]);
                assert(before.contains((g, j)) <==> keep_rest(g, j));
                if before.contains((g, j)) {
                    let i = choose|i: int| 0 <= i < before.len() && before[i] == (g, j);
                    assert(at[i] == (g, j));
                }
                if at.contains((g, j)) {
                    let i = choose|i: int| 0 <= i < at.len() && at[i] == (g, j);
                    assert(before[i] == (g, j));
                }
            } else {
                assert(pairs[j] == (groups[last].1@[j], owners[last]@[j]));
                assert(own.contains(j) <==> owned_by(peer)(pairs[j]) is Some);
                if own.contains(j) {
                    let i = choose|i: int| 0 <= i < own.len() && own[i] == j;
                    assert(at[n + i] == (g, j));
                }
                if at.contains((g, j)) {
                    let i = choose|i: int| 0 <= i < at.len() && at[i] == (g, j);
                    if i < n {
                        assert(before[i].0 < rest.len());
                    }
                    assert(own[i - n] == j);
                }
            }
        }
        assert forall|i: int| 0 <= i < at.len() implies truly_sourced(groups, owners)[i] == groups[(
        #[trigger] at[i]).0].1@[at[i].1] by {
            if i < n {
                assert(before[i].0 < rest.len());
                assert(rest[before[i].0] == groups[before[i].0]);
            } else {
                assert(owned_by(peer)(pairs[own[i - n]]) is Some);
            }
        }
        at
    }
}

/// Of decrypted packets, those are told to the packet filter whose source address belongs to the
/// peer that sent them and whose headers can be sliced: all of them, in order, and nothing else.
pub(crate) proof fn lemma_readable_at(
    groups: Seq<(PeerInfo, Vec<Packet>)>,
    owners: Seq<Vec<SourceOwner>>,
) -> (at: Seq<(int, int)>)
    requires
        owners_fit(groups, owners),
    ensures
        packets_at(groups, at),
        forall|g: int, j: int|
            0 <= g < groups.len() && 0 <= j < groups[g].1@.len() ==> (#[trigger] at.contains((g, j))
                <==> owners[g]@[j] == SourceOwner::Owned(groups[g].0.peer_id) && inspected(
                groups[g].1@[j].data@,
            ) is Some),
        at.len() == truly_sourced(groups, owners).filter_map(readable()).len(),
        at.len() == truly_sourced(groups, owners).filter_map(told()).len(),
        forall|i: int|
            0 <= i < at.len() ==> {
                let packet = groups[(#[trigger] at[i]).0].1@[at[i].1];
                &&& truly_sourced(groups, owners).filter_map(readable())[i] == packet
                &&& inspected(packet.data@) == Some(
                    truly_sourced(groups, owners).filter_map(told())[i],
                )
            },
{
    let sourced = truly_sourced(groups, owners);
    let all = lemma_sourced_at(groups, owners);
    let kept = lemma_places_kept(sourced, readable());
    lemma_told_beside(sourced);
    let at = Seq::new(kept.len(), |i: int| all[kept[i]]);
    let keep = |g: int, j: int|
        owners[g]@[j] == SourceOwner::Owned(groups[g].0.peer_id) && inspected(
            groups[g].1@[j].data@,
        ) is Some;
    assert forall|i: int| 0 <= i < at.len() implies {
        &&& 0 <= (#[trigger] at[i]).0 < groups.len()
        &&& 0 <= at[i].1 < groups[at[i].0].1@.len()
    } by {
        assert(all[kept[i]] == at[i]);
    }
    assert forall|i: int, j: int| 0 <= i < j < at.len() implies earlier(
        #[trigger] at[i],
        #[trigger] at[j],
    ) by {
        assert(kept[i] < kept[j]);
        assert(earlier(all[kept[i]], all[kept[j]]));
    }
    assert forall|g: int, j: int| 0 <= g < groups.len() && 0 <= j < groups[g].1@.len() implies (
    #[trigger] at.contains((g, j)) <==> keep(g, j)) by {
        assert(all.contains((g, j)) <==> owners[g]@[j] == SourceOwner::Owned(groups[g].0.peer_id));
        if at.contains((g, j)) {
            let i = choose|i: int| 0 <= i < at.len() && at[i] == (g, j);
            assert(all[kept[i]] == (g, j));
            assert(all.contains((g, j)));
            assert(readable()(sourced[kept[i]]) is Some);
        }
        if keep(g, j) {
            let m = choose|m: int| 0 <= m < all.len() && all[m] == (g, j);
            assert(sourced[m] == groups[all[m].0].1@[all[m].1]);
            assert(readable()(sourced[m]) is Some);
            assert(kept.contains(m));
            let i = choose|i: int| 0 <= i < kept.len() && kept[i] == m;
            assert(at[i] == (g, j));
        }
    }
    assert forall|i: int| 0 <= i < at.len() implies {
        let packet = groups[(#[trigger] at[i]).0].1@[at[i].1];
        &&& sourced.filter_map(readable())[i] == packet
        &&& inspected(packet.data@) == Some(sourced.filter_map(told())[i])
    } by {
        assert(readable()(sourced[kept[i]]) == Some(sourced.filter_map(readable())[i]));
        assert(sourced[kept[i]] == groups[all[kept[i]].0].1@[all[kept[i]].1]);
    }
    at
}

/// What is told of packets stands beside the packets.
proof fn lemma_told_beside(packets: Seq<Packet>)
    ensures
        packets.filter_map(readable()).len() == packets.filter_map(told()).len(),
        forall|i: int|
            0 <= i < packets.filter_map(readable()).len() ==> inspected(
                (#[trigger] packets.filter_map(readable())[i]).data@,
            ) == Some(packets.filter_map(told())[i]),
    decreases packets.len(),
{
    if packets.len() > 0 {
        lemma_told_beside(packets.drop_last());
    }
}

/// The source filter keeps the packets whose source address belongs to the peer that sent them: all
/// of them, in order, and nothing else.
pub proof fn law_source_filter_keeps_own_packets(
    groups: Vec<(PeerInfo, Vec<Packet>)>,
    owners: &Vec<Vec<SourceOwner>>,
    kept: Vec<Packet>,
)
    requires
        groups@.len() == owners@.len(),
        forall|g: int|
            0 <= g < groups@.len() ==> (#[trigger] groups@[g]).1@.len() == owners@[g]@.len(),
        call_ensures(filter_sources, (groups, owners), kept),
    ensures
        exists|at: Seq<(int, int)>|
            {
                &&& #[trigger] packets_at(groups@, at)
                &&& forall|g: int, j: int|
                    0 <= g < groups@.len() && 0 <= j < groups@[g].1@.len() ==> (
                    #[trigger] at.contains((g, j)) <==> owners@[g]@[j] == SourceOwner::Owned(
                        groups@[g].0.peer_id,
                    ))
                &&& at.len() == kept@.len()
                &&& forall|i: int|
                    0 <= i < at.len() ==> kept@[i] == groups@[(#[trigger] at[i]).0].1@[at[i].1]
            },
{
    let at = lemma_sourced_at(groups@, owners@);
}

/// The packet filter is told of the packets whose headers can be sliced: all of them, in order, and
/// nothing else.
pub proof fn law_readable_packets_are_kept(
    packets: Vec<Packet>,
    kept: Vec<Packet>,
    infos: Vec<PacketInfo>,
)
    requires
        call_ensures(inspect_all, (packets,), (kept, infos)),
    ensures
        kept@.len() == infos@.len(),
        exists|at: Seq<int>|
            {
                &&& #[trigger] places(at, packets@.len() as int)
                &&& at.len() == kept@.len()
                &&& forall|k: int|
                    0 <= k < packets@.len() ==> (#[trigger] at.contains(k) <==> inspected(
                        packets@[k].data@,
                    ) is Some)
                &&& forall|i: int|
                    0 <= i < at.len() ==> kept@[i] == packets@[#[trigger] at[i]] && inspected(
                        packets@[at[i]].data@,
                    ) == Some(infos@[i])
            },
{
    let at = lemma_places_kept(packets@, readable());
    lemma_told_beside(packets@);
    assert forall|i: int| 0 <= i < at.len() implies kept@[i] == packets@[#[trigger] at[i]]
        && inspected(packets@[at[i]].data@) == Some(infos@[i]) by {
        assert(readable()(packets@[at[i]]) == Some(kept@[i]));
    }
}

/// The packets are kept that were let in: all of them, in order, and nothing else.
pub proof fn law_packets_let_in_are_kept(
    packets: Vec<Packet>,
    verdicts: &Vec<bool>,
    kept: Vec<Packet>,
)
    requires
        packets@.len() == verdicts@.len(),
        call_ensures(retain_judged, (packets, verdicts), kept),
    ensures
        exists|at: Seq<int>|
            {
                &&& #[trigger] places(at, packets@.len() as int)
                &&& at.len() == kept@.len()
                &&& forall|k: int|
                    0 <= k < packets@.len() ==> (#[trigger] at.contains(k) <==> verdicts@[k])
                &&& forall|i: int| 0 <= i < at.len() ==> kept@[i] == packets@[#[trigger] at[i]]
            },
{
    let at = lemma_let_in_at(packets@, verdicts@);
}

pub(crate) proof fn lemma_let_in_at(packets: Seq<Packet>, verdicts: Seq<bool>) -> (at: Seq<int>)
    requires
        packets.len() == verdicts.len(),
    ensures
        places(at, packets.len() as int),
        at.len() == paired(packets, verdicts).filter_map(let_in()).len(),
        forall|k: int| 0 <= k < packets.len() ==> (#[trigger] at.contains(k) <==> verdicts[k]),
        forall|i: int|
            0 <= i < at.len() ==> paired(packets, verdicts).filter_map(let_in())[i]
                == packets[#[trigger] at[i]],
{
    let pairs = paired(packets, verdicts);
    let at = lemma_places_kept(pairs, let_in());
    assert forall|k: int| 0 <= k < packets.len() implies (#[trigger] at.contains(k)
        <==> verdicts[k]) by {
        assert(pairs[k] == (packets[k], verdicts[k]));
    }
    assert forall|i: int| 0 <= i < at.len() implies pairs.filter_map(let_in())[i]
        == packets[#[trigger] at[i]] by {
        assert(let_in()(pairs[at[i]]) == Some(pairs.filter_map(let_in())[i]));
    }
    at
}

/// Of one peer's packets those are kept whose source address belongs to it: all of them, in order,
/// and nothing else.
pub proof fn law_own_packets_are_kept(
    peer: PeerId,
    packets: Vec<Packet>,
    owners: &Vec<SourceOwner>,
    kept: Vec<Packet>,
)
    requires
        packets@.len() == owners@.len(),
        call_ensures(own_packets, (peer, packets, owners), kept),
    ensures
        exists|at: Seq<int>|
            {
                &&& #[trigger] places(at, packets@.len() as int)
                &&& at.len() == kept@.len()
                &&& forall|k: int|
                    0 <= k < packets@.len() ==> (#[trigger] at.contains(k) <==> owners@[k]
                        == SourceOwner::Owned(peer))
                &&& forall|i: int| 0 <= i < at.len() ==> kept@[i] == packets@[#[trigger] at[i]]
            },
{
    let pairs = paired(packets@, owners@);
    let at = lemma_places_kept(pairs, owned_by(peer));
    assert forall|k: int| 0 <= k < packets@.len() implies (#[trigger] at.contains(k) <==> owners@[k]
        == SourceOwner::Owned(peer)) by {
        assert(pairs[k] == (packets@[k], owners@[k]));
    }
    assert forall|i: int| 0 <= i < at.len() implies kept@[i] == packets@[#[trigger] at[i]] by {
        assert(owned_by(peer)(pairs[at[i]]) == Some(kept@[i]));
    }
}

/// Owners fit exactly where there is one for each packet of each group.
pub proof fn law_owners_are_counted(
    groups: &Vec<(PeerInfo, Vec<Packet>)>,
    owners: &Vec<Vec<SourceOwner>>,
    fit: bool,
)
    requires
        call_ensures(check_owners, (groups, owners), fit),
    ensures
        fit <==> groups@.len() == owners@.len() && forall|g: int|
            0 <= g < groups@.len() ==> (#[trigger] groups@[g]).1@.len() == owners@[g]@.len(),
{
}

} // verus!
