//! The peers that are known, by number and by key.

use vstd::prelude::*;

use crate::store;
use crate::types::{NodePublicKey, PeerId};

verus! {

/// How many bytes a stored [`PeerInfo`] takes.
pub const RECORD_LEN: usize = 36;

/// Info about a peer.
#[derive(Clone, Copy, Debug, PartialEq, Eq)]
pub struct PeerInfo {
    /// The peer's id.
    pub peer_id: PeerId,
    /// The peer's node key.
    pub node_key: NodePublicKey,
}

/// The four bytes of `id`, the lowest first.
pub open spec fn id_bytes(id: u32) -> Seq<u8> {
    seq![
        (id % 0x100) as u8,
        (id / 0x100 % 0x100) as u8,
        (id / 0x1_0000 % 0x100) as u8,
        (id / 0x100_0000) as u8,
    ]
}

/// Turns `id` into its four bytes.
fn encode_id(id: u32) -> (bytes: [u8; 4])
    ensures
        bytes@ == id_bytes(id),
{
    [
        (id % 0x100) as u8,
        (id / 0x100 % 0x100) as u8,
        (id / 0x1_0000 % 0x100) as u8,
        (id / 0x100_0000) as u8,
    ]
}

/// Reads the `id` whose four bytes `bytes` starts with.
fn decode_id(bytes: &[u8]) -> (id: u32)
    requires
        bytes@.len() >= 4,
    ensures
        bytes@.take(4) == id_bytes(id),
{
    let b0: u32 = bytes[0] as u32;
    let b1: u32 = bytes[1] as u32;
    let b2: u32 = bytes[2] as u32;
    let b3: u32 = bytes[3] as u32;
    let id: u32 = b0 + b1 * 0x100 + b2 * 0x1_0000 + b3 * 0x100_0000;
    proof {
        lemma_digits(b0, b1, b2, b3);
        assert(bytes@.take(4) =~= id_bytes(id));
    }
    id
}

/// The digits of a number written to base 256 are what division gives back.
proof fn lemma_digits(b0: u32, b1: u32, b2: u32, b3: u32)
    requires
        b0 < 0x100,
        b1 < 0x100,
        b2 < 0x100,
        b3 < 0x100,
    ensures
        ({
            let n = b0 + b1 * 0x100 + b2 * 0x1_0000 + b3 * 0x100_0000;
            &&& n % 0x100 == b0
            &&& n / 0x100 % 0x100 == b1
            &&& n / 0x1_0000 % 0x100 == b2
            &&& n / 0x100_0000 == b3
        }),
{
    let n = b0 + b1 * 0x100 + b2 * 0x1_0000 + b3 * 0x100_0000;
    assert(n / 0x100 == b1 + b2 * 0x100 + b3 * 0x1_0000);
    assert(n / 0x1_0000 == b2 + b3 * 0x100);
}

/// An id is the sum of its four digits to base 256.
proof fn lemma_digit_sum(id: u32)
    ensures
        id == id % 0x100 + id / 0x100 % 0x100 * 0x100 + id / 0x1_0000 % 0x100 * 0x1_0000 + id
            / 0x100_0000 * 0x100_0000,
{
    let n1 = id / 0x100;
    let n2 = id / 0x1_0000;
    let n3 = id / 0x100_0000;
    assert(id == n1 * 0x100 + id % 0x100);
    assert(n1 == n2 * 0x100 + n1 % 0x100);
    assert(n2 == n3 * 0x100 + n2 % 0x100);
}

/// Whether `bytes` are the four bytes of `id`, the lowest first.
pub open spec fn is_id(bytes: Seq<u8>, id: u32) -> bool {
    &&& bytes.len() == 4
    &&& id == bytes[0] + bytes[1] * 0x100 + bytes[2] * 0x1_0000 + bytes[3] * 0x100_0000
}

proof fn lemma_is_id(id: u32)
    ensures
        is_id(id_bytes(id), id),
{
    lemma_digit_sum(id);
    assert(id_bytes(id)[0] == id % 0x100);
    assert(id_bytes(id)[1] == id / 0x100 % 0x100);
    assert(id_bytes(id)[2] == id / 0x1_0000 % 0x100);
    assert(id_bytes(id)[3] == id / 0x100_0000);
}

/// Two ids with the same bytes are the same.
proof fn lemma_id_bytes_injective(a: u32, b: u32)
    requires
        id_bytes(a) == id_bytes(b),
    ensures
        a == b,
{
    lemma_digit_sum(a);
    lemma_digit_sum(b);
    let (x, y) = (id_bytes(a), id_bytes(b));
    assert(a % 0x100 == x[0] && a / 0x100 % 0x100 == x[1] && a / 0x1_0000 % 0x100 == x[2] && a
        / 0x100_0000 == x[3]);
    assert(b % 0x100 == y[0] && b / 0x100 % 0x100 == y[1] && b / 0x1_0000 % 0x100 == y[2] && b
        / 0x100_0000 == y[3]);
}

impl PeerInfo {
    /// The bytes that stand for this peer in the database: its id, then its key.
    pub open spec fn record(self) -> Seq<u8> {
        id_bytes(self.peer_id.0) + self.node_key.bytes@
    }

    /// The length of every record.
    pub fn fixed_width() -> (width: Option<usize>)
        ensures
            width == Some(RECORD_LEN),
    {
        Some(RECORD_LEN)
    }

    /// Writes this peer as a record.
    pub fn as_bytes(&self) -> (bytes: Vec<u8>)
        ensures
            bytes@ == self.record(),
    {
        let mut bytes: Vec<u8> = Vec::with_capacity(RECORD_LEN);
        bytes.extend_from_slice(&encode_id(self.peer_id.0));
        bytes.extend_from_slice(&self.node_key.bytes);
        bytes
    }

    /// Reads the peer that a record stands for.
    pub fn from_bytes(data: &[u8]) -> (info: PeerInfo)
        requires
            data@.len() == RECORD_LEN,
        ensures
            info.record() == data@,
    {
        let mut key: [u8; 32] = [0u8; 32];
        let mut i: usize = 0;
        while i < 32
            invariant
                i <= 32,
                data@.len() == RECORD_LEN,
                forall|j: int| 0 <= j < i ==> key@[j] == data@[4 + j],
            decreases 32 - i,
        {
            key[i] = data[4 + i];
            i += 1;
        }
        let info = PeerInfo {
            peer_id: PeerId(decode_id(data)),
            node_key: NodePublicKey { bytes: key },
        };
        assert(info.record() =~= data@);
        info
    }
}

/// A record says which peer it stands for: two peers with the same record are the same peer, so
/// reading back what was written gives the peer that was written.
pub proof fn law_record_round_trip(a: PeerInfo, b: PeerInfo)
    requires
        a.record() == b.record(),
    ensures
        a == b,
{
    assert(id_bytes(a.peer_id.0) =~= a.record().take(4));
    assert(id_bytes(b.peer_id.0) =~= b.record().take(4));
    lemma_id_bytes_injective(a.peer_id.0, b.peer_id.0);
    assert(a.node_key.bytes@ =~= a.record().skip(4));
    assert(b.node_key.bytes@ =~= b.record().skip(4));
    assert(a.node_key.bytes =~= b.node_key.bytes);
}

/// The table from a peer's id to its record.
pub const TABLE_PEERS: &'static str = "peers";

/// The table from a node key to the id of the peer that has it.
pub const TABLE_NODEKEY: &'static str = "peers_nodekey";

/// What a [`PeerDb`] holds.
#[verifier::ext_equal]
pub struct PeerTables {
    /// The peers by id.
    pub peers: Map<u32, PeerInfo>,
    /// The ids by key.
    pub ids: Map<NodePublicKey, u32>,
    /// The id that the next new peer gets.
    pub next_id: u32,
}

impl PeerTables {
    /// Whether `key` has an id under which no peer stands.
    pub open spec fn dangling(self, key: NodePublicKey) -> bool {
        self.ids.contains_key(key) && !self.peers.contains_key(self.ids[key])
    }

    /// The peer that `key` stands for: the one it has, or the one it gets when it is new.
    pub open spec fn info_for(self, key: NodePublicKey) -> PeerInfo {
        if self.ids.contains_key(key) {
            self.peers[self.ids[key]]
        } else {
            PeerInfo { peer_id: PeerId(self.next_id), node_key: key }
        }
    }

    /// The tables once `key` has a peer.
    pub open spec fn enrolled(self, key: NodePublicKey) -> PeerTables {
        if self.ids.contains_key(key) {
            self
        } else {
            PeerTables {
                peers: self.peers.insert(self.next_id, self.info_for(key)),
                ids: self.ids.insert(key, self.next_id),
                next_id: next_after(self.next_id),
            }
        }
    }

    /// The tables once the peer of `key` is gone.
    pub open spec fn without(self, key: NodePublicKey) -> PeerTables {
        if self.ids.contains_key(key) {
            PeerTables {
                peers: self.peers.remove(self.ids[key]),
                ids: self.ids.remove(key),
                ..self
            }
        } else {
            self
        }
    }
}

/// The tables of a new database.
pub open spec fn no_peers() -> PeerTables {
    PeerTables { peers: Map::empty(), ids: Map::empty(), next_id: 0 }
}

/// The id that is given out after `id`: they start again from zero behind the largest.
pub open spec fn next_after(id: u32) -> u32 {
    if id == u32::MAX {
        0
    } else {
        (id + 1) as u32
    }
}

/// The peer that `record` stands for.
pub open spec fn peer_of(record: Seq<u8>) -> PeerInfo {
    choose|info: PeerInfo| info.record() == record
}

/// The id that `bytes` stands for.
pub open spec fn id_of(bytes: Seq<u8>) -> u32 {
    choose|id: u32| id_bytes(id) == bytes
}

/// The peers that the table `table` holds.
pub open spec fn peers_of(table: Map<Seq<u8>, Seq<u8>>) -> Map<u32, PeerInfo> {
    Map::new(
        |id: u32| table.contains_key(id_bytes(id)),
        |id: u32| peer_of(table[id_bytes(id)]),
    )
}

/// The ids that the table `table` holds.
pub open spec fn ids_of(table: Map<Seq<u8>, Seq<u8>>) -> Map<NodePublicKey, u32> {
    Map::new(
        |key: NodePublicKey| table.contains_key(key.bytes@),
        |key: NodePublicKey| id_of(table[key.bytes@]),
    )
}

/// Whether both tables are there, and every value has the length that is read.
pub open spec fn tables_wf(tables: store::Tables) -> bool {
    &&& tables.contains_key(TABLE_PEERS@)
    &&& tables.contains_key(TABLE_NODEKEY@)
    &&& forall|key: Seq<u8>| #[trigger]
        tables[TABLE_PEERS@].contains_key(key) ==> tables[TABLE_PEERS@][key].len() == RECORD_LEN
    &&& forall|key: Seq<u8>| #[trigger]
        tables[TABLE_NODEKEY@].contains_key(key) ==> tables[TABLE_NODEKEY@][key].len() == 4
}

/// What `tables` hold, with `next_id` next.
pub open spec fn model(tables: store::Tables, next_id: u32) -> PeerTables {
    PeerTables {
        peers: peers_of(tables[TABLE_PEERS@]),
        ids: ids_of(tables[TABLE_NODEKEY@]),
        next_id,
    }
}

proof fn lemma_peer_of(info: PeerInfo)
    ensures
        peer_of(info.record()) == info,
{
    law_record_round_trip(peer_of(info.record()), info);
}

proof fn lemma_id_of(id: u32)
    ensures
        id_of(id_bytes(id)) == id,
{
    lemma_id_bytes_injective(id_of(id_bytes(id)), id);
}

proof fn lemma_peers_insert(table: Map<Seq<u8>, Seq<u8>>, info: PeerInfo)
    ensures
        peers_of(table.insert(id_bytes(info.peer_id.0), info.record())) == peers_of(table).insert(
            info.peer_id.0,
            info,
        ),
{
    let id = info.peer_id.0;
    lemma_peer_of(info);
    assert forall|other: u32| other != id implies id_bytes(other) != id_bytes(id) by {
        if id_bytes(other) == id_bytes(id) {
            lemma_id_bytes_injective(other, id);
        }
    }
    assert(peers_of(table.insert(id_bytes(id), info.record())) =~= peers_of(table).insert(id, info));
}

proof fn lemma_peers_remove(table: Map<Seq<u8>, Seq<u8>>, id: u32)
    ensures
        peers_of(table.remove(id_bytes(id))) == peers_of(table).remove(id),
{
    assert forall|other: u32| other != id implies id_bytes(other) != id_bytes(id) by {
        if id_bytes(other) == id_bytes(id) {
            lemma_id_bytes_injective(other, id);
        }
    }
    assert(peers_of(table.remove(id_bytes(id))) =~= peers_of(table).remove(id));
}

proof fn lemma_ids_insert(table: Map<Seq<u8>, Seq<u8>>, key: NodePublicKey, id: u32)
    ensures
        ids_of(table.insert(key.bytes@, id_bytes(id))) == ids_of(table).insert(key, id),
{
    lemma_id_of(id);
    assert forall|other: NodePublicKey| other != key implies other.bytes@ != key.bytes@ by {
        if other.bytes@ == key.bytes@ {
            assert(other.bytes =~= key.bytes);
        }
    }
    assert(ids_of(table.insert(key.bytes@, id_bytes(id))) =~= ids_of(table).insert(key, id));
}

proof fn lemma_ids_remove(table: Map<Seq<u8>, Seq<u8>>, key: NodePublicKey)
    ensures
        ids_of(table.remove(key.bytes@)) == ids_of(table).remove(key),
{
    assert forall|other: NodePublicKey| other != key implies other.bytes@ != key.bytes@ by {
        if other.bytes@ == key.bytes@ {
            assert(other.bytes =~= key.bytes);
        }
    }
    assert(ids_of(table.remove(key.bytes@)) =~= ids_of(table).remove(key));
}

proof fn lemma_table_names()
    ensures
        TABLE_PEERS@.len() > 0,
        TABLE_NODEKEY@.len() > 0,
        TABLE_PEERS@ != TABLE_NODEKEY@,
{
    reveal_strlit("peers");
    reveal_strlit("peers_nodekey");
    assert(TABLE_PEERS@.len() != TABLE_NODEKEY@.len());
}

/// Why a call on a [`PeerDb`] failed.
#[derive(Debug)]
pub enum PeerDbError {
    /// The engine failed before the commit. The tables are as they were, but the id that a new
    /// peer would have had may be used up.
    Storage(redb::Error),
    /// The engine failed to commit. The database is not to be used any more.
    Commit(redb::Error),
    /// The key has this id, under which no peer stands.
    MissingPeer(PeerId),
}

/// What to do with a node key.
#[derive(Debug)]
pub enum Assignment {
    /// It has this id already.
    Existing(PeerId),
    /// It is new, and this is its peer.
    Fresh(PeerInfo),
}

/// Decides on a node key, given the id that was `found` for it: one without an id gets `next_id`,
/// and the one after it is next.
pub fn assign(found: Option<PeerId>, node_key: &NodePublicKey, next_id: &mut u32) -> (to:
    Assignment)
    ensures
        match found {
            Some(id) => to == Assignment::Existing(id) && *final(next_id) == *old(next_id),
            None => {
                &&& to == Assignment::Fresh(
                    PeerInfo { peer_id: PeerId(*old(next_id)), node_key: *node_key },
                )
                &&& *final(next_id) == next_after(*old(next_id))
            },
        },
{
    match found {
        Some(id) => Assignment::Existing(id),
        None => {
            let id: u32 = *next_id;
            *next_id = id.wrapping_add(1);
            Assignment::Fresh(PeerInfo { peer_id: PeerId(id), node_key: *node_key })
        },
    }
}

/// Whether `e` is how the engine failed to open a table of `PeerDb` in a transaction on the
/// database `id`.
pub closed spec fn opening_fails(id: int, e: redb::Error) -> bool {
    exists|txn: &mut redb::WriteTransaction, name: &str|
        {
            &&& store::draft_identity(*txn) == id
            &&& name@ == TABLE_PEERS@ || name@ == TABLE_NODEKEY@
            &&& #[trigger] call_ensures(store::open_table, (txn, name), Err::<(), redb::Error>(e))
        }
}

/// Whether `e` is how the engine failed to read `key` in the table `table` of a transaction on the
/// database `id`.
pub closed spec fn reading_fails(id: int, table: Seq<char>, key: Seq<u8>, e: redb::Error) -> bool {
    exists|txn: &redb::WriteTransaction, name: &str, bytes: &[u8]|
        {
            &&& store::draft_identity(*txn) == id
            &&& name@ == table
            &&& bytes@ == key
            &&& #[trigger] call_ensures(
                store::table_get,
                (txn, name, bytes),
                Err::<Option<Vec<u8>>, redb::Error>(e),
            )
        }
}

/// Whether `e` is how the engine failed to put `value` under `key` in the table `table` of a
/// transaction on the database `id`.
pub closed spec fn writing_fails(
    id: int,
    table: Seq<char>,
    key: Seq<u8>,
    value: Seq<u8>,
    e: redb::Error,
) -> bool {
    exists|txn: &mut redb::WriteTransaction, name: &str, bytes: &[u8], data: &[u8]|
        {
            &&& store::draft_identity(*txn) == id
            &&& name@ == table
            &&& bytes@ == key
            &&& data@ == value
            &&& #[trigger] call_ensures(
                store::table_insert,
                (txn, name, bytes, data),
                Err::<(), redb::Error>(e),
            )
        }
}

/// Whether `e` is how the engine failed to take out what stands under `key` in the table `table` of
/// a transaction on the database `id`.
pub closed spec fn erasing_fails(id: int, table: Seq<char>, key: Seq<u8>, e: redb::Error) -> bool {
    exists|txn: &mut redb::WriteTransaction, name: &str, bytes: &[u8]|
        {
            &&& store::draft_identity(*txn) == id
            &&& name@ == table
            &&& bytes@ == key
            &&& #[trigger] call_ensures(
                store::table_remove,
                (txn, name, bytes),
                Err::<Option<Vec<u8>>, redb::Error>(e),
            )
        }
}

/// Whether `e` is how the engine failed to commit a transaction on the database `id` that left
/// `tables` with `next_id` next.
pub closed spec fn committing_fails(id: int, tables: PeerTables, e: redb::Error) -> bool {
    exists|db: &mut redb::Database, txn: redb::WriteTransaction|
        {
            &&& store::database_identity(*db) == id
            &&& store::draft_identity(txn) == id
            &&& model(store::draft_tables(txn), tables.next_id) == tables
            &&& #[trigger] call_ensures(store::commit, (db, txn), Err::<(), redb::Error>(e))
        }
}

/// Whether `e` is how the engine failed a step of asking for `key` in the database `id` that holds
/// `tables`: opening the tables, reading the id of the key and the record under that id, or, for a
/// new key, writing both.
pub closed spec fn asking_step_fails(
    id: int,
    tables: PeerTables,
    key: NodePublicKey,
    e: redb::Error,
) -> bool {
    ||| opening_fails(id, e)
    ||| reading_fails(id, TABLE_NODEKEY@, key.bytes@, e)
    ||| tables.ids.contains_key(key) && reading_fails(
        id,
        TABLE_PEERS@,
        id_bytes(tables.ids[key]),
        e,
    )
    ||| !tables.ids.contains_key(key) && writing_fails(
        id,
        TABLE_PEERS@,
        id_bytes(tables.next_id),
        PeerInfo { peer_id: PeerId(tables.next_id), node_key: key }.record(),
        e,
    )
    ||| !tables.ids.contains_key(key) && writing_fails(
        id,
        TABLE_NODEKEY@,
        key.bytes@,
        id_bytes(tables.next_id),
        e,
    )
}

/// Whether `e` is how the engine failed a step of removing `key` from the database `id` that holds
/// `tables`: opening the tables, or taking out the id of the key and the record under that id.
pub closed spec fn removing_step_fails(
    id: int,
    tables: PeerTables,
    key: NodePublicKey,
    e: redb::Error,
) -> bool {
    ||| opening_fails(id, e)
    ||| erasing_fails(id, TABLE_NODEKEY@, key.bytes@, e)
    ||| tables.ids.contains_key(key) && erasing_fails(
        id,
        TABLE_PEERS@,
        id_bytes(tables.ids[key]),
        e,
    )
}

/// Opens both tables in `txn`.
fn open_tables(txn: &mut redb::WriteTransaction) -> (res: Result<(), PeerDbError>)
    ensures
        store::draft_identity(*final(txn)) == store::draft_identity(*old(txn)),
        match res {
            Ok(()) => store::draft_tables(*final(txn)) == store::with_table(
                store::with_table(store::draft_tables(*old(txn)), TABLE_NODEKEY@),
                TABLE_PEERS@,
            ),
            Err(PeerDbError::Storage(e)) => opening_fails(store::draft_identity(*old(txn)), e),
            Err(_) => false,
        },
{
    proof {
        lemma_table_names();
    }
    if let Err(e) = store::open_table(txn, TABLE_NODEKEY) {
        return Err(PeerDbError::Storage(e));
    }
    if let Err(e) = store::open_table(txn, TABLE_PEERS) {
        return Err(PeerDbError::Storage(e));
    }
    Ok(())
}

/// Finds the peer of `node_key` in `txn`, or puts a new one there. The flag says whether it is
/// new.
fn enrol_in(txn: &mut redb::WriteTransaction, node_key: &NodePublicKey, next_id: &mut u32) -> (res:
    Result<(PeerInfo, bool), PeerDbError>)
    requires
        tables_wf(store::draft_tables(*old(txn))),
    ensures
        store::draft_identity(*final(txn)) == store::draft_identity(*old(txn)),
        ({
            let before = model(store::draft_tables(*old(txn)), *old(next_id));
            let after = model(store::draft_tables(*final(txn)), *final(next_id));
            match res {
                Ok((info, fresh)) => {
                    &&& !before.dangling(*node_key)
                    &&& info == before.info_for(*node_key)
                    &&& fresh == !before.ids.contains_key(*node_key)
                    &&& *final(next_id) == before.enrolled(*node_key).next_id
                    &&& fresh ==> tables_wf(store::draft_tables(*final(txn)))
                    &&& fresh ==> after == before.enrolled(*node_key)
                },
                Err(PeerDbError::MissingPeer(id)) => {
                    &&& before.dangling(*node_key)
                    &&& id == PeerId(before.ids[*node_key])
                    &&& *final(next_id) == *old(next_id)
                },
                Err(PeerDbError::Storage(e)) => {
                    &&& *final(next_id) == *old(next_id) || *final(next_id)
                        == before.enrolled(*node_key).next_id
                    &&& asking_step_fails(store::draft_identity(*old(txn)), before, *node_key, e)
                },
                Err(PeerDbError::Commit(_)) => false,
            }
        }),
{
    let ghost before = model(store::draft_tables(*old(txn)), *old(next_id));
    proof {
        lemma_table_names();
    }
    if let Err(e) = open_tables(txn) {
        return Err(e);
    }
    let ghost opened = store::draft_tables(*txn);
    let found = match store::table_get(txn, TABLE_NODEKEY, &node_key.bytes) {
        Ok(Some(bytes)) => {
            let id = decode_id(&bytes);
            proof {
                assert(bytes@.take(4) =~= bytes@);
                lemma_id_of(id);
            }
            Some(PeerId(id))
        },
        Ok(None) => None,
        Err(e) => return Err(PeerDbError::Storage(e)),
    };
    match assign(found, node_key, next_id) {
        Assignment::Existing(id) => {
            match store::table_get(txn, TABLE_PEERS, &encode_id(id.0)) {
                Ok(Some(record)) => {
                    let info = PeerInfo::from_bytes(&record);
                    proof {
                        lemma_peer_of(info);
                    }
                    Ok((info, false))
                },
                Ok(None) => Err(PeerDbError::MissingPeer(id)),
                Err(e) => Err(PeerDbError::Storage(e)),
            }
        },
        Assignment::Fresh(info) => {
            let id_key = encode_id(info.peer_id.0);
            if let Err(e) = store::table_insert(txn, TABLE_PEERS, &id_key, &info.as_bytes()) {
                return Err(PeerDbError::Storage(e));
            }
            if let Err(e) = store::table_insert(txn, TABLE_NODEKEY, &node_key.bytes, &id_key) {
                return Err(PeerDbError::Storage(e));
            }
            proof {
                lemma_peers_insert(opened[TABLE_PEERS@], info);
                lemma_ids_insert(opened[TABLE_NODEKEY@], *node_key, info.peer_id.0);
            }
            Ok((info, true))
        },
    }
}

/// Takes the peer of `node_key` out of `txn`. The flag says whether there was one.
fn remove_in(txn: &mut redb::WriteTransaction, node_key: &NodePublicKey, Ghost(next_id): Ghost<u32>)
    -> (res: Result<bool, PeerDbError>)
    requires
        tables_wf(store::draft_tables(*old(txn))),
    ensures
        store::draft_identity(*final(txn)) == store::draft_identity(*old(txn)),
        ({
            let before = model(store::draft_tables(*old(txn)), next_id);
            let after = model(store::draft_tables(*final(txn)), next_id);
            match res {
                Ok(found) => {
                    &&& found == before.ids.contains_key(*node_key)
                    &&& found ==> tables_wf(store::draft_tables(*final(txn)))
                    &&& found ==> after == before.without(*node_key)
                },
                Err(PeerDbError::Storage(e)) => removing_step_fails(
                    store::draft_identity(*old(txn)),
                    before,
                    *node_key,
                    e,
                ),
                Err(_) => false,
            }
        }),
{
    proof {
        lemma_table_names();
    }
    if let Err(e) = open_tables(txn) {
        return Err(e);
    }
    let ghost opened = store::draft_tables(*txn);
    let id: u32 = match store::table_remove(txn, TABLE_NODEKEY, &node_key.bytes) {
        Ok(Some(bytes)) => {
            let id = decode_id(&bytes);
            proof {
                assert(bytes@.take(4) =~= bytes@);
                lemma_id_of(id);
            }
            id
        },
        Ok(None) => return Ok(false),
        Err(e) => return Err(PeerDbError::Storage(e)),
    };
    if let Err(e) = store::table_remove(txn, TABLE_PEERS, &encode_id(id)) {
        return Err(PeerDbError::Storage(e));
    }
    proof {
        lemma_ids_remove(opened[TABLE_NODEKEY@], *node_key);
        lemma_peers_remove(opened[TABLE_PEERS@], id);
    }
    Ok(true)
}

/// Whether `e` is how the engine failed a call, short of the commit, that making a database needs.
pub closed spec fn creating_fails(e: redb::Error) -> bool {
    ||| call_ensures(store::create_in_memory, (), Err::<redb::Database, redb::Error>(e))
    ||| exists|db: &mut redb::Database|
        store::committed_tables(*db) == store::no_tables() && #[trigger] call_ensures(
            store::begin_write,
            (db,),
            Err::<redb::WriteTransaction, redb::Error>(e),
        )
    ||| exists|id: int| #[trigger] opening_fails(id, e)
}

/// Whether `e` is how the engine failed to commit the tables of a new database.
pub closed spec fn founding_fails(e: redb::Error) -> bool {
    exists|id: int| #[trigger] committing_fails(id, no_peers(), e)
}

/// A database that maps [`PeerId`] to [`NodePublicKey`] and vice versa.
pub struct PeerDb {
    db: redb::Database,
    next_id: u32,
}

impl View for PeerDb {
    type V = PeerTables;

    closed spec fn view(&self) -> PeerTables {
        model(store::committed_tables(self.db), self.next_id)
    }
}

impl PeerDb {
    /// Whether the tables are there and can be read, and no transaction is left open.
    pub closed spec fn wf(self) -> bool {
        tables_wf(store::committed_tables(self.db)) && !store::writer_open(self.db)
    }

    /// Whether `e` is how the engine failed to begin a transaction.
    pub closed spec fn beginning_fails(self, e: redb::Error) -> bool {
        exists|db: &mut redb::Database|
            *db == self.db && #[trigger] call_ensures(
                store::begin_write,
                (db,),
                Err::<redb::WriteTransaction, redb::Error>(e),
            )
    }

    /// Whether `e` is how the engine failed a call, short of the commit, that asking for `key`
    /// needs.
    pub open spec fn asking_fails(self, key: NodePublicKey, e: redb::Error) -> bool {
        self.beginning_fails(e) || asking_step_fails(self.identity(), self@, key, e)
    }

    /// Whether `e` is how the engine failed to commit the new peer of `key`.
    pub open spec fn enrolling_fails(self, key: NodePublicKey, e: redb::Error) -> bool {
        !self@.ids.contains_key(key) && committing_fails(
            self.identity(),
            self@.enrolled(key),
            e,
        )
    }

    /// Whether `e` is how the engine failed a call, short of the commit, that removing `key` needs.
    pub open spec fn removing_fails(self, key: NodePublicKey, e: redb::Error) -> bool {
        self.beginning_fails(e) || removing_step_fails(self.identity(), self@, key, e)
    }

    /// Whether `e` is how the engine failed to commit the removal of `key`.
    pub open spec fn leaving_fails(self, key: NodePublicKey, e: redb::Error) -> bool {
        self@.ids.contains_key(key) && committing_fails(self.identity(), self@.without(key), e)
    }

    /// Whether `e` is how the engine failed to look up the record of the peer `id`.
    pub closed spec fn lookup_fails(self, id: PeerId, e: redb::Error) -> bool {
        exists|db: &redb::Database, name: &str, bytes: &[u8]|
            {
                &&& *db == self.db
                &&& name@ == TABLE_PEERS@
                &&& bytes@ == id_bytes(id.0)
                &&& #[trigger] call_ensures(
                    store::read_get,
                    (db, name, bytes),
                    Err::<Option<Vec<u8>>, redb::Error>(e),
                )
            }
    }

    /// The engine that keeps the tables.
    pub closed spec fn engine(self) -> redb::Database {
        self.db
    }

    /// Which database this is: it stays the same however its peers change.
    pub closed spec fn identity(self) -> int {
        store::database_identity(self.db)
    }

    /// Makes a database in memory, with both tables and without any peer.
    ///
    /// Which calls the engine fails is not said here.
    pub fn create() -> (res: Result<PeerDb, PeerDbError>)
        ensures
            match res {
                Ok(peers) => {
                    &&& peers.wf()
                    &&& peers@ == no_peers()
                },
                Err(PeerDbError::Storage(e)) => creating_fails(e),
                Err(PeerDbError::Commit(e)) => founding_fails(e),
                Err(PeerDbError::MissingPeer(_)) => false,
            },
    {
        let mut db = match store::create_in_memory() {
            Ok(db) => db,
            Err(e) => return Err(PeerDbError::Storage(e)),
        };
        let mut txn = match store::begin_write(&mut db) {
            Ok(txn) => txn,
            Err(e) => return Err(PeerDbError::Storage(e)),
        };
        let ghost id = store::draft_identity(txn);
        if let Err(e) = open_tables(&mut txn) {
            assert(opening_fails(id, e->Storage_0));
            store::discard(&mut db, txn);
            return Err(e);
        }
        proof {
            lemma_table_names();
            let tables = store::draft_tables(txn);
            assert(peers_of(tables[TABLE_PEERS@]) =~= Map::empty());
            assert(ids_of(tables[TABLE_NODEKEY@]) =~= Map::empty());
            assert(model(tables, 0) == no_peers());
        }
        match store::commit(&mut db, txn) {
            Ok(()) => {
                let peers = PeerDb { db, next_id: 0 };
                assert(peers@ == no_peers());
                Ok(peers)
            },
            Err(e) => {
                assert(committing_fails(id, no_peers(), e));
                assert(founding_fails(e));
                Err(PeerDbError::Commit(e))
            },
        }
    }

    /// Get a [`PeerInfo`] by its [`NodePublicKey`], allocating a new entry if required.
    ///
    /// Which calls the engine fails is not said here. Where it fails before the commit, the tables
    /// stay as they were; only the id that the new peer would have had may be used up.
    pub fn get_or_insert(&mut self, node_key: &NodePublicKey) -> (res: Result<
        PeerInfo,
        PeerDbError,
    >)
        requires
            old(self).wf(),
        ensures
            match res {
                Ok(info) => {
                    &&& final(self).wf()
                    &&& !old(self)@.dangling(*node_key)
                    &&& info == old(self)@.info_for(*node_key)
                    &&& final(self)@ == old(self)@.enrolled(*node_key)
                },
                Err(PeerDbError::MissingPeer(id)) => {
                    &&& final(self).wf()
                    &&& old(self)@.dangling(*node_key)
                    &&& id == PeerId(old(self)@.ids[*node_key])
                    &&& final(self)@ == old(self)@
                },
                Err(PeerDbError::Storage(e)) => {
                    &&& old(self).asking_fails(*node_key, e)
                    &&& final(self).wf()
                    &&& final(self)@ == (PeerTables {
                        next_id: final(self)@.next_id,
                        ..old(self)@
                    })
                    &&& final(self)@.next_id == old(self)@.next_id || final(self)@.next_id
                        == old(self)@.enrolled(*node_key).next_id
                },
                Err(PeerDbError::Commit(e)) => old(self).enrolling_fails(*node_key, e),
            },
            final(self).identity() == old(self).identity(),
    {
        let mut txn = match store::begin_write(&mut self.db) {
            Ok(txn) => txn,
            Err(e) => return Err(PeerDbError::Storage(e)),
        };
        match enrol_in(&mut txn, node_key, &mut self.next_id) {
            Ok((info, true)) => {
                match store::commit(&mut self.db, txn) {
                    Ok(()) => Ok(info),
                    Err(e) => Err(PeerDbError::Commit(e)),
                }
            },
            Ok((info, false)) => {
                store::discard(&mut self.db, txn);
                Ok(info)
            },
            Err(e) => {
                store::discard(&mut self.db, txn);
                Err(e)
            },
        }
    }

    /// Remove a peer by [`NodePublicKey`].
    ///
    /// Which calls the engine fails is not said here. Where it fails before the commit, nothing is
    /// changed.
    pub fn remove(&mut self, node_key: &NodePublicKey) -> (res: Result<(), PeerDbError>)
        requires
            old(self).wf(),
        ensures
            match res {
                Ok(()) => final(self).wf() && final(self)@ == old(self)@.without(*node_key),
                Err(PeerDbError::Storage(e)) => {
                    &&& old(self).removing_fails(*node_key, e)
                    &&& final(self).wf()
                    &&& final(self)@ == old(self)@
                },
                Err(PeerDbError::Commit(e)) => old(self).leaving_fails(*node_key, e),
                Err(PeerDbError::MissingPeer(_)) => false,
            },
            final(self).identity() == old(self).identity(),
    {
        let mut txn = match store::begin_write(&mut self.db) {
            Ok(txn) => txn,
            Err(e) => return Err(PeerDbError::Storage(e)),
        };
        match remove_in(&mut txn, node_key, Ghost(self.next_id)) {
            Ok(true) => {
                match store::commit(&mut self.db, txn) {
                    Ok(()) => Ok(()),
                    Err(e) => Err(PeerDbError::Commit(e)),
                }
            },
            Ok(false) => {
                store::discard(&mut self.db, txn);
                Ok(())
            },
            Err(e) => {
                store::discard(&mut self.db, txn);
                Err(e)
            },
        }
    }

    /// Get a [`PeerInfo`] by its [`PeerId`].
    ///
    /// Which calls the engine fails is not said here.
    pub fn get_by_id(&self, transport_id: PeerId) -> (res: Result<Option<PeerInfo>, PeerDbError>)
        requires
            self.wf(),
        ensures
            match res {
                Ok(found) => found == self@.peers.get(transport_id.0),
                Err(PeerDbError::Storage(e)) => self.lookup_fails(transport_id, e),
                Err(_) => false,
            },
    {
        proof {
            lemma_table_names();
        }
        match store::read_get(&self.db, TABLE_PEERS, &encode_id(transport_id.0)) {
            Ok(Some(record)) => {
                let info = PeerInfo::from_bytes(&record);
                proof {
                    lemma_peer_of(info);
                }
                Ok(Some(info))
            },
            Ok(None) => Ok(None),
            Err(e) => Err(PeerDbError::Storage(e)),
        }
    }
}

impl PeerTables {
    /// Whether the two maps say the same: every key has a peer that has the key, and every peer
    /// stands under its own id and is found by its key.
    pub open spec fn consistent(self) -> bool {
        &&& forall|key: NodePublicKey| #[trigger]
            self.ids.contains_key(key) ==> self.peers.contains_key(self.ids[key])
                && self.peers[self.ids[key]].node_key == key
        &&& forall|id: u32| #[trigger]
            self.peers.contains_key(id) ==> {
                &&& self.peers[id].peer_id == PeerId(id)
                &&& self.ids.contains_key(self.peers[id].node_key)
                &&& self.ids[self.peers[id].node_key] == id
            }
    }

    /// Whether the next id is still ahead of every id in use.
    pub open spec fn ahead(self) -> bool {
        forall|id: u32| #[trigger] self.peers.contains_key(id) ==> id < self.next_id
    }
}

/// The tables of a new database say the same, and ids are ahead of those in use.
pub proof fn law_new_is_sound()
    ensures
        no_peers().consistent(),
        no_peers().ahead(),
{
}

/// Enrolling a key keeps the tables consistent, as long as a new peer gets an id that is free.
pub proof fn law_enrol_keeps_consistent(tables: PeerTables, key: NodePublicKey)
    requires
        tables.consistent(),
        tables.ids.contains_key(key) || !tables.peers.contains_key(tables.next_id),
    ensures
        tables.enrolled(key).consistent(),
{
}

/// While ids are ahead, the next one is free, and enrolling a key keeps them ahead until the
/// largest has been given out.
pub proof fn law_ids_stay_ahead(tables: PeerTables, key: NodePublicKey)
    requires
        tables.ahead(),
    ensures
        !tables.peers.contains_key(tables.next_id),
        tables.next_id < u32::MAX ==> tables.enrolled(key).ahead(),
        tables.without(key).ahead(),
{
}

/// Removing a key keeps the tables consistent.
pub proof fn law_remove_keeps_consistent(tables: PeerTables, key: NodePublicKey)
    requires
        tables.consistent(),
    ensures
        tables.without(key).consistent(),
{
}

/// In consistent tables no key lacks its peer.
pub proof fn law_consistent_has_no_dangling_key(tables: PeerTables, key: NodePublicKey)
    requires
        tables.consistent(),
    ensures
        !tables.dangling(key),
{
}

/// Asking for a key again gives the same peer and changes nothing.
pub proof fn law_enrol_again(tables: PeerTables, key: NodePublicKey)
    requires
        !tables.dangling(key),
    ensures
        !tables.enrolled(key).dangling(key),
        tables.enrolled(key).info_for(key) == tables.info_for(key),
        tables.enrolled(key).enrolled(key) == tables.enrolled(key),
{
}

/// The peer that a key stands for has that key, and is found by its id afterwards.
pub proof fn law_enrolled_is_found(tables: PeerTables, key: NodePublicKey)
    requires
        tables.consistent(),
    ensures
        tables.info_for(key).node_key == key,
        tables.enrolled(key).ids.get(key) == Some(tables.info_for(key).peer_id.0),
        tables.enrolled(key).peers.get(tables.info_for(key).peer_id.0) == Some(
            tables.info_for(key),
        ),
{
}

/// Two keys that have ids have different ones.
pub proof fn law_ids_are_distinct(tables: PeerTables, a: NodePublicKey, b: NodePublicKey)
    requires
        tables.consistent(),
        tables.ids.contains_key(a),
        tables.ids.contains_key(b),
        a != b,
    ensures
        tables.ids[a] != tables.ids[b],
{
}

/// Enrolling a key leaves every other peer as it was, as long as a new one gets a free id.
pub proof fn law_enrol_leaves_others(tables: PeerTables, key: NodePublicKey, other: NodePublicKey)
    requires
        tables.consistent(),
        tables.ids.contains_key(key) || !tables.peers.contains_key(tables.next_id),
        tables.ids.contains_key(other),
    ensures
        tables.enrolled(key).ids.contains_key(other),
        tables.enrolled(key).info_for(other) == tables.info_for(other),
{
}

/// A removed peer is found neither by key nor by id; every other peer is as it was.
pub proof fn law_removed_is_gone(tables: PeerTables, key: NodePublicKey, other: NodePublicKey)
    requires
        tables.consistent(),
        tables.ids.contains_key(key),
        other != key,
    ensures
        !tables.without(key).ids.contains_key(key),
        !tables.without(key).peers.contains_key(tables.ids[key]),
        tables.without(key).ids.contains_key(other) == tables.ids.contains_key(other),
        tables.ids.contains_key(other) ==> tables.without(key).info_for(other) == tables.info_for(
            other,
        ),
{
}

/// A call on a [`PeerDb`], with what came of it.
pub enum PeerCall {
    /// [`PeerDb::get_or_insert`] gave the peer of this key.
    Asked(NodePublicKey),
    /// [`PeerDb::remove`] took out the peer of this key.
    Removed(NodePublicKey),
    /// A call failed before its commit; the flag says whether it used up an id.
    Failed(bool),
}

/// The tables once `calls` were made on a new database, the first call first.
pub open spec fn after_calls(calls: Seq<PeerCall>) -> PeerTables
    decreases calls.len(),
{
    if calls.len() == 0 {
        no_peers()
    } else {
        let before = after_calls(calls.drop_last());
        match calls.last() {
            PeerCall::Asked(key) => before.enrolled(key),
            PeerCall::Removed(key) => before.without(key),
            PeerCall::Failed(true) => PeerTables { next_id: next_after(before.next_id), ..before },
            PeerCall::Failed(false) => before,
        }
    }
}

/// The ids that `calls` gave out to new peers, the first one first.
pub open spec fn given_out(calls: Seq<PeerCall>) -> Seq<u32>
    decreases calls.len(),
{
    if calls.len() == 0 {
        Seq::empty()
    } else {
        let before = given_out(calls.drop_last());
        match calls.last() {
            PeerCall::Asked(key) => if after_calls(calls.drop_last()).ids.contains_key(key) {
                before
            } else {
                before.push(after_calls(calls.drop_last()).next_id)
            },
            _ => before,
        }
    }
}

/// How many ids `calls` used up: those that they gave out, and those that failed calls took.
pub open spec fn ids_used(calls: Seq<PeerCall>) -> nat
    decreases calls.len(),
{
    if calls.len() == 0 {
        0
    } else {
        let before = ids_used(calls.drop_last());
        match calls.last() {
            PeerCall::Asked(key) => if after_calls(calls.drop_last()).ids.contains_key(key) {
                before
            } else {
                before + 1
            },
            PeerCall::Failed(true) => before + 1,
            _ => before,
        }
    }
}

/// How many ids there are.
pub open spec fn id_count() -> int {
    u32::MAX + 1
}

/// Until ids start again, the tables stay consistent over any calls, the next id is the number of
/// ids used up, and every id in use or given out is below that number.
pub proof fn law_calls_keep_consistent(calls: Seq<PeerCall>)
    requires
        ids_used(calls) <= id_count(),
    ensures
        after_calls(calls).consistent(),
        after_calls(calls).next_id == (if ids_used(calls) == id_count() {
            0
        } else {
            ids_used(calls) as int
        }),
        forall|id: u32| #[trigger]
            after_calls(calls).peers.contains_key(id) ==> id < ids_used(calls),
        forall|i: int|
            0 <= i < given_out(calls).len() ==> #[trigger] given_out(calls)[i] < ids_used(calls),
    decreases calls.len(),
{
    if calls.len() > 0 {
        let rest = calls.drop_last();
        law_calls_keep_consistent(rest);
        let before = after_calls(rest);
        match calls.last() {
            PeerCall::Asked(key) => law_enrol_keeps_consistent(before, key),
            PeerCall::Removed(key) => law_remove_keeps_consistent(before, key),
            PeerCall::Failed(_) => {},
        }
        assert forall|i: int| 0 <= i < given_out(calls).len() implies #[trigger] given_out(calls)[i]
            < ids_used(calls) by {
            if i < given_out(rest).len() {
                assert(given_out(rest)[i] == given_out(calls)[i]);
            }
        }
    }
}

/// Until ids start again, a key that has no peer gets an id that was never given out before, in
/// whatever order keys were asked for and removed.
pub proof fn law_ids_are_not_reused(calls: Seq<PeerCall>, key: NodePublicKey)
    requires
        ids_used(calls) < id_count(),
        !after_calls(calls).ids.contains_key(key),
    ensures
        !given_out(calls).contains(after_calls(calls).info_for(key).peer_id.0),
        given_out(calls.push(PeerCall::Asked(key))) == given_out(calls).push(
            after_calls(calls).info_for(key).peer_id.0,
        ),
{
    law_calls_keep_consistent(calls);
    assert(calls.push(PeerCall::Asked(key)).drop_last() =~= calls);
}

/// Until ids start again, no id is given out twice.
pub proof fn law_no_id_is_given_out_twice(calls: Seq<PeerCall>)
    requires
        ids_used(calls) <= id_count(),
    ensures
        given_out(calls).no_duplicates(),
    decreases calls.len(),
{
    if calls.len() > 0 {
        let rest = calls.drop_last();
        law_no_id_is_given_out_twice(rest);
        law_calls_keep_consistent(rest);
    }
}

/// Until ids start again, a key that has a peer keeps it over any further calls, as long as none of
/// them removes it.
pub proof fn law_key_keeps_its_peer(calls: Seq<PeerCall>, more: Seq<PeerCall>, key: NodePublicKey)
    requires
        ids_used(calls + more) <= id_count(),
        after_calls(calls).ids.contains_key(key),
        !more.contains(PeerCall::Removed(key)),
    ensures
        after_calls(calls + more).ids.contains_key(key),
        after_calls(calls + more).info_for(key) == after_calls(calls).info_for(key),
    decreases more.len(),
{
    if more.len() == 0 {
        assert(calls + more =~= calls);
    } else {
        let rest = more.drop_last();
        assert((calls + more).drop_last() =~= calls + rest);
        assert forall|i: int| 0 <= i < rest.len() implies rest[i] != PeerCall::Removed(key) by {
            assert(more[i] == rest[i]);
        }
        law_key_keeps_its_peer(calls, rest, key);
        law_calls_keep_consistent(calls + rest);
        let before = after_calls(calls + rest);
        assert(more.contains(more.last()));
        match more.last() {
            PeerCall::Asked(other) => law_enrol_leaves_others(before, other, key),
            PeerCall::Removed(other) => if before.ids.contains_key(other) {
                law_removed_is_gone(before, other, key);
            },
            PeerCall::Failed(_) => {},
        }
    }
}

/// Whether [`PeerDb::get_by_id`] may answer `res` for the peer `id` of `db`.
pub open spec fn looks_up(
    db: PeerDb,
    id: PeerId,
    res: Result<Option<PeerInfo>, PeerDbError>,
) -> bool {
    call_ensures(PeerDb::get_by_id, (&db, id), res)
}

/// A new database has no key and no peer: every lookup finds nothing.
pub proof fn law_new_database_is_empty(db: PeerDb, id: PeerId, found: Option<PeerInfo>)
    requires
        call_ensures(PeerDb::create, (), Ok::<PeerDb, PeerDbError>(db)),
    ensures
        forall|key: NodePublicKey| !(#[trigger] db@.ids.contains_key(key)),
        forall|id: u32| !(#[trigger] db@.peers.contains_key(id)),
        db@.next_id == 0,
        looks_up(db, id, Ok(found)) ==> found is None,
{
}

/// Asking for a key gives a peer with that key, which is found by its id from then on. A key that
/// had a peer keeps it and nothing is changed; a new key gets the next id, and the one after it is
/// next. Nothing else is changed.
pub proof fn law_asking_gives_the_peer_of_the_key(
    db: PeerDb,
    key: NodePublicKey,
    info: PeerInfo,
    after: PeerDb,
)
    requires
        db@.consistent(),
        exists|peers: &mut PeerDb, node_key: &NodePublicKey|
            {
                &&& *peers == db
                &&& *final(peers) == after
                &&& *node_key == key
                &&& #[trigger] call_ensures(
                    PeerDb::get_or_insert,
                    (peers, node_key),
                    Ok::<PeerInfo, PeerDbError>(info),
                )
            },
    ensures
        info.node_key == key,
        after@.ids.contains_key(key) && after@.ids[key] == info.peer_id.0,
        after@.peers.contains_key(info.peer_id.0) && after@.peers[info.peer_id.0] == info,
        db@.ids.contains_key(key) ==> after@ == db@,
        !db@.ids.contains_key(key) ==> {
            &&& info.peer_id.0 == db@.next_id
            &&& after@.next_id == (if db@.next_id == u32::MAX {
                0
            } else {
                db@.next_id + 1
            })
        },
        forall|other: NodePublicKey| #![trigger after@.ids.contains_key(other)]
            other != key ==> {
                &&& after@.ids.contains_key(other) == db@.ids.contains_key(other)
                &&& db@.ids.contains_key(other) ==> after@.ids[other] == db@.ids[other]
            },
        forall|id: u32| #![trigger after@.peers.contains_key(id)]
            id != info.peer_id.0 ==> {
                &&& after@.peers.contains_key(id) == db@.peers.contains_key(id)
                &&& db@.peers.contains_key(id) ==> after@.peers[id] == db@.peers[id]
            },
        forall|found: Option<PeerInfo>| #[trigger]
            looks_up(after, info.peer_id, Ok(found)) ==> found == Some(info),
{
}

/// Asking for one key and for another again: the same key gets the same peer, and another key gets
/// another one, as long as a new key gets an id that is free.
pub proof fn law_each_key_has_its_own_peer(
    db: PeerDb,
    key: NodePublicKey,
    info: PeerInfo,
    after: PeerDb,
    other: NodePublicKey,
    second: PeerInfo,
    later: PeerDb,
)
    requires
        db@.consistent(),
        db@.ids.contains_key(key) || !db@.peers.contains_key(db@.next_id),
        after@.ids.contains_key(other) || !after@.peers.contains_key(after@.next_id),
        exists|peers: &mut PeerDb, node_key: &NodePublicKey|
            {
                &&& *peers == db
                &&& *final(peers) == after
                &&& *node_key == key
                &&& #[trigger] call_ensures(
                    PeerDb::get_or_insert,
                    (peers, node_key),
                    Ok::<PeerInfo, PeerDbError>(info),
                )
            },
        exists|peers: &mut PeerDb, node_key: &NodePublicKey|
            {
                &&& *peers == after
                &&& *final(peers) == later
                &&& *node_key == other
                &&& #[trigger] call_ensures(
                    PeerDb::get_or_insert,
                    (peers, node_key),
                    Ok::<PeerInfo, PeerDbError>(second),
                )
            },
    ensures
        other == key ==> second == info && later@ == after@,
        other != key ==> second.peer_id != info.peer_id,
        later@.ids.contains_key(key) && later@.ids[key] == info.peer_id.0,
        later@.peers.contains_key(info.peer_id.0) && later@.peers[info.peer_id.0] == info,
{
}

/// A lookup gives the peer that stands under the id, or none.
pub proof fn law_lookup_gives_what_stands_there(db: PeerDb, id: PeerId, found: Option<PeerInfo>)
    requires
        db@.consistent(),
        looks_up(db, id, Ok(found)),
    ensures
        found is Some <==> db@.peers.contains_key(id.0),
        found matches Some(info) ==> {
            &&& info == db@.peers[id.0]
            &&& info.peer_id == id
            &&& db@.ids.contains_key(info.node_key) && db@.ids[info.node_key] == id.0
        },
{
}

/// Removing a key takes out its peer, both by key and by id, and no other. A key without a peer
/// changes nothing.
pub proof fn law_removing_takes_out_one_peer(db: PeerDb, key: NodePublicKey, after: PeerDb)
    requires
        db@.consistent(),
        exists|peers: &mut PeerDb, node_key: &NodePublicKey|
            {
                &&& *peers == db
                &&& *final(peers) == after
                &&& *node_key == key
                &&& #[trigger] call_ensures(
                    PeerDb::remove,
                    (peers, node_key),
                    Ok::<(), PeerDbError>(()),
                )
            },
    ensures
        !after@.ids.contains_key(key),
        !db@.ids.contains_key(key) ==> after@ == db@,
        db@.ids.contains_key(key) ==> !after@.peers.contains_key(db@.ids[key]),
        after@.next_id == db@.next_id,
        forall|other: NodePublicKey| #![trigger after@.ids.contains_key(other)]
            other != key ==> {
                &&& after@.ids.contains_key(other) == db@.ids.contains_key(other)
                &&& db@.ids.contains_key(other) ==> after@.ids[other] == db@.ids[other]
            },
        forall|id: u32| #![trigger after@.peers.contains_key(id)]
            db@.peers.contains_key(id) && db@.peers[id].node_key != key ==> {
                &&& after@.peers.contains_key(id)
                &&& after@.peers[id] == db@.peers[id]
            },
        forall|id: u32| #[trigger]
            after@.peers.contains_key(id) ==> db@.peers.contains_key(id),
        forall|found: Option<PeerInfo>|
            db@.ids.contains_key(key) && #[trigger] looks_up(
                after,
                PeerId(db@.ids[key]),
                Ok(found),
            ) ==> found is None,
{
}

/// A key that is removed and asked for again gets the next id.
pub proof fn law_removed_key_starts_anew(
    db: PeerDb,
    key: NodePublicKey,
    after: PeerDb,
    again: PeerInfo,
    later: PeerDb,
)
    requires
        db@.consistent(),
        exists|peers: &mut PeerDb, node_key: &NodePublicKey|
            {
                &&& *peers == db
                &&& *final(peers) == after
                &&& *node_key == key
                &&& #[trigger] call_ensures(
                    PeerDb::remove,
                    (peers, node_key),
                    Ok::<(), PeerDbError>(()),
                )
            },
        exists|peers: &mut PeerDb, node_key: &NodePublicKey|
            {
                &&& *peers == after
                &&& *final(peers) == later
                &&& *node_key == key
                &&& #[trigger] call_ensures(
                    PeerDb::get_or_insert,
                    (peers, node_key),
                    Ok::<PeerInfo, PeerDbError>(again),
                )
            },
    ensures
        again == (PeerInfo { peer_id: PeerId(db@.next_id), node_key: key }),
{
}

/// Asking for a key fails only with the engine: where it fails none of the calls that asking needs,
/// every key of consistent tables gets its peer. A key that has its peer is never committed, so
/// asking for it cannot fail there.
pub proof fn law_asking_fails_only_with_the_engine(
    db: PeerDb,
    key: NodePublicKey,
    res: Result<PeerInfo, PeerDbError>,
    after: PeerDb,
)
    requires
        db@.consistent(),
        exists|peers: &mut PeerDb, node_key: &NodePublicKey|
            {
                &&& *peers == db
                &&& *final(peers) == after
                &&& *node_key == key
                &&& #[trigger] call_ensures(
                    PeerDb::get_or_insert,
                    (peers, node_key),
                    res,
                )
            },
    ensures
        match res {
            Ok(_) => true,
            Err(PeerDbError::Storage(e)) => db.asking_fails(key, e),
            Err(PeerDbError::Commit(e)) => !db@.ids.contains_key(key) && db.enrolling_fails(key, e),
            Err(PeerDbError::MissingPeer(_)) => false,
        },
        (forall|e: redb::Error| !(#[trigger] db.asking_fails(key, e))) && (forall|e: redb::Error|
            !(#[trigger] db.enrolling_fails(key, e))) ==> res is Ok,
{
}

/// Asking for a key fails only where the engine fails a call that asking needs: beginning a
/// transaction, opening one of the two tables, reading the id of the key or the record under it,
/// writing the record or the id of a new key, or committing them.
pub(crate) proof fn law_asking_needs_these_calls(
    db: PeerDb,
    key: NodePublicKey,
    res: Result<PeerInfo, PeerDbError>,
    after: PeerDb,
)
    requires
        db@.consistent(),
        exists|peers: &mut PeerDb, node_key: &NodePublicKey|
            {
                &&& *peers == db
                &&& *final(peers) == after
                &&& *node_key == key
                &&& #[trigger] call_ensures(
                    PeerDb::get_or_insert,
                    (peers, node_key),
                    res,
                )
            },
    ensures
        match res {
            Ok(_) => true,
            Err(PeerDbError::Storage(e)) => {
                ||| exists|engine: &mut redb::Database|
                    *engine == db.engine() && #[trigger] call_ensures(
                        store::begin_write,
                        (engine,),
                        Err::<redb::WriteTransaction, redb::Error>(e),
                    )
                ||| exists|txn: &mut redb::WriteTransaction, name: &str|
                    (name@ == "peers"@ || name@ == "peers_nodekey"@) && #[trigger] call_ensures(
                        store::open_table,
                        (txn, name),
                        Err::<(), redb::Error>(e),
                    )
                ||| exists|txn: &redb::WriteTransaction, name: &str, bytes: &[u8]|
                    {
                        &&& {
                            ||| name@ == "peers_nodekey"@ && bytes@ == key.bytes@
                            ||| name@ == "peers"@ && db@.ids.contains_key(key) && is_id(
                                bytes@,
                                db@.ids[key],
                            )
                        }
                        &&& #[trigger] call_ensures(
                            store::table_get,
                            (txn, name, bytes),
                            Err::<Option<Vec<u8>>, redb::Error>(e),
                        )
                    }
                ||| exists|txn: &mut redb::WriteTransaction, name: &str, bytes: &[u8], data: &[u8]|
                    {
                        &&& !db@.ids.contains_key(key)
                        &&& {
                            ||| name@ == "peers_nodekey"@ && bytes@ == key.bytes@ && is_id(
                                data@,
                                db@.next_id,
                            )
                            ||| name@ == "peers"@ && is_id(bytes@, db@.next_id) && data@.len() == 36
                        }
                        &&& #[trigger] call_ensures(
                            store::table_insert,
                            (txn, name, bytes, data),
                            Err::<(), redb::Error>(e),
                        )
                    }
            },
            Err(PeerDbError::Commit(e)) => {
                &&& !db@.ids.contains_key(key)
                &&& exists|engine: &mut redb::Database, txn: redb::WriteTransaction| #[trigger]
                    call_ensures(store::commit, (engine, txn), Err::<(), redb::Error>(e))
            },
            Err(PeerDbError::MissingPeer(_)) => false,
        },
{
    lemma_is_id(db@.next_id);
    if db@.ids.contains_key(key) {
        lemma_is_id(db@.ids[key]);
    }
}

/// Removing a key fails only where the engine fails a call that removing needs: beginning a
/// transaction, opening one of the two tables, taking out the id of the key or the record under it,
/// or committing that.
pub(crate) proof fn law_removing_needs_these_calls(
    db: PeerDb,
    key: NodePublicKey,
    res: Result<(), PeerDbError>,
    after: PeerDb,
)
    requires
        exists|peers: &mut PeerDb, node_key: &NodePublicKey|
            {
                &&& *peers == db
                &&& *final(peers) == after
                &&& *node_key == key
                &&& #[trigger] call_ensures(PeerDb::remove, (peers, node_key), res)
            },
    ensures
        match res {
            Ok(_) => true,
            Err(PeerDbError::Storage(e)) => {
                ||| exists|engine: &mut redb::Database|
                    *engine == db.engine() && #[trigger] call_ensures(
                        store::begin_write,
                        (engine,),
                        Err::<redb::WriteTransaction, redb::Error>(e),
                    )
                ||| exists|txn: &mut redb::WriteTransaction, name: &str|
                    (name@ == "peers"@ || name@ == "peers_nodekey"@) && #[trigger] call_ensures(
                        store::open_table,
                        (txn, name),
                        Err::<(), redb::Error>(e),
                    )
                ||| exists|txn: &mut redb::WriteTransaction, name: &str, bytes: &[u8]|
                    {
                        &&& {
                            ||| name@ == "peers_nodekey"@ && bytes@ == key.bytes@
                            ||| name@ == "peers"@ && db@.ids.contains_key(key) && is_id(
                                bytes@,
                                db@.ids[key],
                            )
                        }
                        &&& #[trigger] call_ensures(
                            store::table_remove,
                            (txn, name, bytes),
                            Err::<Option<Vec<u8>>, redb::Error>(e),
                        )
                    }
            },
            Err(PeerDbError::Commit(e)) => {
                &&& db@.ids.contains_key(key)
                &&& exists|engine: &mut redb::Database, txn: redb::WriteTransaction| #[trigger]
                    call_ensures(store::commit, (engine, txn), Err::<(), redb::Error>(e))
            },
            Err(PeerDbError::MissingPeer(_)) => false,
        },
{
    if db@.ids.contains_key(key) {
        lemma_is_id(db@.ids[key]);
    }
}

/// A lookup fails only where the engine fails to read the record of the peer.
pub(crate) proof fn law_lookup_needs_this_call(
    db: PeerDb,
    id: PeerId,
    res: Result<Option<PeerInfo>, PeerDbError>,
)
    requires
        looks_up(db, id, res),
    ensures
        match res {
            Ok(_) => true,
            Err(PeerDbError::Storage(e)) => exists|
                engine: &redb::Database,
                name: &str,
                bytes: &[u8],
            |
                {
                    &&& *engine == db.engine()
                    &&& name@ == "peers"@
                    &&& is_id(bytes@, id.0)
                    &&& #[trigger] call_ensures(
                        store::read_get,
                        (engine, name, bytes),
                        Err::<Option<Vec<u8>>, redb::Error>(e),
                    )
                },
            Err(_) => false,
        },
{
    lemma_is_id(id.0);
}

/// Making a database fails only where the engine fails a call that making it needs: making it in
/// memory, beginning a transaction on what is new, opening one of the two tables, or committing
/// them.
pub(crate) proof fn law_creating_needs_these_calls(res: Result<PeerDb, PeerDbError>)
    requires
        call_ensures(PeerDb::create, (), res),
    ensures
        match res {
            Ok(_) => true,
            Err(PeerDbError::Storage(e)) => {
                ||| call_ensures(
                    store::create_in_memory,
                    (),
                    Err::<redb::Database, redb::Error>(e),
                )
                ||| exists|engine: &mut redb::Database| #[trigger]
                    call_ensures(
                        store::begin_write,
                        (engine,),
                        Err::<redb::WriteTransaction, redb::Error>(e),
                    )
                ||| exists|txn: &mut redb::WriteTransaction, name: &str|
                    (name@ == "peers"@ || name@ == "peers_nodekey"@) && #[trigger] call_ensures(
                        store::open_table,
                        (txn, name),
                        Err::<(), redb::Error>(e),
                    )
            },
            Err(PeerDbError::Commit(e)) => exists|
                engine: &mut redb::Database,
                txn: redb::WriteTransaction,
            | #[trigger]
                call_ensures(store::commit, (engine, txn), Err::<(), redb::Error>(e)),
            Err(PeerDbError::MissingPeer(_)) => false,
        },
{
}

/// Removing a key fails only with the engine: where it fails none of the calls that removing needs,
/// every key can be removed.
pub proof fn law_removing_fails_only_with_the_engine(
    db: PeerDb,
    key: NodePublicKey,
    res: Result<(), PeerDbError>,
    after: PeerDb,
)
    requires
        exists|peers: &mut PeerDb, node_key: &NodePublicKey|
            {
                &&& *peers == db
                &&& *final(peers) == after
                &&& *node_key == key
                &&& #[trigger] call_ensures(
                    PeerDb::remove,
                    (peers, node_key),
                    res,
                )
            },
    ensures
        match res {
            Ok(_) => true,
            Err(PeerDbError::Storage(e)) => db.removing_fails(key, e),
            Err(PeerDbError::Commit(e)) => db@.ids.contains_key(key) && db.leaving_fails(key, e),
            Err(PeerDbError::MissingPeer(_)) => false,
        },
        (forall|e: redb::Error| !(#[trigger] db.removing_fails(key, e))) && (forall|e: redb::Error|
            !(#[trigger] db.leaving_fails(key, e))) ==> res is Ok,
{
}

/// A lookup fails only with the engine: where it can read the record, the lookup succeeds.
pub proof fn law_lookup_fails_only_with_the_engine(
    db: PeerDb,
    id: PeerId,
    res: Result<Option<PeerInfo>, PeerDbError>,
)
    requires
        looks_up(db, id, res),
    ensures
        match res {
            Ok(_) => true,
            Err(PeerDbError::Storage(e)) => db.lookup_fails(id, e),
            Err(PeerDbError::Commit(_)) => false,
            Err(PeerDbError::MissingPeer(_)) => false,
        },
        (forall|e: redb::Error| !(#[trigger] db.lookup_fails(id, e))) ==> res is Ok,
{
}

/// Asking for a key that gets its peer is told as such by [`after_calls`].
pub proof fn law_asking_is_told(
    calls: Seq<PeerCall>,
    db: PeerDb,
    key: NodePublicKey,
    info: PeerInfo,
    after: PeerDb,
)
    requires
        db@ == after_calls(calls),
        exists|peers: &mut PeerDb, node_key: &NodePublicKey|
            {
                &&& *peers == db
                &&& *final(peers) == after
                &&& *node_key == key
                &&& #[trigger] call_ensures(
                    PeerDb::get_or_insert,
                    (peers, node_key),
                    Ok::<PeerInfo, PeerDbError>(info),
                )
            },
    ensures
        after@ == after_calls(calls.push(PeerCall::Asked(key))),
{
    assert(calls.push(PeerCall::Asked(key)).drop_last() =~= calls);
}

/// Removing a key is told as such by [`after_calls`].
pub proof fn law_removing_is_told(
    calls: Seq<PeerCall>,
    db: PeerDb,
    key: NodePublicKey,
    after: PeerDb,
)
    requires
        db@ == after_calls(calls),
        exists|peers: &mut PeerDb, node_key: &NodePublicKey|
            {
                &&& *peers == db
                &&& *final(peers) == after
                &&& *node_key == key
                &&& #[trigger] call_ensures(
                    PeerDb::remove,
                    (peers, node_key),
                    Ok::<(), PeerDbError>(()),
                )
            },
    ensures
        after@ == after_calls(calls.push(PeerCall::Removed(key))),
{
    assert(calls.push(PeerCall::Removed(key)).drop_last() =~= calls);
}

/// Asking for a key in vain, short of the commit, is told as such by [`after_calls`].
pub proof fn law_failing_is_told(
    calls: Seq<PeerCall>,
    db: PeerDb,
    key: NodePublicKey,
    e: redb::Error,
    after: PeerDb,
)
    requires
        db@ == after_calls(calls),
        exists|peers: &mut PeerDb, node_key: &NodePublicKey|
            {
                &&& *peers == db
                &&& *final(peers) == after
                &&& *node_key == key
                &&& #[trigger] call_ensures(
                    PeerDb::get_or_insert,
                    (peers, node_key),
                    Err::<PeerInfo, PeerDbError>(PeerDbError::Storage(e)),
                )
            },
    ensures
        after@ == after_calls(calls.push(PeerCall::Failed(true))) || after@ == after_calls(
            calls.push(PeerCall::Failed(false)),
        ),
{
    assert(calls.push(PeerCall::Failed(true)).drop_last() =~= calls);
    assert(calls.push(PeerCall::Failed(false)).drop_last() =~= calls);
}

/// A record is the four bytes of the id, the lowest first, and the bytes of the key; the peer is
/// read back from it.
pub proof fn law_record_is_read_back(info: PeerInfo, bytes: Vec<u8>, data: &[u8], read: PeerInfo)
    requires
        call_ensures(PeerInfo::as_bytes, (&info,), bytes),
        data@ == bytes@,
        call_ensures(PeerInfo::from_bytes, (data,), read),
    ensures
        read == info,
        bytes@.len() == 36,
        info.peer_id.0 == bytes@[0] + bytes@[1] * 0x100 + bytes@[2] * 0x1_0000 + bytes@[3]
            * 0x100_0000,
        forall|i: int| 0 <= i < 32 ==> #[trigger] bytes@[4 + i] == info.node_key.bytes@[i],
{
    law_record_round_trip(info, read);
    lemma_digit_sum(info.peer_id.0);
    assert(bytes@[0] == id_bytes(info.peer_id.0)[0]);
    assert(bytes@[1] == id_bytes(info.peer_id.0)[1]);
    assert(bytes@[2] == id_bytes(info.peer_id.0)[2]);
    assert(bytes@[3] == id_bytes(info.peer_id.0)[3]);
}

/// What asking for a key does, whatever the tables hold: a key that has an id gets the peer under
/// that id, and nothing changes; a new key gets the next id, and stands in both tables.
pub proof fn law_asking_changes_both_tables(
    db: PeerDb,
    key: NodePublicKey,
    info: PeerInfo,
    after: PeerDb,
)
    requires
        exists|peers: &mut PeerDb, node_key: &NodePublicKey|
            {
                &&& *peers == db
                &&& *final(peers) == after
                &&& *node_key == key
                &&& #[trigger] call_ensures(
                    PeerDb::get_or_insert,
                    (peers, node_key),
                    Ok::<PeerInfo, PeerDbError>(info),
                )
            },
    ensures
        db@.ids.contains_key(key) ==> {
            &&& db@.peers.contains_key(db@.ids[key])
            &&& info == db@.peers[db@.ids[key]]
            &&& after@ == db@
        },
        !db@.ids.contains_key(key) ==> {
            &&& info == (PeerInfo { peer_id: PeerId(db@.next_id), node_key: key })
            &&& after@.ids == db@.ids.insert(key, db@.next_id)
            &&& after@.peers == db@.peers.insert(db@.next_id, info)
            &&& after@.next_id == (if db@.next_id == u32::MAX {
                0
            } else {
                db@.next_id + 1
            })
        },
        after.wf(),
        after.identity() == db.identity(),
{
}

/// What removing a key does, whatever the tables hold: the key and the peer under its id are taken
/// out, and nothing else changes.
pub proof fn law_removing_changes_both_tables(db: PeerDb, key: NodePublicKey, after: PeerDb)
    requires
        exists|peers: &mut PeerDb, node_key: &NodePublicKey|
            {
                &&& *peers == db
                &&& *final(peers) == after
                &&& *node_key == key
                &&& #[trigger] call_ensures(
                    PeerDb::remove,
                    (peers, node_key),
                    Ok::<(), PeerDbError>(()),
                )
            },
    ensures
        db@.ids.contains_key(key) ==> {
            &&& after@.ids == db@.ids.remove(key)
            &&& after@.peers == db@.peers.remove(db@.ids[key])
            &&& after@.next_id == db@.next_id
        },
        !db@.ids.contains_key(key) ==> after@ == db@,
        after.wf(),
        after.identity() == db.identity(),
{
}

/// A key gets the id that was found for it, or else the next one, and the one after it is next.
pub proof fn law_assignment_uses_one_id(
    found: Option<PeerId>,
    node_key: &NodePublicKey,
    before: u32,
    to: Assignment,
    after: u32,
)
    requires
        exists|next_id: &mut u32|
            {
                &&& *next_id == before
                &&& *final(next_id) == after
                &&& #[trigger] call_ensures(assign, (found, node_key, next_id), to)
            },
    ensures
        match (found, to) {
            (Some(id), Assignment::Existing(given)) => given == id && after == before,
            (None, Assignment::Fresh(info)) => {
                &&& info.peer_id.0 == before
                &&& info.node_key == *node_key
                &&& before < u32::MAX ==> after == before + 1
                &&& before == u32::MAX ==> after == 0
            },
            _ => false,
        },
{
}

/// Every record has one length, and any bytes of that length are read: the first four are the id,
/// the lowest first, and the others are the key.
pub proof fn law_any_record_is_read(data: &[u8], width: Option<usize>, info: PeerInfo)
    requires
        call_ensures(PeerInfo::fixed_width, (), width),
        data@.len() == 36,
        call_ensures(PeerInfo::from_bytes, (data,), info),
    ensures
        width == Some(36usize),
        is_id(data@.take(4), info.peer_id.0),
        forall|i: int| 0 <= i < 32 ==> #[trigger] info.node_key.bytes@[i] == data@[4 + i],
{
    lemma_is_id(info.peer_id.0);
    assert(data@.take(4) =~= id_bytes(info.peer_id.0));
    assert forall|i: int| 0 <= i < 32 implies #[trigger] info.node_key.bytes@[i] == data@[4
        + i] by {
        assert(info.record()[4 + i] == info.node_key.bytes@[i]);
    }
}

} // verus!
