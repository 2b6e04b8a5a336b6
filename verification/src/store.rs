//! The database engine that keeps the peers: named tables from bytes to bytes, changed in
//! transactions.
//!
//! Everything here is taken from the `redb` crate on trust; what each call is taken to do is said
//! above it.

use redb::{ReadableDatabase, ReadableTable, TableDefinition};
use vstd::prelude::*;

verus! {

/// A database of `redb`.
#[verifier::external_type_specification]
#[verifier::external_body]
pub struct ExDatabase(redb::Database);

/// A write transaction of `redb`.
#[verifier::external_type_specification]
#[verifier::external_body]
pub struct ExWriteTransaction(redb::WriteTransaction);

/// What `redb` reports when a call fails.
#[verifier::external_type_specification]
#[verifier::external_body]
pub struct ExError(redb::Error);

/// The contents of a database or of a transaction: each table by its name.
pub type Tables = Map<Seq<char>, Map<Seq<u8>, Seq<u8>>>;

/// The tables that a reader of the database sees.
pub uninterp spec fn committed_tables(db: redb::Database) -> Tables;

/// Which database this is: it stays the same however the database is changed.
pub uninterp spec fn database_identity(db: redb::Database) -> int;

/// Whether a write transaction on the database has begun and not ended.
pub uninterp spec fn writer_open(db: redb::Database) -> bool;

/// The tables as the transaction has left them so far.
pub uninterp spec fn draft_tables(txn: redb::WriteTransaction) -> Tables;

/// Which database the transaction writes to.
pub uninterp spec fn draft_identity(txn: redb::WriteTransaction) -> int;

/// What a lookup of `key` in the table `name` of `tables` finds.
pub open spec fn lookup(tables: Tables, name: Seq<char>, key: Seq<u8>) -> Option<Seq<u8>> {
    tables[name].get(key)
}

/// The contents once the table `name` is there: one that is new is empty.
pub open spec fn with_table(tables: Tables, name: Seq<char>) -> Tables {
    if tables.contains_key(name) {
        tables
    } else {
        tables.insert(name, Map::empty())
    }
}

/// The contents of a new database.
pub open spec fn no_tables() -> Tables {
    Map::empty()
}

/// `redb::Builder::create_with_backend` on a fresh `redb::backends::InMemoryBackend`: the new
/// database holds no table, and no one is writing to it.
#[verifier::external_body]
pub(crate) fn create_in_memory() -> (res: Result<redb::Database, redb::Error>)
    ensures
        res matches Ok(db) ==> committed_tables(db) == no_tables() && !writer_open(db),
{
    Ok(redb::Database::builder().create_with_backend(redb::backends::InMemoryBackend::new())?)
}

/// `redb::Database::begin_write`: the transaction starts from the committed tables. The call waits
/// for as long as another write transaction is open, so none may be.
#[verifier::external_body]
pub(crate) fn begin_write(db: &mut redb::Database) -> (res: Result<
    redb::WriteTransaction,
    redb::Error,
>)
    requires
        !writer_open(*old(db)),
    ensures
        committed_tables(*final(db)) == committed_tables(*old(db)),
        database_identity(*final(db)) == database_identity(*old(db)),
        match res {
            Ok(txn) => {
                &&& writer_open(*final(db))
                &&& draft_identity(txn) == database_identity(*final(db))
                &&& draft_tables(txn) == committed_tables(*final(db))
            },
            Err(_) => !writer_open(*final(db)),
        },
{
    Ok(db.begin_write()?)
}

/// `redb::WriteTransaction::open_table`: a table that does not exist is created empty, one that
/// does is left as it is. The name must not be empty: `redb::TableDefinition::new` panics on one
/// that is.
#[verifier::external_body]
pub(crate) fn open_table(txn: &mut redb::WriteTransaction, name: &str) -> (res: Result<
    (),
    redb::Error,
>)
    requires
        name@.len() > 0,
    ensures
        draft_identity(*final(txn)) == draft_identity(*old(txn)),
        res is Ok ==> draft_tables(*final(txn)) == with_table(draft_tables(*old(txn)), name@),
{
    let table: TableDefinition<&[u8], &[u8]> = TableDefinition::new(name);
    txn.open_table(table)?;
    Ok(())
}

/// `redb::ReadableTable::get` on a table of a write transaction: the value under `key`, if there
/// is one.
#[verifier::external_body]
pub(crate) fn table_get(txn: &redb::WriteTransaction, name: &str, key: &[u8]) -> (res: Result<
    Option<Vec<u8>>,
    redb::Error,
>)
    requires
        name@.len() > 0,
        draft_tables(*txn).contains_key(name@),
    ensures
        res matches Ok(found) ==> match found {
            Some(value) => lookup(draft_tables(*txn), name@, key@) == Some(value@),
            None => lookup(draft_tables(*txn), name@, key@) is None,
        },
{
    let table: TableDefinition<&[u8], &[u8]> = TableDefinition::new(name);
    let table = txn.open_table(table)?;
    let found = table.get(key)?;
    Ok(found.map(|guard| guard.value().to_vec()))
}

/// `redb::Table::insert`: puts `value` under `key`, in place of what was there.
#[verifier::external_body]
pub(crate) fn table_insert(
    txn: &mut redb::WriteTransaction,
    name: &str,
    key: &[u8],
    value: &[u8],
) -> (res: Result<(), redb::Error>)
    requires
        name@.len() > 0,
        draft_tables(*old(txn)).contains_key(name@),
    ensures
        draft_identity(*final(txn)) == draft_identity(*old(txn)),
        res is Ok ==> draft_tables(*final(txn)) == draft_tables(*old(txn)).insert(
            name@,
            draft_tables(*old(txn))[name@].insert(key@, value@),
        ),
{
    let table: TableDefinition<&[u8], &[u8]> = TableDefinition::new(name);
    let mut table = txn.open_table(table)?;
    table.insert(key, value)?;
    Ok(())
}

/// `redb::Table::remove`: takes out what stands under `key` and returns it.
#[verifier::external_body]
pub(crate) fn table_remove(txn: &mut redb::WriteTransaction, name: &str, key: &[u8]) -> (res: Result<
    Option<Vec<u8>>,
    redb::Error,
>)
    requires
        name@.len() > 0,
        draft_tables(*old(txn)).contains_key(name@),
    ensures
        draft_identity(*final(txn)) == draft_identity(*old(txn)),
        res matches Ok(found) ==> {
            &&& draft_tables(*final(txn)) == draft_tables(*old(txn)).insert(
                name@,
                draft_tables(*old(txn))[name@].remove(key@),
            )
            &&& match found {
                Some(value) => lookup(draft_tables(*old(txn)), name@, key@) == Some(value@),
                None => lookup(draft_tables(*old(txn)), name@, key@) is None,
            }
        },
{
    let table: TableDefinition<&[u8], &[u8]> = TableDefinition::new(name);
    let mut table = txn.open_table(table)?;
    let found = table.remove(key)?;
    Ok(found.map(|guard| guard.value().to_vec()))
}

/// `redb::WriteTransaction::commit`: the transaction's tables become the committed ones. Where it
/// fails, nothing is said of the database: `redb` may refuse all further work on it.
#[verifier::external_body]
pub(crate) fn commit(db: &mut redb::Database, txn: redb::WriteTransaction) -> (res: Result<
    (),
    redb::Error,
>)
    requires
        draft_identity(txn) == database_identity(*old(db)),
    ensures
        database_identity(*final(db)) == database_identity(*old(db)),
        res is Ok ==> committed_tables(*final(db)) == draft_tables(txn) && !writer_open(
            *final(db),
        ),
{
    Ok(txn.commit()?)
}

/// Dropping a `redb::WriteTransaction` that was not committed: its changes are rolled back.
#[verifier::external_body]
pub(crate) fn discard(db: &mut redb::Database, txn: redb::WriteTransaction)
    requires
        draft_identity(txn) == database_identity(*old(db)),
    ensures
        database_identity(*final(db)) == database_identity(*old(db)),
        committed_tables(*final(db)) == committed_tables(*old(db)),
        !writer_open(*final(db)),
{
    drop(txn);
}

/// `redb::ReadOnlyTable::get` in a fresh read transaction: the committed value under `key`, if
/// there is one. Opening a table that does not exist fails. The name must not be empty, as for
/// [`open_table`].
#[verifier::external_body]
pub(crate) fn read_get(db: &redb::Database, name: &str, key: &[u8]) -> (res: Result<
    Option<Vec<u8>>,
    redb::Error,
>)
    requires
        name@.len() > 0,
    ensures
        res matches Ok(found) ==> {
            &&& committed_tables(*db).contains_key(name@)
            &&& match found {
                Some(value) => lookup(committed_tables(*db), name@, key@) == Some(value@),
                None => lookup(committed_tables(*db), name@, key@) is None,
            }
        },
{
    let table: TableDefinition<&[u8], &[u8]> = TableDefinition::new(name);
    let table = db.begin_read()?.open_table(table)?;
    let found = table.get(key)?;
    Ok(found.map(|guard| guard.value().to_vec()))
}

} // verus!
