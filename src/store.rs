//! The commands handed to a store, and the calls into `rusqlite` and `csv`.
use vstd::prelude::*;
use crate::rows::Record;

verus! {

/// rusqlite's connection, carried through opaquely.
#[verifier::external_type_specification]
#[verifier::external_body]
pub struct ExConnection(rusqlite::Connection);

/// rusqlite's prepared statement, carried through opaquely.
#[verifier::external_type_specification]
#[verifier::external_body]
pub struct ExStatement<'conn>(rusqlite::Statement<'conn>);

/// A command handed to the store: accepted, unless it is one of the two
/// `...Rejected` kinds.
pub enum StoreOp {
    /// A batch of statements, such as the schema.
    Batch(Seq<char>),
    /// A transaction was opened.
    Begin,
    /// The insert statement of a table was prepared: table name and statement text.
    Prepare(Seq<char>, Seq<char>),
    /// The prepared statement ran once with these values (`None` is NULL).
    Execute(Seq<Option<Seq<char>>>),
    /// The store refused to prepare this insert statement: table name and statement text.
    PrepareRejected(Seq<char>, Seq<char>),
    /// The store refused to run the prepared statement with these values.
    ExecuteRejected(Seq<Option<Seq<char>>>),
    /// The open transaction was committed.
    Commit,
    /// The open transaction was rolled back.
    Rollback,
}

/// Relies on rusqlite::Connection::open_in_memory: a fresh, empty in-memory database.
#[verifier::external_body]
pub(crate) fn open_memory() -> (r: Result<rusqlite::Connection, String>) {
    rusqlite::Connection::open_in_memory().map_err(|e| e.to_string())
}

/// Relies on rusqlite::Connection::execute_batch: runs each statement of `sql` in turn.
#[verifier::external_body]
pub(crate) fn execute_batch(conn: &rusqlite::Connection, sql: &str) -> (r: Result<(), String>) {
    conn.execute_batch(sql).map_err(|e| e.to_string())
}

/// Relies on rusqlite::Connection::prepare: compiles one statement for repeated use.
#[verifier::external_body]
pub(crate) fn prepare<'conn>(conn: &'conn rusqlite::Connection, sql: &str) -> (r: Result<
    rusqlite::Statement<'conn>,
    String,
>) {
    conn.prepare(sql).map_err(|e| e.to_string())
}

/// Relies on rusqlite::Statement::execute: binds `params` by position (`None`
/// as NULL) and runs the statement once.
#[verifier::external_body]
pub(crate) fn execute(stmt: &mut rusqlite::Statement, params: &Vec<Option<String>>) -> (r: Result<
    usize,
    String,
>) {
    stmt.execute(rusqlite::params_from_iter(params.iter())).map_err(|e| e.to_string())
}

/// The header record that csv's default reader reads from `data`, or `None`
/// when it cannot be read.
pub uninterp spec fn csv_header(data: Seq<u8>) -> Option<Seq<Seq<char>>>;

/// The records after the header that csv's default reader reads from
/// `data`, each its fields or `None` where the record fails to parse.
pub uninterp spec fn csv_records(data: Seq<u8>) -> Seq<Option<Seq<Seq<char>>>>;

/// A row's fields, or `None` for a row that failed to parse.
pub open spec fn record_shape(r: Record) -> Option<Seq<Seq<char>>> {
    match r {
        Ok(fields) => Some(fields.deep_view()),
        Err(_) => None,
    }
}

/// The shapes of `rows`, in order.
pub open spec fn records_shape(rows: Seq<Record>) -> Seq<Option<Seq<Seq<char>>>> {
    rows.map_values(|r: Record| record_shape(r))
}

/// Relies on csv::Reader::headers, on a reader made by csv::Reader::from_reader
/// over `data`: the fields of the header record, a function of the bytes.
#[verifier::external_body]
pub(crate) fn parse_header(data: &[u8]) -> (r: Result<Vec<String>, String>)
    ensures
        r is Ok <==> csv_header(data@) is Some,
        r matches Ok(h) ==> csv_header(data@) == Some(h.deep_view()),
{
    match csv::Reader::from_reader(data).headers() {
        Ok(h) => Ok(h.iter().map(|f| f.to_string()).collect()),
        Err(e) => Err(e.to_string()),
    }
}

/// Relies on csv::Reader::into_records, on a reader made by
/// csv::Reader::from_reader over `data`: every record after the header, each
/// its fields or the message of its parse failure, a function of the bytes.
#[verifier::external_body]
pub(crate) fn parse_records(data: &[u8]) -> (r: Vec<Record>)
    ensures
        records_shape(r@) == csv_records(data@),
{
    csv::Reader::from_reader(data).into_records().map(
        |rec| match rec {
            Ok(fields) => Ok(fields.iter().map(|f| f.to_string()).collect()),
            Err(e) => Err(e.to_string()),
        },
    ).collect()
}

} // verus!
