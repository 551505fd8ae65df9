//! SQLite, reached through `rusqlite`: the two pattern operators that searches use, and a
//! database holding a copy of the store on which a `where` query runs.
use vstd::prelude::*;
use crate::text::utf8_len;

verus! {

/// An SQLite connection (`rusqlite::Connection`).
#[verifier::external_type_specification]
#[verifier::external_body]
pub struct ExConnection(rusqlite::Connection);

/// An error reported by `rusqlite`.
#[verifier::external_type_specification]
#[verifier::external_body]
pub struct ExSqlError(rusqlite::Error);

/// What SQLite answers to `text LIKE pattern` (its built-in `like(pattern, text)`).
pub uninterp spec fn sqlite_like(pattern: Seq<char>, text: Seq<char>) -> bool;

/// What SQLite answers to `text GLOB pattern` (its built-in `glob(pattern, text)`).
pub uninterp spec fn sqlite_glob(pattern: Seq<char>, text: Seq<char>) -> bool;

/// A pattern and a text that SQLite takes in a `like` or `glob` query: the pattern within
/// its default pattern limit of 50,000 bytes and the text within its default length limit
/// of 1,000,000,000 bytes, both counted in UTF-8 as they are handed over.
pub open spec fn query_fits(pattern: Seq<char>, text: Seq<char>) -> bool {
    utf8_len(pattern) <= 50_000 && utf8_len(text) <= 1_000_000_000
}

/// Opens a private in-memory database (`rusqlite::Connection::open_in_memory`).
/// Whether it succeeds is up to SQLite; nothing is promised of the connection.
#[verifier::external_body]
pub(crate) fn open_in_memory() -> (r: Result<rusqlite::Connection, rusqlite::Error>) {
    rusqlite::Connection::open_in_memory()
}

/// Asks SQLite whether `text LIKE pattern` holds, through `Connection::query_row` on
/// `select like(?1, ?2)`. When the query succeeds, its answer is SQLite's `like`, which
/// depends on the two texts alone. It fails only where the pattern passes SQLite's
/// pattern limit or a text its length limit (see [`query_fits`]), setting aside SQLite
/// running out of memory.
#[verifier::external_body]
pub(crate) fn query_like(conn: &rusqlite::Connection, pattern: &str, text: &str) -> (r: Result<
    bool,
    rusqlite::Error,
>)
    ensures
        r matches Ok(b) ==> b == sqlite_like(pattern@, text@),
        query_fits(pattern@, text@) ==> r is Ok,
{
    conn.query_row("select like(?1, ?2)", (pattern, text), |row| row.get(0))
}

/// Asks SQLite whether `text GLOB pattern` holds, through `Connection::query_row` on
/// `select glob(?1, ?2)`. When the query succeeds, its answer is SQLite's `glob`, which
/// depends on the two texts alone. It fails only where the pattern passes SQLite's
/// pattern limit or a text its length limit (see [`query_fits`]), setting aside SQLite
/// running out of memory.
#[verifier::external_body]
pub(crate) fn query_glob(conn: &rusqlite::Connection, pattern: &str, text: &str) -> (r: Result<
    bool,
    rusqlite::Error,
>)
    ensures
        r matches Ok(b) ==> b == sqlite_glob(pattern@, text@),
        query_fits(pattern@, text@) ==> r is Ok,
{
    conn.query_row("select glob(?1, ?2)", (pattern, text), |row| row.get(0))
}

/// The rows of table `files` of the database behind `c`, in the order they were
/// inserted: id, size, modification time, path and text.
pub uninterp spec fn db_files(c: rusqlite::Connection) -> Seq<(i64, i64, i64, Seq<char>, Seq<char>)>;

/// The rows of table `lbls` of the database behind `c`, in the order they were inserted.
pub uninterp spec fn db_lbls(c: rusqlite::Connection) -> Seq<(i64, Seq<char>)>;

/// The rows of table `attachments` of the database behind `c`, in the order they were
/// inserted.
pub uninterp spec fn db_atts(c: rusqlite::Connection) -> Seq<(i64, Seq<char>, i64)>;

/// The rows of table `filter_buf` of the database behind `c`, in the order they were
/// inserted.
pub uninterp spec fn db_filter_buf(c: rusqlite::Connection) -> Seq<i64>;

/// Creates the four tables the store is copied into (`Connection::execute_batch`). A
/// `CREATE TABLE` fails where the table exists, so on success all four are new and empty.
#[verifier::external_body]
pub(crate) fn create_tables(conn: &mut rusqlite::Connection) -> (r: Result<(), rusqlite::Error>)
    ensures
        r is Ok ==> db_files(*final(conn)).len() == 0 && db_lbls(*final(conn)).len() == 0
            && db_atts(*final(conn)).len() == 0 && db_filter_buf(*final(conn)).len() == 0,
{
    conn.execute_batch(
        "CREATE TABLE lbls (tmpid integer not null, lbl text not null);
         CREATE TABLE files (tmpid INTEGER PRIMARY KEY, size integer not null, mtime integer not null, rel text not null, content text not null);
         CREATE TABLE attachments (tmpid integer not null, rel text not null, size integer not null);
         CREATE TABLE filter_buf (tid INTEGER PRIMARY KEY);",
    )
}

/// Inserts a row into `files` (`Connection::execute`); on success it is the last row and
/// the other tables are as they were.
#[verifier::external_body]
pub(crate) fn insert_file_row(
    conn: &mut rusqlite::Connection,
    tmpid: i64,
    size: i64,
    mtime: i64,
    rel: &str,
    content: &str,
) -> (r: Result<usize, rusqlite::Error>)
    ensures
        r is Ok ==> db_files(*final(conn)) == db_files(*old(conn)).push((tmpid, size, mtime, rel@, content@))
            && db_lbls(*final(conn)) == db_lbls(*old(conn)) && db_atts(*final(conn)) == db_atts(*old(conn))
            && db_filter_buf(*final(conn)) == db_filter_buf(*old(conn)),
{
    conn.execute("insert into files values(?1, ?2, ?3, ?4, ?5)", (tmpid, size, mtime, rel, content))
}

/// Inserts a row into `lbls` (`Connection::execute`); on success it is the last row and
/// the other tables are as they were.
#[verifier::external_body]
pub(crate) fn insert_lbl_row(conn: &mut rusqlite::Connection, tmpid: i64, lbl: &str) -> (r: Result<usize, rusqlite::Error>)
    ensures
        r is Ok ==> db_lbls(*final(conn)) == db_lbls(*old(conn)).push((tmpid, lbl@))
            && db_files(*final(conn)) == db_files(*old(conn)) && db_atts(*final(conn)) == db_atts(*old(conn))
            && db_filter_buf(*final(conn)) == db_filter_buf(*old(conn)),
{
    conn.execute("insert into lbls values(?1, ?2)", (tmpid, lbl))
}

/// Inserts a row into `attachments` (`Connection::execute`); on success it is the last
/// row and the other tables are as they were.
#[verifier::external_body]
pub(crate) fn insert_att_row(conn: &mut rusqlite::Connection, tmpid: i64, rel: &str, size: i64) -> (r: Result<usize, rusqlite::Error>)
    ensures
        r is Ok ==> db_atts(*final(conn)) == db_atts(*old(conn)).push((tmpid, rel@, size))
            && db_files(*final(conn)) == db_files(*old(conn)) && db_lbls(*final(conn)) == db_lbls(*old(conn))
            && db_filter_buf(*final(conn)) == db_filter_buf(*old(conn)),
{
    conn.execute("insert into attachments values(?1, ?2, ?3)", (tmpid, rel, size))
}

/// Inserts a row into `filter_buf` (`Connection::execute`); on success it is the last
/// row and the other tables are as they were.
#[verifier::external_body]
pub(crate) fn insert_filter_row(conn: &mut rusqlite::Connection, tid: i64) -> (r: Result<usize, rusqlite::Error>)
    ensures
        r is Ok ==> db_filter_buf(*final(conn)) == db_filter_buf(*old(conn)).push(tid)
            && db_files(*final(conn)) == db_files(*old(conn)) && db_lbls(*final(conn)) == db_lbls(*old(conn))
            && db_atts(*final(conn)) == db_atts(*old(conn)),
{
    conn.execute("insert into filter_buf values(?1)", (tid,))
}

/// Prepares `sql` (`Connection::prepare`) and collects the first column of its rows as
/// integers (`Statement::query_map`); `Ok(None)` where SQLite cannot prepare it. Nothing
/// is stated of the ids: what a query gives may depend on more than the tables and the
/// text (`random()`, the clock).
#[verifier::external_body]
pub(crate) fn where_query(conn: &mut rusqlite::Connection, sql: &str) -> (r: Result<Option<Vec<i64>>, rusqlite::Error>)
{
    let mut stmt = match conn.prepare(sql) {
        Ok(s) => s,
        Err(_) => return Ok(None),
    };
    let rows = stmt.query_map([], |row| row.get::<_, i64>(0))?;
    let ids: Result<Vec<i64>, rusqlite::Error> = rows.collect();
    Ok(Some(ids?))
}

} // verus!
