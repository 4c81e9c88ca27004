//! Persistence of the hybrid logical clock in a single-row register table,
//! named from a caller prefix. The persist upsert is MAX-guarded, so a commit
//! that lands out of order never lowers the stored clock.

use vstd::prelude::*;
use vstd::string::StringExecFns;
use crate::sql::batch::StatementBatch;
use crate::sql::dialect::{SqlDialect, placeholder_spec, scalar_max_spec};
use crate::sql::row::{DbRow, read_i64};
use crate::sql::schema::{DbType, quote_ident, quoted, sql_type_spec};
use crate::sql::value::{DbError, DbValue, DbValueView};
use crate::text::dec;

verus! {

/// The register table of the store whose tables are prefixed with `prefix`.
pub open spec fn hlc_table_spec(prefix: Seq<char>) -> Seq<char> {
    quoted(prefix + "__hlc"@)
}

/// DDL for the register: exactly one row, pinned at `id = 1`.
pub open spec fn create_sql_spec(table: Seq<char>, d: SqlDialect) -> Seq<char> {
    "CREATE TABLE IF NOT EXISTS "@ + table + " (\n    id "@ + sql_type_spec(DbType::Integer, d)
        + " PRIMARY KEY CHECK (id = 1),\n    ts "@ + sql_type_spec(DbType::Integer, d)
        + " NOT NULL DEFAULT 0\n)"@
}

/// The read of the register row.
pub open spec fn load_sql_spec(table: Seq<char>) -> Seq<char> {
    "SELECT ts FROM "@ + table + " WHERE id = 1"@
}

/// The MAX-guarded upsert of the clock: the stored value only grows.
pub open spec fn persist_sql_spec(table: Seq<char>, d: SqlDialect) -> Seq<char> {
    "INSERT INTO "@ + table + " (id, ts) VALUES (1, "@ + placeholder_spec(d, 1)
        + ") ON CONFLICT(id) DO UPDATE SET ts = "@ + scalar_max_spec(d)
        + "(COALESCE(ts, 0), EXCLUDED.ts)"@
}

/// The quoted name of the register table for `prefix`.
pub fn hlc_table(prefix: &str) -> (t: String)
    ensures
        t@ == hlc_table_spec(prefix@),
{
    let mut name = String::from_str(prefix);
    name.append("__hlc");
    quote_ident(name.as_str())
}

/// DDL for the register: exactly one row, pinned at `id = 1`.
pub fn create_sql(table: &str, dialect: SqlDialect) -> (s: String)
    ensures
        s@ == create_sql_spec(table@, dialect),
{
    let int_type = DbType::Integer.sql_type(dialect);
    let mut s = String::from_str("CREATE TABLE IF NOT EXISTS ");
    s.append(table);
    s.append(" (\n    id ");
    s.append(int_type);
    s.append(" PRIMARY KEY CHECK (id = 1),\n    ts ");
    s.append(int_type);
    s.append(" NOT NULL DEFAULT 0\n)");
    s
}

/// Reads the single register row.
pub fn load_sql(table: &str) -> (s: String)
    ensures
        s@ == load_sql_spec(table@),
{
    let mut s = String::from_str("SELECT ts FROM ");
    s.append(table);
    s.append(" WHERE id = 1");
    s
}

/// The MAX-guarded upsert of the clock.
pub fn persist_sql(table: &str, dialect: SqlDialect) -> (s: String)
    ensures
        s@ == persist_sql_spec(table@, dialect),
{
    let max = dialect.scalar_max();
    let p1 = dialect.placeholder(1);
    let mut s = String::from_str("INSERT INTO ");
    s.append(table);
    s.append(" (id, ts) VALUES (1, ");
    s.append(p1.as_str());
    s.append(") ON CONFLICT(id) DO UPDATE SET ts = ");
    s.append(max);
    s.append("(COALESCE(ts, 0), EXCLUDED.ts)");
    s
}

/// The seed a register read gives: `None` for no row, else the first row's
/// first column, as stored.
pub open spec fn seed_spec(rows: Seq<DbRow>) -> Result<Option<u64>, DbError> {
    if rows.len() == 0 {
        Ok(None)
    } else {
        match read_i64(rows[0].values@, 0) {
            Ok(v) => Ok(Some(v as u64)),
            Err(e) => Err(e),
        }
    }
}

/// Persistence for the clock register, scoped to a table-name prefix.
pub struct SqlHlcStorage {
    /// Seed read from the register at open, or `None` for a fresh store.
    seed: Option<u64>,
    /// The MAX-guarded upsert, rendered once from the table name.
    persist_sql: String,
}

impl SqlHlcStorage {
    /// The seed read at open.
    pub closed spec fn seed_spec(&self) -> Option<u64> {
        self.seed
    }

    /// The upsert that saves the clock.
    pub closed spec fn persist_sql_spec(&self) -> Seq<char> {
        self.persist_sql@
    }

    /// The storage of the register `table`, seeded from the rows its read
    /// returned (the register's stored value, taken as the clock's bits).
    pub fn from_rows(table: &str, dialect: SqlDialect, rows: &Vec<DbRow>) -> (r: Result<
        Self,
        DbError,
    >)
        ensures
            match r {
                Ok(s) => seed_spec(rows@) == Ok::<Option<u64>, DbError>(s.seed_spec())
                    && s.persist_sql_spec() == persist_sql_spec(table@, dialect),
                Err(e) => seed_spec(rows@) == Err::<Option<u64>, DbError>(e),
            },
    {
        let seed = if rows.len() == 0 {
            None
        } else {
            match rows[0].get_i64(0) {
                Ok(v) => Some(v as u64),
                Err(e) => return Err(e),
            }
        };
        Ok(SqlHlcStorage { seed, persist_sql: persist_sql(table, dialect) })
    }

    /// The seed cached at open; no I/O.
    pub fn load(&self) -> (r: Result<Option<u64>, DbError>)
        ensures
            r == Ok::<Option<u64>, DbError>(self.seed_spec()),
    {
        Ok(self.seed)
    }

    /// Queues the clock-state upsert into `sink`; durable when the caller
    /// commits it. The packed clock stays below 2^48, so it fits the signed
    /// column unchanged.
    pub fn save(&self, sink: &mut StatementBatch, raw: u64) -> (r: Result<(), DbError>)
        ensures
            r is Ok,
            final(sink).dialect_spec() == old(sink).dialect_spec(),
            final(sink).statements() == old(sink).statements().push(
                (self.persist_sql_spec(), seq![DbValueView::Integer(raw as i64)]),
            ),
    {
        let params = vec![DbValue::Integer(raw as i64)];
        sink.add_statement(self.persist_sql.as_str(), &params);
        proof {
            assert(crate::sql::value::value_views(params@) =~= seq![DbValueView::Integer(raw as i64)]);
        }
        Ok(())
    }
}

/// The clock a register row stores reads back as saved: a fresh register has
/// no seed, and a row holding the saved bits as its first cell seeds the
/// clock with those bits.
pub proof fn law_seed_round_trip(raw: u64, row: DbRow, rest: Seq<DbRow>)
    requires
        raw <= i64::MAX,
        row.values@.len() > 0,
        row.values@[0] == DbValue::Integer(raw as i64),
    ensures
        seed_spec(Seq::<DbRow>::empty()) == Ok::<Option<u64>, DbError>(None),
        seed_spec(seq![row] + rest) == Ok::<Option<u64>, DbError>(Some(raw)),
{
    assert((seq![row] + rest)[0] == row);
}

} // verus!
