//! Statements built with sea-query: rendered to SQL text by the query builder
//! of the dialect, with their bound values brought into [`DbValue`]s.

use vstd::prelude::*;
use vstd::string::StringExecFns;
use sea_query::{
    Alias, ColumnName, ColumnRef, DeleteStatement, Expr, ExprTrait, InsertStatement, IntoIden,
    PostgresQueryBuilder, Query, ReturningClause, SelectStatement, SqliteQueryBuilder,
    UpdateStatement, Value,
};
use crate::sql::batch::StatementBatch;
use crate::sql::dialect::SqlDialect;
use crate::sql::value::{DbError, DbValue, DbValueView, value_views};

verus! {

/// sea-query's `InsertStatement`, carried through opaque.
#[verifier::external_type_specification]
#[verifier::external_body]
pub struct ExInsertStatement(InsertStatement);

/// sea-query's `UpdateStatement`, carried through opaque.
#[verifier::external_type_specification]
#[verifier::external_body]
pub struct ExUpdateStatement(UpdateStatement);

/// sea-query's `SelectStatement`, carried through opaque.
#[verifier::external_type_specification]
#[verifier::external_body]
pub struct ExSelectStatement(SelectStatement);

/// sea-query's `DeleteStatement`, carried through opaque.
#[verifier::external_type_specification]
#[verifier::external_body]
pub struct ExDeleteStatement(DeleteStatement);

/// sea-query's `Values`, carried through opaque.
#[verifier::external_type_specification]
#[verifier::external_body]
pub struct ExValues(sea_query::Values);

/// sea-query's `Value`, carried through opaque.
#[verifier::external_type_specification]
#[verifier::external_body]
pub struct ExValue(Value);

/// A value a rendered statement binds, as plain data: the kinds the engine
/// can store, and any other kind by its description.
#[derive(Debug)]
pub enum QueryValue {
    Bool(Option<bool>),
    TinyInt(Option<i8>),
    SmallInt(Option<i16>),
    Int(Option<i32>),
    BigInt(Option<i64>),
    TinyUnsigned(Option<u8>),
    SmallUnsigned(Option<u16>),
    Unsigned(Option<u32>),
    BigUnsigned(Option<u64>),
    /// A character, by its text.
    Char(Option<String>),
    String(Option<String>),
    Bytes(Option<Vec<u8>>),
    Uuid(Option<[u8; 16]>),
    /// A kind the engine does not store, by its debug description.
    Other(String),
}

/// Converts an integer or boolean `sea_query::Value` to plain data, one for one;
/// other kinds go on. Nothing is claimed of the result.
#[verifier::external_body]
fn plain_value(value: Value) -> (v: QueryValue) {
    match value {
        Value::Bool(b) => QueryValue::Bool(b),
        Value::TinyInt(i) => QueryValue::TinyInt(i),
        Value::SmallInt(i) => QueryValue::SmallInt(i),
        Value::Int(i) => QueryValue::Int(i),
        Value::BigInt(i) => QueryValue::BigInt(i),
        Value::TinyUnsigned(u) => QueryValue::TinyUnsigned(u),
        Value::SmallUnsigned(u) => QueryValue::SmallUnsigned(u),
        Value::Unsigned(u) => QueryValue::Unsigned(u),
        Value::BigUnsigned(u) => QueryValue::BigUnsigned(u),
        other => plain_other_value(other),
    }
}

/// Converts a text, byte or UUID `sea_query::Value` to plain data; any other
/// kind becomes its debug description. Nothing is claimed of the result.
#[verifier::external_body]
fn plain_other_value(value: Value) -> (v: QueryValue) {
    match value {
        Value::Char(c) => QueryValue::Char(c.map(|c| c.to_string())),
        Value::String(s) => QueryValue::String(s),
        Value::Bytes(b) => QueryValue::Bytes(b),
        Value::Uuid(u) => QueryValue::Uuid(u.map(|u| u.into_bytes())),
        other => QueryValue::Other(format!("{other:?}")),
    }
}

/// Converts `sea_query::Values` to plain data, one for one. Nothing is claimed
/// of the result.
#[verifier::external_body]
fn plain_values(values: sea_query::Values) -> (v: Vec<QueryValue>) {
    values.0.into_iter().map(plain_value).collect()
}

/// A condition of a WHERE clause: the column equals the value, which is bound
/// as a parameter.
#[derive(Debug)]
pub struct ColumnEq {
    pub column: String,
    pub value: QueryValue,
}

/// An INSERT as plain data: the table, the columns, the rows of values
/// (written into the statement text as constants) and the columns a
/// `RETURNING` clause names, if there is one.
#[derive(Debug)]
pub struct InsertQuery {
    pub table: String,
    pub columns: Vec<String>,
    pub rows: Vec<Vec<QueryValue>>,
    pub returning: Option<Vec<String>>,
}

impl InsertQuery {
    /// Whether each row holds one value per column.
    pub open spec fn rows_fit(&self) -> bool {
        forall|i: int| 0 <= i < self.rows@.len() ==> (#[trigger] self.rows@[i])@.len() == self.columns@.len()
    }
}

/// An UPDATE as plain data: the table, the columns set with their values
/// (written as constants), in order, and the conditions of its WHERE clause.
#[derive(Debug)]
pub struct UpdateQuery {
    pub table: String,
    pub sets: Vec<(String, QueryValue)>,
    pub conditions: Vec<ColumnEq>,
}

/// A SELECT as plain data: the table, the columns read and the conditions of
/// its WHERE clause.
#[derive(Debug)]
pub struct SelectQuery {
    pub table: String,
    pub columns: Vec<String>,
    pub conditions: Vec<ColumnEq>,
}

/// A DELETE as plain data: the table and the conditions of its WHERE clause.
#[derive(Debug)]
pub struct DeleteQuery {
    pub table: String,
    pub conditions: Vec<ColumnEq>,
}

/// The SQL text and the bound values that sea-query renders for the insert
/// `q` in `dialect`.
pub uninterp spec fn rendered_insert(q: InsertQuery, dialect: SqlDialect) -> (Seq<char>, Seq<QueryValue>);

/// The SQL text and the bound values that sea-query renders for the update
/// `q` in `dialect`.
pub uninterp spec fn rendered_update(q: UpdateQuery, dialect: SqlDialect) -> (Seq<char>, Seq<QueryValue>);

/// The SQL text and the bound values that sea-query renders for the select
/// `q` in `dialect`.
pub uninterp spec fn rendered_select(q: SelectQuery, dialect: SqlDialect) -> (Seq<char>, Seq<QueryValue>);

/// The SQL text and the bound values that sea-query renders for the delete
/// `q` in `dialect`.
pub uninterp spec fn rendered_delete(q: DeleteQuery, dialect: SqlDialect) -> (Seq<char>, Seq<QueryValue>);

/// The sea-query `InsertStatement` that `q` describes: `into_table`,
/// `columns`, `values_panic` for each row (which panics on a row whose length
/// differs from the number of columns, left out by `requires`) and
/// `returning` when it names columns. Nothing is claimed of the result.
#[verifier::external_body]
fn sea_insert(q: &InsertQuery) -> (s: InsertStatement)
    requires
        q.rows_fit(),
{
    let mut stmt = Query::insert();
    stmt.into_table(Alias::new(q.table.as_str()));
    stmt.columns(q.columns.iter().map(|c| Alias::new(c.as_str())));
    for row in q.rows.iter() {
        stmt.values_panic(row.iter().map(|v| Expr::Constant(sea_value(v))));
    }
    if let Some(cols) = &q.returning {
        insert_returning(&mut stmt, cols);
    }
    stmt
}

/// The sea-query `UpdateStatement` that `q` describes: `table`, `values` with
/// the pairs as constants, then `and_where` with `Expr::col(..).eq(..)` for
/// each condition. Nothing is
/// claimed of the result.
#[verifier::external_body]
fn sea_update(q: &UpdateQuery) -> (s: UpdateStatement) {
    let mut stmt = Query::update();
    stmt.table(Alias::new(q.table.as_str()));
    stmt.values(q.sets.iter().map(|(c, v)| (Alias::new(c.as_str()), Expr::Constant(sea_value(v)))));
    for c in q.conditions.iter() {
        stmt.and_where(Expr::col(Alias::new(c.column.as_str())).eq(sea_value(&c.value)));
    }
    stmt
}

/// The sea-query `SelectStatement` that `q` describes: `from`, `columns`,
/// then `and_where` for each condition. Nothing is claimed of the result.
#[verifier::external_body]
fn sea_select(q: &SelectQuery) -> (s: SelectStatement) {
    let mut stmt = Query::select();
    stmt.from(Alias::new(q.table.as_str()));
    stmt.columns(q.columns.iter().map(|c| Alias::new(c.as_str())));
    for c in q.conditions.iter() {
        stmt.and_where(Expr::col(Alias::new(c.column.as_str())).eq(sea_value(&c.value)));
    }
    stmt
}

/// The sea-query `DeleteStatement` that `q` describes: `from_table`, then
/// `and_where` for each condition. Nothing is claimed of the result.
#[verifier::external_body]
fn sea_delete(q: &DeleteQuery) -> (s: DeleteStatement) {
    let mut stmt = Query::delete();
    stmt.from_table(Alias::new(q.table.as_str()));
    for c in q.conditions.iter() {
        stmt.and_where(Expr::col(Alias::new(c.column.as_str())).eq(sea_value(&c.value)));
    }
    stmt
}

/// Calls `InsertStatement::build_any` on the statement `q` describes, with the
/// query builder of `dialect`, and brings its values over as plain data.
/// Claimed: the text and values are the rendering named [`rendered_insert`].
#[verifier::external_body]
fn render_insert(q: &InsertQuery, dialect: SqlDialect) -> (r: (String, Vec<QueryValue>))
    requires
        q.rows_fit(),
    ensures
        r.0@ == rendered_insert(*q, dialect).0,
        r.1@ == rendered_insert(*q, dialect).1,
{
    let stmt = sea_insert(q);
    let (sql, values) = match dialect {
        SqlDialect::Sqlite => stmt.build_any(&SqliteQueryBuilder),
        SqlDialect::Postgres => stmt.build_any(&PostgresQueryBuilder),
    };
    (sql, plain_values(values))
}

/// Calls `UpdateStatement::build_any` on the statement `q` describes, with the
/// query builder of `dialect`, and brings its values over as plain data.
/// Claimed: the text and values are the rendering named [`rendered_update`].
#[verifier::external_body]
fn render_update(q: &UpdateQuery, dialect: SqlDialect) -> (r: (String, Vec<QueryValue>))
    ensures
        r.0@ == rendered_update(*q, dialect).0,
        r.1@ == rendered_update(*q, dialect).1,
{
    let stmt = sea_update(q);
    let (sql, values) = match dialect {
        SqlDialect::Sqlite => stmt.build_any(&SqliteQueryBuilder),
        SqlDialect::Postgres => stmt.build_any(&PostgresQueryBuilder),
    };
    (sql, plain_values(values))
}

/// Calls `SelectStatement::build_any` on the statement `q` describes, with the
/// query builder of `dialect`, and brings its values over as plain data.
/// Claimed: the text and values are the rendering named [`rendered_select`].
#[verifier::external_body]
fn render_select(q: &SelectQuery, dialect: SqlDialect) -> (r: (String, Vec<QueryValue>))
    ensures
        r.0@ == rendered_select(*q, dialect).0,
        r.1@ == rendered_select(*q, dialect).1,
{
    let stmt = sea_select(q);
    let (sql, values) = match dialect {
        SqlDialect::Sqlite => stmt.build_any(&SqliteQueryBuilder),
        SqlDialect::Postgres => stmt.build_any(&PostgresQueryBuilder),
    };
    (sql, plain_values(values))
}

/// Calls `DeleteStatement::build_any` on the statement `q` describes, with the
/// query builder of `dialect`, and brings its values over as plain data.
/// Claimed: the text and values are the rendering named [`rendered_delete`].
#[verifier::external_body]
fn render_delete(q: &DeleteQuery, dialect: SqlDialect) -> (r: (String, Vec<QueryValue>))
    ensures
        r.0@ == rendered_delete(*q, dialect).0,
        r.1@ == rendered_delete(*q, dialect).1,
{
    let stmt = sea_delete(q);
    let (sql, values) = match dialect {
        SqlDialect::Sqlite => stmt.build_any(&SqliteQueryBuilder),
        SqlDialect::Postgres => stmt.build_any(&PostgresQueryBuilder),
    };
    (sql, plain_values(values))
}
/// The prefix of the error for a value the engine does not store.
pub open spec fn unsupported_prefix() -> Seq<char> {
    "unsupported value bound into query: "@
}

/// The stored form of a bound value: integers of every width as 64-bit
/// integers (a `u64` past `i64::MAX` refused), booleans as 0 or 1, characters
/// and strings as text, bytes as a blob, a UUID as itself, an absent value of
/// any kind as NULL. Any other kind is refused with a backend error that
/// describes it (see [`unsupported_err`]).
pub open spec fn value_to_db_spec(v: QueryValue) -> Result<DbValue, DbError> {
    match v {
        QueryValue::Bool(Some(b)) => Ok(DbValue::Integer(if b { 1 } else { 0 })),
        QueryValue::TinyInt(Some(i)) => Ok(DbValue::Integer(i as i64)),
        QueryValue::SmallInt(Some(i)) => Ok(DbValue::Integer(i as i64)),
        QueryValue::Int(Some(i)) => Ok(DbValue::Integer(i as i64)),
        QueryValue::BigInt(Some(i)) => Ok(DbValue::Integer(i)),
        QueryValue::TinyUnsigned(Some(u)) => Ok(DbValue::Integer(u as i64)),
        QueryValue::SmallUnsigned(Some(u)) => Ok(DbValue::Integer(u as i64)),
        QueryValue::Unsigned(Some(u)) => Ok(DbValue::Integer(u as i64)),
        QueryValue::BigUnsigned(Some(u)) => if u <= i64::MAX {
            Ok(DbValue::Integer(u as i64))
        } else {
            Err(DbError::IntegerOutOfRange(u as i128))
        },
        QueryValue::Char(Some(c)) => Ok(DbValue::Text(c)),
        QueryValue::String(Some(s)) => Ok(DbValue::Text(s)),
        QueryValue::Bytes(Some(b)) => Ok(DbValue::Blob(b)),
        QueryValue::Uuid(Some(u)) => Ok(DbValue::Uuid(u)),
        QueryValue::Other(d) => Err(DbError::Sql(d)),
        _ => Ok(DbValue::Null),
    }
}


/// Whether the error is the one for an unsupported value described by `d`.
pub open spec fn unsupported_err(e: DbError, d: Seq<char>) -> bool {
    e matches DbError::Sql(m) && m@ == unsupported_prefix() + d
}

/// Brings one bound value into the engine's values.
pub fn value_to_db(value: QueryValue) -> (r: Result<DbValue, DbError>)
    ensures
        value matches QueryValue::Other(d) ==> (r matches Err(e) && unsupported_err(e, d@)),
        !(value is Other) ==> r == value_to_db_spec(value),
{
    match value {
        QueryValue::Bool(Some(b)) => Ok(DbValue::Integer(if b { 1 } else { 0 })),
        QueryValue::TinyInt(Some(i)) => Ok(DbValue::Integer(i as i64)),
        QueryValue::SmallInt(Some(i)) => Ok(DbValue::Integer(i as i64)),
        QueryValue::Int(Some(i)) => Ok(DbValue::Integer(i as i64)),
        QueryValue::BigInt(Some(i)) => Ok(DbValue::Integer(i)),
        QueryValue::TinyUnsigned(Some(u)) => Ok(DbValue::Integer(u as i64)),
        QueryValue::SmallUnsigned(Some(u)) => Ok(DbValue::Integer(u as i64)),
        QueryValue::Unsigned(Some(u)) => Ok(DbValue::Integer(u as i64)),
        QueryValue::BigUnsigned(Some(u)) => DbValue::from_u64(u),
        QueryValue::Char(Some(c)) => Ok(DbValue::Text(c)),
        QueryValue::String(Some(s)) => Ok(DbValue::Text(s)),
        QueryValue::Bytes(Some(b)) => Ok(DbValue::Blob(b)),
        QueryValue::Uuid(Some(u)) => Ok(DbValue::Uuid(u)),
        QueryValue::Other(d) => {
            let mut m = String::from_str("unsupported value bound into query: ");
            m.append(d.as_str());
            Err(DbError::Sql(m))
        },
        _ => Ok(DbValue::Null),
    }
}

/// Whether the engine stores the value.
pub open spec fn supported(v: QueryValue) -> bool {
    !(v is Other) && !(v matches QueryValue::BigUnsigned(Some(u)) && u > i64::MAX)
}

/// Whether every value is one the engine stores.
pub open spec fn all_supported(vs: Seq<QueryValue>) -> bool {
    forall|i: int| 0 <= i < vs.len() ==> supported(#[trigger] vs[i])
}

/// Brings the bound values into the engine's values, in order; the first value
/// that cannot be stored gives the error.
pub fn values_to_db(values: Vec<QueryValue>) -> (r: Result<Vec<DbValue>, DbError>)
    ensures
        r is Ok <==> all_supported(values@),
        r matches Ok(v) ==> stored_values(values@, v@),
        r matches Err(e) ==> first_refusal(values@, e),
{
    let ghost orig = values@;
    let mut rest = values;
    let mut out: Vec<DbValue> = Vec::new();
    let n = rest.len();
    while rest.len() > 0
        invariant
            n == orig.len(),
            orig == values@,
            rest@.len() + out@.len() == n,
            rest@ == orig.subrange(out@.len() as int, n as int),
            all_supported(orig.take(out@.len() as int)),
            forall|k: int| 0 <= k < out@.len() ==> value_to_db_spec(orig[k]) == Ok::<
                DbValue,
                DbError,
            >(#[trigger] out@[k]),
        decreases rest@.len(),
    {
        let ghost j = out@.len() as int;
        let v = rest.remove(0);
        proof {
            assert(v == orig[j]);
            assert(rest@ =~= orig.subrange(j + 1, n as int));
        }
        match value_to_db(v) {
            Ok(d) => {
                out.push(d);
                proof {
                    assert forall|k: int| 0 <= k < j + 1 implies supported(
                        #[trigger] orig.take(j + 1)[k],
                    ) by {
                        if k < j {
                            assert(orig.take(j + 1)[k] == orig.take(j)[k]);
                        }
                    }
                }
            },
            Err(e) => {
                proof {
                    assert(!supported(orig[j]));
                    assert(!all_supported(orig));
                    assert(refusal(orig[j], e));
                }
                return Err(e);
            },
        }
    }
    proof {
        assert(orig.take(n as int) =~= orig);
    }
    Ok(out)
}

/// The stored form of each value when all are stored: `out` holds them in
/// order.
pub open spec fn stored_values(vs: Seq<QueryValue>, out: Seq<DbValue>) -> bool {
    &&& out.len() == vs.len()
    &&& forall|i: int| 0 <= i < out.len() ==> value_to_db_spec(vs[i]) == Ok::<DbValue, DbError>(
        #[trigger] out[i],
    )
}

/// The contents of the stored form of a value (NULL for one that is refused).
pub open spec fn stored_view(v: QueryValue) -> DbValueView {
    match value_to_db_spec(v) {
        Ok(d) => d@,
        Err(_) => DbValueView::Null,
    }
}

/// The contents of the stored forms of the values, in order.
pub open spec fn stored_views(vs: Seq<QueryValue>) -> Seq<DbValueView> {
    vs.map_values(|v: QueryValue| stored_view(v))
}

/// Whether `e` is the error with which a value `v` is refused.
pub open spec fn refusal(v: QueryValue, e: DbError) -> bool {
    match v {
        QueryValue::Other(d) => unsupported_err(e, d@),
        _ => value_to_db_spec(v) == Err::<DbValue, DbError>(e),
    }
}

/// Whether `e` is the error for the first value of `vs` that is not stored.
pub open spec fn first_refusal(vs: Seq<QueryValue>, e: DbError) -> bool {
    exists|k: int|
        0 <= k < vs.len() && all_supported(vs.take(k)) && !supported(#[trigger] vs[k]) && refusal(
            vs[k],
            e,
        )
}

/// What building a statement that renders to `rendered` (text and bound
/// values) returns: the text with the stored values when every bound value is
/// stored, else the error for the first that is not.
pub open spec fn built(rendered: (Seq<char>, Seq<QueryValue>), r: Result<(String, Vec<DbValue>), DbError>) -> bool {
    &&& (r is Ok <==> all_supported(rendered.1))
    &&& r matches Ok((sql, v)) ==> sql@ == rendered.0 && stored_values(rendered.1, v@)
    &&& r matches Err(e) ==> first_refusal(rendered.1, e)
}

/// The stored values of a rendering have the contents its stored views name.
pub proof fn lemma_stored_views(vs: Seq<QueryValue>, out: Seq<DbValue>)
    requires
        stored_values(vs, out),
    ensures
        value_views(out) == stored_views(vs),
{
    assert forall|i: int| 0 <= i < out.len() implies #[trigger] value_views(out)[i] == stored_views(vs)[i] by {
        assert(value_to_db_spec(vs[i]) == Ok::<DbValue, DbError>(out[i]));
    }
    assert(value_views(out) =~= stored_views(vs));
}

/// Brings the text and bound values of a rendering into the engine's values.
fn finish_build(rendered: (String, Vec<QueryValue>)) -> (r: Result<(String, Vec<DbValue>), DbError>)
    ensures
        built((rendered.0@, rendered.1@), r),
{
    let (sql, values) = rendered;
    match values_to_db(values) {
        Ok(values) => Ok((sql, values)),
        Err(e) => Err(e),
    }
}

/// Renders an insert in `dialect` and brings its bound values in.
pub fn build_insert(q: &InsertQuery, dialect: SqlDialect) -> (r: Result<(String, Vec<DbValue>), DbError>)
    requires
        q.rows_fit(),
    ensures
        built(rendered_insert(*q, dialect), r),
{
    finish_build(render_insert(q, dialect))
}

/// Renders an update in `dialect` and brings its bound values in.
pub fn build_update(q: &UpdateQuery, dialect: SqlDialect) -> (r: Result<(String, Vec<DbValue>), DbError>)
    ensures
        built(rendered_update(*q, dialect), r),
{
    finish_build(render_update(q, dialect))
}

/// Renders a select in `dialect` and brings its bound values in.
pub fn build_select(q: &SelectQuery, dialect: SqlDialect) -> (r: Result<(String, Vec<DbValue>), DbError>)
    ensures
        built(rendered_select(*q, dialect), r),
{
    finish_build(render_select(q, dialect))
}

/// Renders a delete in `dialect` and brings its bound values in.
pub fn build_delete(q: &DeleteQuery, dialect: SqlDialect) -> (r: Result<(String, Vec<DbValue>), DbError>)
    ensures
        built(rendered_delete(*q, dialect), r),
{
    finish_build(render_delete(q, dialect))
}

/// Whether the bound value `q` stands for the engine value `d`: NULL as
/// absent bytes, an integer as a 64-bit integer, text as a string, a blob or
/// a UUID as bytes.
pub open spec fn stands_for(d: DbValue, q: QueryValue) -> bool {
    match d {
        DbValue::Null => q == QueryValue::Bytes(None),
        DbValue::Integer(i) => q == QueryValue::BigInt(Some(i)),
        DbValue::Text(s) => q == QueryValue::String(Some(s)),
        DbValue::Blob(b) => q == QueryValue::Bytes(Some(b)),
        DbValue::Uuid(u) => q matches QueryValue::Bytes(Some(b)) && b@ == u@,
    }
}

/// The bound value that stands for an engine value.
pub fn db_to_value(value: DbValue) -> (r: QueryValue)
    ensures
        stands_for(value, r),
{
    match value {
        DbValue::Null => QueryValue::Bytes(None),
        DbValue::Integer(i) => QueryValue::BigInt(Some(i)),
        DbValue::Text(s) => QueryValue::String(Some(s)),
        DbValue::Blob(b) => QueryValue::Bytes(Some(b)),
        DbValue::Uuid(u) => {
            let mut b: Vec<u8> = Vec::new();
            let mut i: usize = 0;
            while i < 16
                invariant
                    i <= 16,
                    b@ == u@.take(i as int),
                decreases 16 - i,
            {
                b.push(u[i]);
                proof {
                    assert(u@.take(i as int + 1) =~= u@.take(i as int).push(u@[i as int]));
                }
                i += 1;
            }
            proof {
                assert(u@.take(16) =~= u@);
            }
            QueryValue::Bytes(Some(b))
        },
    }
}

/// An engine value bound into a statement comes back as itself when the
/// statement's values are brought in, but a UUID, which is bound as its 16
/// bytes and so comes back as a blob of them.
pub proof fn law_bound_value_round_trip(d: DbValue, q: QueryValue)
    requires
        stands_for(d, q),
    ensures
        supported(q),
        stored_view(q) == match d {
            DbValue::Uuid(u) => DbValueView::Blob(u@),
            _ => d@,
        },
{
}

} // verus!

verus! {

/// Converts an integer or boolean plain value to a `sea_query::Value`, one for
/// one; other kinds go on. Nothing is claimed of the result.
#[verifier::external_body]
fn sea_value(v: &QueryValue) -> (r: Value) {
    match v {
        QueryValue::Bool(b) => Value::Bool(*b),
        QueryValue::TinyInt(i) => Value::TinyInt(*i),
        QueryValue::SmallInt(i) => Value::SmallInt(*i),
        QueryValue::Int(i) => Value::Int(*i),
        QueryValue::BigInt(i) => Value::BigInt(*i),
        QueryValue::TinyUnsigned(u) => Value::TinyUnsigned(*u),
        QueryValue::SmallUnsigned(u) => Value::SmallUnsigned(*u),
        QueryValue::Unsigned(u) => Value::Unsigned(*u),
        QueryValue::BigUnsigned(u) => Value::BigUnsigned(*u),
        other => sea_other_value(other),
    }
}

/// Converts a text, byte or UUID plain value to a `sea_query::Value`; a
/// description becomes text. Nothing is claimed of the result.
#[verifier::external_body]
fn sea_other_value(v: &QueryValue) -> (r: Value) {
    match v {
        QueryValue::Char(c) => Value::String(c.clone()),
        QueryValue::String(s) => Value::String(s.clone()),
        QueryValue::Bytes(b) => Value::Bytes(b.clone()),
        QueryValue::Uuid(u) => Value::Uuid(u.map(sea_query::value::prelude::Uuid::from_bytes)),
        QueryValue::Other(d) => Value::String(Some(d.clone())),
        _ => Value::String(None),
    }
}

/// Calls `InsertStatement::returning` with the columns `cols`. Nothing is
/// claimed of the statement afterwards.
#[verifier::external_body]
fn insert_returning(stmt: &mut InsertStatement, cols: &Vec<String>) {
    stmt.returning(ReturningClause::Columns(
        cols.iter().map(|c| ColumnRef::Column(ColumnName(None, Alias::new(c.as_str()).into_iden()))).collect(),
    ));
}

/// The bound values that stand for the engine values, in order.
fn db_to_values(values: Vec<DbValue>) -> (r: Vec<QueryValue>)
    ensures
        r@.len() == values@.len(),
        forall|i: int| 0 <= i < r@.len() ==> stands_for(values@[i], #[trigger] r@[i]),
{
    let ghost orig = values@;
    let mut out: Vec<QueryValue> = Vec::new();
    let mut rest = values;
    let ghost n = rest@.len();
    while rest.len() > 0
        invariant
            out@.len() + rest@.len() == n,
            n == orig.len(),
            rest@ == orig.subrange(out@.len() as int, n as int),
            forall|i: int| 0 <= i < out@.len() ==> stands_for(orig[i], #[trigger] out@[i]),
        decreases rest@.len(),
    {
        let ghost j = out@.len() as int;
        let v = rest.remove(0);
        proof {
            assert(v == orig[j]);
            assert(rest@ =~= orig.subrange(j + 1, n as int));
        }
        out.push(db_to_value(v));
    }
    out
}

/// Whether the row `row` stands for the engine values `params`, one for one.
pub open spec fn row_for(params: Seq<DbValue>, row: Seq<QueryValue>) -> bool {
    &&& row.len() == params.len()
    &&& forall|i: int| 0 <= i < row.len() ==> stands_for(params[i], #[trigger] row[i])
}

/// Whether the insert `q1` is `q0` given the columns `cols`, with the row
/// `params` added when it has one value per column, and the returned columns
/// `returning` when there are any (else those of `q0`).
pub open spec fn insert_prepared(
    q0: InsertQuery,
    q1: InsertQuery,
    params: Seq<DbValue>,
    cols: Seq<String>,
    returning: Seq<String>,
) -> bool {
    &&& q1.table == q0.table
    &&& q1.columns@ == cols
    &&& if cols.len() == params.len() {
        &&& q1.rows@.len() == q0.rows@.len() + 1
        &&& q1.rows@.drop_last() == q0.rows@
        &&& row_for(params, q1.rows@.last()@)
        &&& if returning.len() > 0 {
            q1.returning matches Some(rc) && rc@ == returning
        } else {
            q1.returning == q0.returning
        }
    } else {
        q1.rows == q0.rows && q1.returning == q0.returning
    }
}

/// Sets the columns of the insert `stmt` to `cols`, adds the row `params`,
/// and names the returned columns when `returning` has any, then renders it
/// in `dialect`. A number of values other than that of columns is refused.
pub fn prep_insert_cols(
    params: Vec<DbValue>,
    cols: Vec<String>,
    returning: Vec<String>,
    stmt: &mut InsertQuery,
    dialect: SqlDialect,
) -> (r: Result<(String, Vec<DbValue>), DbError>)
    requires
        old(stmt).rows_fit(),
        old(stmt).rows@.len() > 0 ==> cols@.len() == old(stmt).columns@.len(),
    ensures
        insert_prepared(*old(stmt), *final(stmt), params@, cols@, returning@),
        cols@.len() != params@.len() ==> (r matches Err(DbError::ColumnValueCountMismatch { cols: c, vals: v })
            && c == cols@.len() && v == params@.len()),
        cols@.len() == params@.len() ==> final(stmt).rows_fit() && built(
            rendered_insert(*final(stmt), dialect),
            r,
        ),
{
    let ghost p = params@;
    let ghost c = cols@;
    let ghost rt = returning@;
    let vals = db_to_values(params);
    let ncols = cols.len();
    let nvals = vals.len();
    stmt.columns = cols;
    if ncols != nvals {
        return Err(DbError::ColumnValueCountMismatch { cols: ncols, vals: nvals });
    }
    let ghost before = stmt.rows@;
    stmt.rows.push(vals);
    if returning.len() > 0 {
        stmt.returning = Some(returning);
    }
    proof {
        assert(stmt.rows@.drop_last() =~= before);
        assert forall|i: int| 0 <= i < stmt.rows@.len() implies (#[trigger] stmt.rows@[i])@.len()
            == stmt.columns@.len() by {
            if i < before.len() {
                assert(stmt.rows@[i] == before[i]);
            }
        }
    }
    build_insert(stmt, dialect)
}

/// Whether the batch statements `s1` are `s0` with the rendering `rendered`
/// added when the result `r` is `Ok`, and unchanged otherwise.
pub open spec fn queued(
    s0: Seq<(Seq<char>, Seq<DbValueView>)>,
    s1: Seq<(Seq<char>, Seq<DbValueView>)>,
    rendered: (Seq<char>, Seq<QueryValue>),
    r: Result<(), DbError>,
) -> bool {
    &&& (r is Ok <==> all_supported(rendered.1))
    &&& r is Ok ==> s1 == s0.push((rendered.0, stored_views(rendered.1)))
    &&& r matches Err(e) ==> s1 == s0 && first_refusal(rendered.1, e)
}

/// Queues into `batch` the insert `stmt` with the columns `cols` and the row
/// `params`, rendered in the batch's dialect.
pub fn insert_cols_batch(
    batch: &mut StatementBatch,
    params: Vec<DbValue>,
    cols: Vec<String>,
    stmt: &mut InsertQuery,
) -> (r: Result<(), DbError>)
    requires
        old(stmt).rows_fit(),
        old(stmt).rows@.len() > 0 ==> cols@.len() == old(stmt).columns@.len(),
    ensures
        final(batch).dialect_spec() == old(batch).dialect_spec(),
        insert_prepared(*old(stmt), *final(stmt), params@, cols@, Seq::empty()),
        cols@.len() != params@.len() ==> (r matches Err(DbError::ColumnValueCountMismatch { cols: c, vals: v })
            && c == cols@.len() && v == params@.len() && final(batch).statements() == old(batch).statements()),
        cols@.len() == params@.len() ==> queued(
            old(batch).statements(),
            final(batch).statements(),
            rendered_insert(*final(stmt), old(batch).dialect_spec()),
            r,
        ),
{
    let returning: Vec<String> = Vec::new();
    let dialect = batch.dialect();
    let ghost n = params@.len();
    let ghost c = cols@.len();
    match prep_insert_cols(params, cols, returning, stmt, dialect) {
        Ok((sql, values)) => {
            proof {
                lemma_stored_views(rendered_insert(*stmt, dialect).1, values@);
            }
            batch.add_statement(sql.as_str(), values.as_slice());
            Ok(())
        },
        Err(e) => Err(e),
    }
}

/// Whether the update `q1` is `q0` with the columns `cols` set to `params`,
/// one for one and in order, after the columns it already set.
pub open spec fn update_prepared(q0: UpdateQuery, q1: UpdateQuery, params: Seq<DbValue>, cols: Seq<String>) -> bool {
    &&& q1.table == q0.table
    &&& q1.conditions == q0.conditions
    &&& q1.sets@.len() == q0.sets@.len() + params.len()
    &&& q1.sets@.take(q0.sets@.len() as int) == q0.sets@
    &&& forall|i: int| 0 <= i < params.len() ==> (#[trigger] q1.sets@[q0.sets@.len() + i]).0 == cols[i]
        && stands_for(params[i], q1.sets@[q0.sets@.len() + i].1)
}

/// Queues into `batch` the update `stmt` setting the columns `cols` to
/// `params`, one for one, rendered in the batch's dialect.
pub fn update_cols_batch(
    batch: &mut StatementBatch,
    params: Vec<DbValue>,
    cols: &Vec<String>,
    stmt: &mut UpdateQuery,
) -> (r: Result<(), DbError>)
    requires
        params@.len() <= cols@.len(),
    ensures
        final(batch).dialect_spec() == old(batch).dialect_spec(),
        update_prepared(*old(stmt), *final(stmt), params@, cols@),
        queued(
            old(batch).statements(),
            final(batch).statements(),
            rendered_update(*final(stmt), old(batch).dialect_spec()),
            r,
        ),
{
    let vals = db_to_values(params);
    let ghost p = params@;
    let ghost vs = vals@;
    let ghost s0 = stmt.sets@;
    let mut rest = vals;
    let ghost n = rest@.len();
    let mut i: usize = 0;
    proof {
        assert(cols@.len() == cols.len());
    }
    while rest.len() > 0
        invariant
            i + rest@.len() == n,
            cols@.len() <= usize::MAX,
            n == p.len(),
            n <= cols@.len(),
            vs.len() == n,
            rest@ == vs.subrange(i as int, n as int),
            forall|k: int| 0 <= k < n ==> stands_for(p[k], #[trigger] vs[k]),
            stmt.table == old(stmt).table,
            stmt.conditions == old(stmt).conditions,
            stmt.sets@.len() == s0.len() + i,
            stmt.sets@.take(s0.len() as int) == s0,
            s0 == old(stmt).sets@,
            forall|k: int| 0 <= k < i ==> (#[trigger] stmt.sets@[s0.len() + k]).0 == cols@[k]
                && stands_for(p[k], stmt.sets@[s0.len() + k].1),
        decreases rest@.len(),
    {
        let ghost before = stmt.sets@;
        let v = rest.remove(0);
        proof {
            assert(v == vs[i as int]);
            assert(rest@ =~= vs.subrange(i as int + 1, n as int));
        }
        let col = cols[i].clone();
        stmt.sets.push((col, v));
        proof {
            assert(stmt.sets@.take(s0.len() as int) =~= before.take(s0.len() as int));
            assert forall|k: int| 0 <= k < i + 1 implies (#[trigger] stmt.sets@[s0.len() + k]).0
                == cols@[k] && stands_for(p[k], stmt.sets@[s0.len() + k].1) by {
                if k < i {
                    assert(stmt.sets@[s0.len() + k] == before[s0.len() + k]);
                }
            }
        }
        i += 1;
    }
    let dialect = batch.dialect();
    match build_update(stmt, dialect) {
        Ok((sql, values)) => {
            proof {
                lemma_stored_views(rendered_update(*stmt, dialect).1, values@);
            }
            batch.add_statement(sql.as_str(), values.as_slice());
            Ok(())
        },
        Err(e) => Err(e),
    }
}

} // verus!
