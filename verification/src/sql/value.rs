//! Values bound into and read out of SQL statements, and the backend error.

use vstd::prelude::*;
use crate::sql::dialect::{PlaceholderGen, SqlDialect, placeholder_spec};
use crate::sql::schema::DbType;

verus! {

/// A value of the database: a bind parameter or a cell of a result row.
#[derive(Debug)]
pub enum DbValue {
    /// SQL NULL.
    Null,
    /// Signed 64-bit integer.
    Integer(i64),
    /// UTF-8 text.
    Text(String),
    /// Raw byte string.
    Blob(Vec<u8>),
    /// 16-byte UUID.
    Uuid([u8; 16]),
}

/// The contents of a value: text and bytes by their characters and bytes.
pub enum DbValueView {
    Null,
    Integer(i64),
    Text(Seq<char>),
    Blob(Seq<u8>),
    Uuid(Seq<u8>),
}

impl View for DbValue {
    type V = DbValueView;

    open spec fn view(&self) -> DbValueView {
        match self {
            DbValue::Null => DbValueView::Null,
            DbValue::Integer(i) => DbValueView::Integer(*i),
            DbValue::Text(s) => DbValueView::Text(s@),
            DbValue::Blob(b) => DbValueView::Blob(b@),
            DbValue::Uuid(a) => DbValueView::Uuid(a@),
        }
    }
}

/// The contents of each value.
pub open spec fn value_views(vs: Seq<DbValue>) -> Seq<DbValueView> {
    vs.map_values(|v: DbValue| v@)
}

/// An error from a SQL backend operation.
#[derive(Debug)]
pub enum DbError {
    /// A backend error with no more specific variant; carries the backend's
    /// own message.
    Sql(String),
    /// A UNIQUE / PRIMARY KEY conflict.
    UniqueViolation,
    /// A column held a value of a different type than the caller requested.
    TypeMismatch {
        /// Column index that was read.
        col: usize,
        /// The type the caller asked for.
        expected: &'static str,
    },
    /// A `u64` that does not fit the signed 64-bit integer a backend stores: on
    /// a write it exceeded `i64::MAX`, on a read the stored value was negative.
    IntegerOutOfRange(i128),
    /// A column index past the end of the row was requested.
    ColumnOutOfBounds(usize),
    /// A column was SQL NULL where the caller required a non-null value.
    UnexpectedNull(usize),
    /// An insert was given a different number of values than of columns.
    ColumnValueCountMismatch {
        cols: usize,
        vals: usize,
    },
    /// A query returned a different number of rows than the caller required.
    UnexpectedRowCount {
        /// The number of rows the query returned.
        got: usize,
    },
}

/// The storage class of a non-null value; `None` for NULL.
pub open spec fn db_type_spec(v: DbValue) -> Option<DbType> {
    match v {
        DbValue::Null => None,
        DbValue::Integer(_) => Some(DbType::Integer),
        DbValue::Text(_) => Some(DbType::Text),
        DbValue::Blob(_) => Some(DbType::Blob),
        DbValue::Uuid(_) => Some(DbType::Uuid),
    }
}

impl DbValue {
    /// An integer from a `u64`, refused past `i64::MAX`: backends store signed
    /// 64-bit integers, and a wrapped value would neither round-trip nor order
    /// correctly under the signed max guard.
    pub fn from_u64(value: u64) -> (r: Result<DbValue, DbError>)
        ensures
            value <= i64::MAX ==> r == Ok::<DbValue, DbError>(DbValue::Integer(value as i64)),
            value > i64::MAX ==> r == Err::<DbValue, DbError>(DbError::IntegerOutOfRange(value as i128)),
    {
        if value <= 0x7fff_ffff_ffff_ffffu64 {
            Ok(DbValue::Integer(value as i64))
        } else {
            Err(DbError::IntegerOutOfRange(value as i128))
        }
    }

    /// The storage class of the value, or `None` for NULL.
    pub fn db_type(&self) -> (r: Option<DbType>)
        ensures
            r == db_type_spec(*self),
    {
        match self {
            DbValue::Null => None,
            DbValue::Integer(_) => Some(DbType::Integer),
            DbValue::Text(_) => Some(DbType::Text),
            DbValue::Blob(_) => Some(DbType::Blob),
            DbValue::Uuid(_) => Some(DbType::Uuid),
        }
    }
}

/// Builds a parameterized statement: each bound value gets the next
/// placeholder, and the values come back in bind order.
pub struct ValueBinder {
    placeholder_gen: PlaceholderGen,
    values: Vec<DbValue>,
}

impl ValueBinder {
    /// The dialect placeholders are rendered in.
    pub closed spec fn dialect_spec(&self) -> SqlDialect {
        self.placeholder_gen.dialect_spec()
    }

    /// The values bound so far, in bind order.
    pub closed spec fn bound(&self) -> Seq<DbValue> {
        self.values@
    }

    /// The generator's next parameter always follows the values bound so far.
    pub closed spec fn wf(&self) -> bool {
        self.placeholder_gen.upcoming() == self.values.len() + 1
    }

    /// An empty binder for `dialect`.
    pub fn new(dialect: SqlDialect) -> (b: Self)
        ensures
            b.wf(),
            b.dialect_spec() == dialect,
            b.bound() == Seq::<DbValue>::empty(),
    {
        ValueBinder { placeholder_gen: PlaceholderGen::new(dialect), values: Vec::new() }
    }

    /// Records `value` and returns its placeholder (`?n` / `$n`), `n` being
    /// its 1-based position.
    pub fn bind_next(&mut self, value: DbValue) -> (p: String)
        requires
            old(self).wf(),
            old(self).bound().len() + 2 < usize::MAX,
        ensures
            final(self).wf(),
            final(self).dialect_spec() == old(self).dialect_spec(),
            final(self).bound() == old(self).bound().push(value),
            p@ == placeholder_spec(old(self).dialect_spec(), old(self).bound().len() + 1),
    {
        self.values.push(value);
        self.placeholder_gen.next()
    }

    /// The bound values, in bind order.
    pub fn values(self) -> (v: Vec<DbValue>)
        ensures
            v@ == self.bound(),
    {
        self.values
    }
}

} // verus!
