//! Result rows and typed reads of their cells.

use vstd::prelude::*;
use crate::sql::value::{DbError, DbValue, db_type_spec};
use crate::sql::schema::DbType;

verus! {

/// One result row: a positional list of column values.
#[derive(Debug)]
pub struct DbRow {
    /// The row's column values, in `SELECT`/column order.
    pub values: Vec<DbValue>,
}

/// The cell `idx` of a row, or the out-of-bounds error.
pub open spec fn cell(vals: Seq<DbValue>, idx: usize) -> Result<DbValue, DbError> {
    if idx < vals.len() {
        Ok(vals[idx as int])
    } else {
        Err(DbError::ColumnOutOfBounds(idx))
    }
}

/// Reading cell `idx` as an `i64`.
pub open spec fn read_i64(vals: Seq<DbValue>, idx: usize) -> Result<i64, DbError> {
    match cell(vals, idx) {
        Err(e) => Err(e),
        Ok(DbValue::Integer(v)) => Ok(v),
        Ok(DbValue::Null) => Err(DbError::UnexpectedNull(idx)),
        Ok(_) => Err(DbError::TypeMismatch { col: idx, expected: "i64" }),
    }
}

/// Reading cell `idx` as a `u64` written from one: a negative integer is out of range.
pub open spec fn read_u64(vals: Seq<DbValue>, idx: usize) -> Result<u64, DbError> {
    match cell(vals, idx) {
        Err(e) => Err(e),
        Ok(DbValue::Integer(v)) => if v >= 0 {
            Ok(v as u64)
        } else {
            Err(DbError::IntegerOutOfRange(v as i128))
        },
        Ok(DbValue::Null) => Err(DbError::UnexpectedNull(idx)),
        Ok(_) => Err(DbError::TypeMismatch { col: idx, expected: "u64" }),
    }
}

/// Reading cell `idx` as a boolean: any non-zero integer is true.
pub open spec fn read_bool(vals: Seq<DbValue>, idx: usize) -> Result<bool, DbError> {
    match cell(vals, idx) {
        Err(e) => Err(e),
        Ok(DbValue::Integer(v)) => Ok(v != 0),
        Ok(DbValue::Null) => Err(DbError::UnexpectedNull(idx)),
        Ok(_) => Err(DbError::TypeMismatch { col: idx, expected: "bool/integer" }),
    }
}

/// Reading cell `idx` as text.
pub open spec fn read_text(vals: Seq<DbValue>, idx: usize) -> Result<Seq<char>, DbError> {
    match cell(vals, idx) {
        Err(e) => Err(e),
        Ok(DbValue::Text(v)) => Ok(v@),
        Ok(DbValue::Null) => Err(DbError::UnexpectedNull(idx)),
        Ok(_) => Err(DbError::TypeMismatch { col: idx, expected: "String" }),
    }
}

/// Reading cell `idx` as a byte blob.
pub open spec fn read_blob(vals: Seq<DbValue>, idx: usize) -> Result<Seq<u8>, DbError> {
    match cell(vals, idx) {
        Err(e) => Err(e),
        Ok(DbValue::Blob(v)) => Ok(v@),
        Ok(DbValue::Null) => Err(DbError::UnexpectedNull(idx)),
        Ok(_) => Err(DbError::TypeMismatch { col: idx, expected: "Vec<u8>" }),
    }
}

/// Reading cell `idx` as a UUID: a native UUID or a blob of exactly 16 bytes.
pub open spec fn read_uuid(vals: Seq<DbValue>, idx: usize) -> Result<Seq<u8>, DbError> {
    match cell(vals, idx) {
        Err(e) => Err(e),
        Ok(DbValue::Uuid(a)) => Ok(a@),
        Ok(DbValue::Blob(v)) => if v.len() == 16 {
            Ok(v@)
        } else {
            Err(DbError::TypeMismatch { col: idx, expected: "16-byte UUID blob" })
        },
        Ok(DbValue::Null) => Err(DbError::UnexpectedNull(idx)),
        Ok(_) => Err(DbError::TypeMismatch { col: idx, expected: "Uuid" }),
    }
}

/// A read that admits NULL: NULL gives `None`, anything else the plain read.
pub open spec fn optional<T>(vals: Seq<DbValue>, idx: usize, plain: Result<T, DbError>) -> Result<
    Option<T>,
    DbError,
> {
    match cell(vals, idx) {
        Ok(DbValue::Null) => Ok(None),
        _ => match plain {
            Ok(v) => Ok(Some(v)),
            Err(e) => Err(e),
        },
    }
}

impl DbRow {
    fn cell_at(&self, idx: usize) -> (r: Result<&DbValue, DbError>)
        ensures
            match r {
                Ok(v) => cell(self.values@, idx) == Ok::<DbValue, DbError>(*v),
                Err(e) => cell(self.values@, idx) == Err::<DbValue, DbError>(e),
            },
    {
        if idx < self.values.len() {
            Ok(&self.values[idx])
        } else {
            Err(DbError::ColumnOutOfBounds(idx))
        }
    }

    /// Reads column `idx` as an `i64`. Errors if it is NULL, not an integer, or
    /// out of bounds.
    pub fn get_i64(&self, idx: usize) -> (r: Result<i64, DbError>)
        ensures
            r == read_i64(self.values@, idx),
    {
        match self.cell_at(idx)? {
            DbValue::Integer(v) => Ok(*v),
            DbValue::Null => Err(DbError::UnexpectedNull(idx)),
            _ => Err(DbError::TypeMismatch { col: idx, expected: "i64" }),
        }
    }

    /// Reads a column written from a `u64`: a stored integer that must be
    /// non-negative; a negative one is refused rather than wrapped.
    pub fn get_u64(&self, idx: usize) -> (r: Result<u64, DbError>)
        ensures
            r == read_u64(self.values@, idx),
    {
        match self.cell_at(idx)? {
            DbValue::Integer(v) => {
                if *v >= 0 {
                    Ok(*v as u64)
                } else {
                    Err(DbError::IntegerOutOfRange(*v as i128))
                }
            },
            DbValue::Null => Err(DbError::UnexpectedNull(idx)),
            _ => Err(DbError::TypeMismatch { col: idx, expected: "u64" }),
        }
    }

    /// Reads column `idx` as a boolean (a non-zero integer is true).
    pub fn get_bool(&self, idx: usize) -> (r: Result<bool, DbError>)
        ensures
            r == read_bool(self.values@, idx),
    {
        match self.cell_at(idx)? {
            DbValue::Integer(v) => Ok(*v != 0),
            DbValue::Null => Err(DbError::UnexpectedNull(idx)),
            _ => Err(DbError::TypeMismatch { col: idx, expected: "bool/integer" }),
        }
    }

    /// Reads column `idx` as text. Errors if it is NULL, not text, or out of bounds.
    pub fn get_text(&self, idx: usize) -> (r: Result<&str, DbError>)
        ensures
            match r {
                Ok(s) => read_text(self.values@, idx) == Ok::<Seq<char>, DbError>(s@),
                Err(e) => read_text(self.values@, idx) == Err::<Seq<char>, DbError>(e),
            },
    {
        match self.cell_at(idx)? {
            DbValue::Text(v) => Ok(v.as_str()),
            DbValue::Null => Err(DbError::UnexpectedNull(idx)),
            _ => Err(DbError::TypeMismatch { col: idx, expected: "String" }),
        }
    }

    /// Reads column `idx` as a byte blob. Errors if it is NULL, not a blob, or
    /// out of bounds.
    pub fn get_blob(&self, idx: usize) -> (r: Result<&[u8], DbError>)
        ensures
            match r {
                Ok(b) => read_blob(self.values@, idx) == Ok::<Seq<u8>, DbError>(b@),
                Err(e) => read_blob(self.values@, idx) == Err::<Seq<u8>, DbError>(e),
            },
    {
        match self.cell_at(idx)? {
            DbValue::Blob(v) => Ok(v.as_slice()),
            DbValue::Null => Err(DbError::UnexpectedNull(idx)),
            _ => Err(DbError::TypeMismatch { col: idx, expected: "Vec<u8>" }),
        }
    }

    /// Reads column `idx` as a 16-byte UUID, accepting a native UUID value or a
    /// 16-byte blob.
    pub fn get_uuid(&self, idx: usize) -> (r: Result<[u8; 16], DbError>)
        ensures
            match r {
                Ok(a) => read_uuid(self.values@, idx) == Ok::<Seq<u8>, DbError>(a@),
                Err(e) => read_uuid(self.values@, idx) == Err::<Seq<u8>, DbError>(e),
            },
    {
        match self.cell_at(idx)? {
            DbValue::Uuid(a) => Ok(*a),
            DbValue::Blob(v) => {
                if v.len() == 16 {
                    let a: [u8; 16] = [
                        v[0],
                        v[1],
                        v[2],
                        v[3],
                        v[4],
                        v[5],
                        v[6],
                        v[7],
                        v[8],
                        v[9],
                        v[10],
                        v[11],
                        v[12],
                        v[13],
                        v[14],
                        v[15],
                    ];
                    proof {
                        assert(a@ =~= v@);
                    }
                    Ok(a)
                } else {
                    Err(DbError::TypeMismatch { col: idx, expected: "16-byte UUID blob" })
                }
            },
            DbValue::Null => Err(DbError::UnexpectedNull(idx)),
            _ => Err(DbError::TypeMismatch { col: idx, expected: "Uuid" }),
        }
    }

    /// Whether cell `idx` exists and is NULL.
    fn is_null_at(&self, idx: usize) -> (r: bool)
        ensures
            r == (cell(self.values@, idx) == Ok::<DbValue, DbError>(DbValue::Null)),
    {
        idx < self.values.len() && matches!(self.values[idx], DbValue::Null)
    }

    /// Reads column `idx` as an optional `i64`: `None` when NULL.
    pub fn get_optional_i64(&self, idx: usize) -> (r: Result<Option<i64>, DbError>)
        ensures
            r == optional(self.values@, idx, read_i64(self.values@, idx)),
    {
        if self.is_null_at(idx) {
            Ok(None)
        } else {
            match self.get_i64(idx) {
                Ok(v) => Ok(Some(v)),
                Err(e) => Err(e),
            }
        }
    }

    /// Reads an optional column written from a `u64`: `None` when NULL, a
    /// negative integer refused.
    pub fn get_optional_u64(&self, idx: usize) -> (r: Result<Option<u64>, DbError>)
        ensures
            r == optional(self.values@, idx, read_u64(self.values@, idx)),
    {
        if self.is_null_at(idx) {
            Ok(None)
        } else {
            match self.get_u64(idx) {
                Ok(v) => Ok(Some(v)),
                Err(e) => Err(e),
            }
        }
    }

    /// Reads column `idx` as optional text: `None` when NULL.
    pub fn get_optional_text(&self, idx: usize) -> (r: Result<Option<&str>, DbError>)
        ensures
            match r {
                Ok(Some(s)) => optional(self.values@, idx, read_text(self.values@, idx)) == Ok::<
                    Option<Seq<char>>,
                    DbError,
                >(Some(s@)),
                Ok(None) => optional(self.values@, idx, read_text(self.values@, idx)) == Ok::<
                    Option<Seq<char>>,
                    DbError,
                >(None),
                Err(e) => optional(self.values@, idx, read_text(self.values@, idx)) == Err::<
                    Option<Seq<char>>,
                    DbError,
                >(e),
            },
    {
        if self.is_null_at(idx) {
            Ok(None)
        } else {
            match self.get_text(idx) {
                Ok(v) => Ok(Some(v)),
                Err(e) => Err(e),
            }
        }
    }

    /// Reads column `idx` as an optional byte blob: `None` when NULL.
    pub fn get_optional_blob(&self, idx: usize) -> (r: Result<Option<&[u8]>, DbError>)
        ensures
            match r {
                Ok(Some(b)) => optional(self.values@, idx, read_blob(self.values@, idx)) == Ok::<
                    Option<Seq<u8>>,
                    DbError,
                >(Some(b@)),
                Ok(None) => optional(self.values@, idx, read_blob(self.values@, idx)) == Ok::<
                    Option<Seq<u8>>,
                    DbError,
                >(None),
                Err(e) => optional(self.values@, idx, read_blob(self.values@, idx)) == Err::<
                    Option<Seq<u8>>,
                    DbError,
                >(e),
            },
    {
        if self.is_null_at(idx) {
            Ok(None)
        } else {
            match self.get_blob(idx) {
                Ok(v) => Ok(Some(v)),
                Err(e) => Err(e),
            }
        }
    }

    /// Reads column `idx` as an optional 16-byte UUID: `None` when NULL.
    pub fn get_optional_uuid(&self, idx: usize) -> (r: Result<Option<[u8; 16]>, DbError>)
        ensures
            match r {
                Ok(Some(a)) => optional(self.values@, idx, read_uuid(self.values@, idx)) == Ok::<
                    Option<Seq<u8>>,
                    DbError,
                >(Some(a@)),
                Ok(None) => optional(self.values@, idx, read_uuid(self.values@, idx)) == Ok::<
                    Option<Seq<u8>>,
                    DbError,
                >(None),
                Err(e) => optional(self.values@, idx, read_uuid(self.values@, idx)) == Err::<
                    Option<Seq<u8>>,
                    DbError,
                >(e),
            },
    {
        if self.is_null_at(idx) {
            Ok(None)
        } else {
            match self.get_uuid(idx) {
                Ok(v) => Ok(Some(v)),
                Err(e) => Err(e),
            }
        }
    }
}

/// The rows of a query result, read one shape at a time by the caller.
pub struct Rows {
    rows: Vec<DbRow>,
}

impl View for Rows {
    type V = Seq<DbRow>;

    closed spec fn view(&self) -> Seq<DbRow> {
        self.rows@
    }
}

impl Rows {
    /// The result holding `rows`, in order.
    pub fn new(rows: Vec<DbRow>) -> (r: Self)
        ensures
            r@ == rows@,
    {
        Rows { rows }
    }

    /// The rows, in order.
    pub fn iter(&self) -> (v: Vec<&DbRow>)
        ensures
            v@.len() == self@.len(),
            forall|i: int| 0 <= i < v@.len() ==> *#[trigger] v@[i] == self@[i],
    {
        let mut v: Vec<&DbRow> = Vec::new();
        let mut i: usize = 0;
        while i < self.rows.len()
            invariant
                i <= self.rows@.len(),
                v@.len() == i,
                forall|k: int| 0 <= k < i ==> *#[trigger] v@[k] == self.rows@[k],
            decreases self.rows@.len() - i,
        {
            v.push(&self.rows[i]);
            i += 1;
        }
        v
    }

    /// Whether the result has no rows.
    pub fn is_empty(&self) -> (r: bool)
        ensures
            r == (self@.len() == 0),
    {
        self.rows.len() == 0
    }

    /// The number of rows.
    pub fn len(&self) -> (r: usize)
        ensures
            r == self@.len(),
    {
        self.rows.len()
    }

    /// The first row, if any.
    pub fn first(&self) -> (r: Option<&DbRow>)
        ensures
            self@.len() == 0 ==> r is None,
            self@.len() > 0 ==> (r matches Some(row) && *row == self@[0]),
    {
        if self.rows.len() == 0 {
            None
        } else {
            Some(&self.rows[0])
        }
    }

    /// The only row, or `None` for an empty result; more than one row is an error.
    pub fn one(&self) -> (r: Result<Option<&DbRow>, DbError>)
        ensures
            self@.len() > 1 ==> r == Err::<Option<&DbRow>, DbError>(
                DbError::UnexpectedRowCount { got: self@.len() as usize },
            ),
            self@.len() == 0 ==> r == Ok::<Option<&DbRow>, DbError>(None),
            self@.len() == 1 ==> (r matches Ok(Some(row)) && *row == self@[0]),
    {
        if self.rows.len() > 1 {
            return Err(DbError::UnexpectedRowCount { got: self.rows.len() });
        }
        Ok(self.first())
    }

    /// The only row; any other number of rows is an error.
    pub fn exactly_one(&self) -> (r: Result<&DbRow, DbError>)
        ensures
            self@.len() != 1 ==> r == Err::<&DbRow, DbError>(
                DbError::UnexpectedRowCount { got: self@.len() as usize },
            ),
            self@.len() == 1 ==> (r matches Ok(row) && *row == self@[0]),
    {
        if self.rows.len() != 1 {
            return Err(DbError::UnexpectedRowCount { got: self.rows.len() });
        }
        Ok(&self.rows[0])
    }
}

/// A `u64` that fits the signed column round-trips: what `from_u64` stores,
/// `get_u64` reads back unchanged.
pub proof fn law_u64_round_trip(v: u64)
    requires
        v <= i64::MAX,
    ensures
        read_u64(seq![DbValue::Integer(v as i64)], 0) == Ok::<u64, DbError>(v),
{
}

/// A typed read of a cell succeeds exactly when the cell holds a value of
/// that type (a UUID also from a 16-byte blob), and then gives its contents;
/// a NULL cell is refused as NULL, and a cell past the row's end as out of
/// bounds.
pub proof fn law_typed_reads(vals: Seq<DbValue>, idx: usize)
    ensures
        idx >= vals.len() ==> read_i64(vals, idx) == Err::<i64, DbError>(DbError::ColumnOutOfBounds(idx))
            && read_text(vals, idx) == Err::<Seq<char>, DbError>(DbError::ColumnOutOfBounds(idx))
            && read_blob(vals, idx) == Err::<Seq<u8>, DbError>(DbError::ColumnOutOfBounds(idx))
            && read_uuid(vals, idx) == Err::<Seq<u8>, DbError>(DbError::ColumnOutOfBounds(idx)),
        idx < vals.len() && vals[idx as int] == DbValue::Null ==> read_i64(vals, idx) == Err::<i64, DbError>(DbError::UnexpectedNull(idx))
            && read_text(vals, idx) == Err::<Seq<char>, DbError>(DbError::UnexpectedNull(idx))
            && read_blob(vals, idx) == Err::<Seq<u8>, DbError>(DbError::UnexpectedNull(idx))
            && read_uuid(vals, idx) == Err::<Seq<u8>, DbError>(DbError::UnexpectedNull(idx))
            && read_bool(vals, idx) == Err::<bool, DbError>(DbError::UnexpectedNull(idx)),
        idx < vals.len() ==> (read_i64(vals, idx) is Ok <==> vals[idx as int] is Integer),
        idx < vals.len() ==> (read_text(vals, idx) is Ok <==> vals[idx as int] is Text),
        idx < vals.len() ==> (read_blob(vals, idx) is Ok <==> vals[idx as int] is Blob),
        idx < vals.len() ==> (read_uuid(vals, idx) is Ok <==> vals[idx as int] is Uuid
            || (vals[idx as int] matches DbValue::Blob(b) && b@.len() == 16)),
        idx < vals.len() ==> (read_bool(vals, idx) is Ok <==> vals[idx as int] is Integer),
        read_i64(vals, idx) matches Ok(i) ==> vals[idx as int] == DbValue::Integer(i),
        read_bool(vals, idx) matches Ok(b) ==> (vals[idx as int] matches DbValue::Integer(i) && b == (i != 0)),
        read_text(vals, idx) matches Ok(t) ==> (vals[idx as int] matches DbValue::Text(s) && s@ == t),
        read_blob(vals, idx) matches Ok(t) ==> (vals[idx as int] matches DbValue::Blob(b) && b@ == t),
        read_uuid(vals, idx) matches Ok(t) ==> t.len() == 16 && ((vals[idx as int] matches DbValue::Uuid(a) && a@ == t)
            || (vals[idx as int] matches DbValue::Blob(b) && b@ == t)),
        read_u64(vals, idx) matches Ok(u) ==> vals[idx as int] == DbValue::Integer(u as i64) && u <= i64::MAX,
        optional(vals, idx, read_i64(vals, idx)) == Ok::<Option<i64>, DbError>(None)
            <==> idx < vals.len() && vals[idx as int] == DbValue::Null,
{
}

/// A value's storage class is the type it reads back as: an integer as an
/// `i64`, text as text, a blob as bytes, a UUID as a UUID; NULL has none.
pub proof fn law_storage_class_reads(v: DbValue)
    ensures
        db_type_spec(v) is None <==> v == DbValue::Null,
        db_type_spec(v) == Some(DbType::Integer) <==> read_i64(seq![v], 0) is Ok,
        db_type_spec(v) == Some(DbType::Text) <==> read_text(seq![v], 0) is Ok,
        db_type_spec(v) == Some(DbType::Blob) <==> read_blob(seq![v], 0) is Ok,
        db_type_spec(v) == Some(DbType::Uuid) ==> read_uuid(seq![v], 0) is Ok,
        db_type_spec(v) != Some(DbType::Other),
{
}

} // verus!
