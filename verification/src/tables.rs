//! The column types of the tables protocol, and how a backend spells them.

use vstd::prelude::*;

verus! {

/// The type of a non-key column of a protocol table.
#[derive(Debug, Clone, Copy, PartialEq, Eq, Structural)]
pub enum ColType {
    Bytes,
    Text,
    I64,
    Uuid,
    /// An integer merged by keeping the larger value.
    MaxI64,
}

/// The type of a primary-key column of a protocol table.
#[derive(Debug, Clone, Copy, PartialEq, Eq, Structural)]
pub enum PkColType {
    Bytes,
    Text,
    I64,
    Uuid,
}

/// The Postgres type of a non-key column.
pub open spec fn pg_col_type_spec(t: ColType) -> Seq<char> {
    match t {
        ColType::Bytes | ColType::Uuid => "BYTEA"@,
        ColType::Text => "TEXT"@,
        ColType::I64 | ColType::MaxI64 => "BIGINT"@,
    }
}

/// The Postgres type of a primary-key column.
pub open spec fn pg_pk_col_type_spec(t: PkColType) -> Seq<char> {
    match t {
        PkColType::Bytes | PkColType::Uuid => "BYTEA"@,
        PkColType::Text => "TEXT"@,
        PkColType::I64 => "BIGINT"@,
    }
}

/// The Postgres SQL dialect of the tables protocol. Integer columns are
/// `BIGINT` (Postgres `INTEGER` is 32-bit); raw bytes and UUIDs are `BYTEA`,
/// matching the 16 raw bytes the protocol stores.
#[derive(Debug, Clone, Copy, Default)]
pub struct PostgresDialect;

impl PostgresDialect {
    /// The column type of a non-key column.
    pub fn col_type(&self, col_type: ColType) -> (r: &'static str)
        ensures
            r@ == pg_col_type_spec(col_type),
    {
        match col_type {
            ColType::Bytes | ColType::Uuid => "BYTEA",
            ColType::Text => "TEXT",
            ColType::I64 | ColType::MaxI64 => "BIGINT",
        }
    }

    /// The column type of a primary-key column.
    pub fn pk_col_type(&self, col_type: PkColType) -> (r: &'static str)
        ensures
            r@ == pg_pk_col_type_spec(col_type),
    {
        match col_type {
            PkColType::Bytes | PkColType::Uuid => "BYTEA",
            PkColType::Text => "TEXT",
            PkColType::I64 => "BIGINT",
        }
    }
}

} // verus!
