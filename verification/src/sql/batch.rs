//! Atomic batches of writes: statements are collected first and run together
//! by the backend when the batch commits.

use vstd::prelude::*;
use vstd::string::StringExecFns;
use crate::sql::dialect::SqlDialect;
use crate::sql::row::DbRow;
use crate::sql::value::{DbValue, DbValueView, value_views};

verus! {

/// Identifies one statement queued into a batch: the index of its result in
/// what the commit returns.
#[derive(Debug, Clone, Copy, PartialEq, Eq, Structural)]
pub struct StmtId(pub usize);

/// The outcome of one statement once its batch has committed: the rows its
/// `RETURNING` clause gave and the number of rows it changed.
#[derive(Debug)]
pub struct DbStatementResult {
    pub rows_affected: usize,
    pub rows: Vec<DbRow>,
}

/// A copy of the value.
pub fn copy_value(v: &DbValue) -> (c: DbValue)
    ensures
        c@ == v@,
{
    match v {
        DbValue::Null => DbValue::Null,
        DbValue::Integer(i) => DbValue::Integer(*i),
        DbValue::Text(s) => DbValue::Text(s.clone()),
        DbValue::Blob(b) => {
            let c = b.clone();
            proof {
                assert(c@ =~= b@);
            }
            DbValue::Blob(c)
        },
        DbValue::Uuid(a) => DbValue::Uuid(*a),
    }
}

/// Copies of the values.
pub fn copy_values(vs: &[DbValue]) -> (c: Vec<DbValue>)
    ensures
        value_views(c@) == value_views(vs@),
{
    let mut c: Vec<DbValue> = Vec::new();
    let mut i: usize = 0;
    while i < vs.len()
        invariant
            i <= vs@.len(),
            value_views(c@) == value_views(vs@.take(i as int)),
        decreases vs@.len() - i,
    {
        let ghost c0 = c@;
        c.push(copy_value(&vs[i]));
        proof {
            assert(vs@.take(i as int + 1) == vs@.take(i as int).push(vs@[i as int]));
            assert(value_views(c@) =~= value_views(c0).push(vs@[i as int]@));
            assert(value_views(vs@.take(i as int + 1)) =~= value_views(vs@.take(i as int)).push(
                vs@[i as int]@,
            ));
        }
        i += 1;
    }
    proof {
        assert(vs@.take(vs@.len() as int) == vs@);
    }
    c
}

/// The statements of one atomic batch, in the order they were queued, with
/// their parameters. Nothing reaches the backend until it commits them all.
pub struct StatementBatch {
    dialect: SqlDialect,
    statements: Vec<(String, Vec<DbValue>)>,
}

impl StatementBatch {
    /// The dialect the statements are written in.
    pub closed spec fn dialect_spec(&self) -> SqlDialect {
        self.dialect
    }

    /// The queued statements, as text and parameters, in queue order.
    pub closed spec fn statements(&self) -> Seq<(Seq<char>, Seq<DbValueView>)> {
        self.statements@.map_values(|s: (String, Vec<DbValue>)| (s.0@, value_views(s.1@)))
    }

    /// An empty batch for `dialect`.
    pub fn new(dialect: SqlDialect) -> (b: Self)
        ensures
            b.dialect_spec() == dialect,
            b.statements() == Seq::<(Seq<char>, Seq<DbValueView>)>::empty(),
    {
        let b = StatementBatch { dialect, statements: Vec::new() };
        proof {
            assert(b.statements() =~= Seq::<(Seq<char>, Seq<DbValueView>)>::empty());
        }
        b
    }

    /// The dialect the statements are written in.
    pub fn dialect(&self) -> (d: SqlDialect)
        ensures
            d == self.dialect_spec(),
    {
        self.dialect
    }

    /// Queues a write statement; its id is its position in the batch.
    pub fn add_statement(&mut self, sql: &str, params: &[DbValue]) -> (id: StmtId)
        ensures
            final(self).dialect_spec() == old(self).dialect_spec(),
            final(self).statements() == old(self).statements().push((sql@, value_views(params@))),
            id.0 == old(self).statements().len(),
    {
        let id = StmtId(self.statements.len());
        let ghost before = self.statements@;
        self.statements.push((String::from_str(sql), copy_values(params)));
        proof {
            assert(self.statements() =~= before.map_values(
                |s: (String, Vec<DbValue>)| (s.0@, value_views(s.1@)),
            ).push((sql@, value_views(params@))));
        }
        id
    }

    /// The number of queued statements.
    pub fn len(&self) -> (n: usize)
        ensures
            n == self.statements().len(),
    {
        self.statements.len()
    }

    /// Gives up the queued statements, in queue order, for the backend to run.
    pub fn into_statements(self) -> (v: Vec<(String, Vec<DbValue>)>)
        ensures
            v@.map_values(|s: (String, Vec<DbValue>)| (s.0@, value_views(s.1@))) == self.statements(),
    {
        self.statements
    }
}

} // verus!
