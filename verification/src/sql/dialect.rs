//! The points where SQL flavors genuinely diverge: placeholder syntax, the
//! scalar max function, text collation, conflict handling and the rowid
//! clause. Type names live with [`DbType::sql_type`](crate::sql::schema::DbType::sql_type).

use vstd::prelude::*;
use vstd::string::StringExecFns;
use crate::text::{dec, push_decimal, parse_u64_spec, lemma_parse_dec};

verus! {

/// The SQL flavor a backend speaks.
#[derive(Debug, Clone, Copy, PartialEq, Eq)]
pub enum SqlDialect {
    Sqlite,
    Postgres,
}

/// The positional bind placeholder for parameter `n`: `?n` on SQLite, `$n` on
/// Postgres.
pub open spec fn placeholder_spec(d: SqlDialect, n: nat) -> Seq<char> {
    match d {
        SqlDialect::Sqlite => seq!['?'] + dec(n),
        SqlDialect::Postgres => seq!['$'] + dec(n),
    }
}

/// The name of the scalar two-argument max function of `d`.
pub open spec fn scalar_max_spec(d: SqlDialect) -> Seq<char> {
    match d {
        SqlDialect::Sqlite => "MAX"@,
        SqlDialect::Postgres => "GREATEST"@,
    }
}

/// The collation suffix that makes text comparisons bytewise under `d`.
pub open spec fn text_collate_spec(d: SqlDialect) -> Seq<char> {
    match d {
        SqlDialect::Sqlite => ""@,
        SqlDialect::Postgres => " COLLATE \"C\""@,
    }
}

/// The clause that closes a `CREATE TABLE` with an explicit primary key.
pub open spec fn without_rowid_spec(d: SqlDialect) -> Seq<char> {
    match d {
        SqlDialect::Sqlite => " WITHOUT ROWID"@,
        SqlDialect::Postgres => ""@,
    }
}

/// The verb of an insert that skips rows whose key is already present.
pub open spec fn insert_ignore_verb_spec(d: SqlDialect) -> Seq<char> {
    match d {
        SqlDialect::Sqlite => "INSERT OR IGNORE"@,
        SqlDialect::Postgres => "INSERT"@,
    }
}

/// The trailing clause of such an insert, given the conflict target columns.
pub open spec fn conflict_ignore_clause_spec(d: SqlDialect, cols: Seq<char>) -> Seq<char> {
    match d {
        SqlDialect::Sqlite => Seq::empty(),
        SqlDialect::Postgres => " ON CONFLICT ("@ + cols + ") DO NOTHING"@,
    }
}

impl SqlDialect {
    /// Renders a positional bind placeholder for parameter `n` (1-based):
    /// `?n` on SQLite, `$n` on Postgres.
    pub fn placeholder(&self, n: usize) -> (r: String)
        ensures
            r@ == placeholder_spec(*self, n as nat),
    {
        let mut r = match self {
            SqlDialect::Sqlite => String::from_str("?"),
            SqlDialect::Postgres => String::from_str("$"),
        };
        proof {
            reveal_strlit("?");
            reveal_strlit("$");
        }
        push_decimal(&mut r, n as u64);
        r
    }

    /// Scalar two-argument max function: `MAX` on SQLite, `GREATEST` on Postgres.
    /// Callers keep the `COALESCE` around the arguments: SQLite's `MAX` is NULL
    /// when any argument is, Postgres's `GREATEST` ignores NULLs.
    pub fn scalar_max(&self) -> (r: &'static str)
        ensures
            r@ == scalar_max_spec(*self),
    {
        match self {
            SqlDialect::Sqlite => "MAX",
            SqlDialect::Postgres => "GREATEST",
        }
    }

    /// Collation suffix for text comparisons that must order bytewise: empty on
    /// SQLite, ` COLLATE "C"` on Postgres.
    pub fn text_collate(&self) -> (r: &'static str)
        ensures
            r@ == text_collate_spec(*self),
    {
        match self {
            SqlDialect::Sqlite => "",
            SqlDialect::Postgres => " COLLATE \"C\"",
        }
    }

    /// ` WITHOUT ROWID` on SQLite, nothing on Postgres.
    pub fn without_rowid(&self) -> (r: &'static str)
        ensures
            r@ == without_rowid_spec(*self),
    {
        match self {
            SqlDialect::Sqlite => " WITHOUT ROWID",
            SqlDialect::Postgres => "",
        }
    }

    /// The insert verb that ignores key conflicts: SQLite carries the ignore in
    /// the verb, Postgres uses a plain `INSERT`.
    pub fn insert_ignore_verb(&self) -> (r: &'static str)
        ensures
            r@ == insert_ignore_verb_spec(*self),
    {
        match self {
            SqlDialect::Sqlite => "INSERT OR IGNORE",
            SqlDialect::Postgres => "INSERT",
        }
    }

    /// The clause after such an insert: nothing on SQLite, an explicit
    /// `ON CONFLICT (cols) DO NOTHING` on Postgres.
    pub fn conflict_ignore_clause(&self, cols: &str) -> (r: String)
        ensures
            r@ == conflict_ignore_clause_spec(*self, cols@),
    {
        match self {
            SqlDialect::Sqlite => {
                proof {
                    reveal_strlit("");
                }
                String::from_str("")
            },
            SqlDialect::Postgres => {
                let mut r = String::from_str(" ON CONFLICT (");
                r.append(cols);
                r.append(") DO NOTHING");
                r
            },
        }
    }
}

/// Hands out consecutive placeholders, starting from the first parameter.
pub struct PlaceholderGen {
    dialect: SqlDialect,
    next_idx: usize,
}

impl PlaceholderGen {
    /// The dialect the placeholders are rendered in.
    pub closed spec fn dialect_spec(&self) -> SqlDialect {
        self.dialect
    }

    /// The parameter number the next placeholder will carry.
    pub closed spec fn upcoming(&self) -> nat {
        self.next_idx as nat
    }

    /// A generator whose first placeholder is parameter 1.
    pub fn new(dialect: SqlDialect) -> (g: Self)
        ensures
            g.dialect_spec() == dialect,
            g.upcoming() == 1,
    {
        Self { dialect, next_idx: 1 }
    }

    /// The placeholder of the next parameter; the one after it comes next.
    pub fn next(&mut self) -> (p: String)
        requires
            old(self).upcoming() < usize::MAX,
        ensures
            p@ == placeholder_spec(old(self).dialect_spec(), old(self).upcoming()),
            final(self).dialect_spec() == old(self).dialect_spec(),
            final(self).upcoming() == old(self).upcoming() + 1,
    {
        let p = self.dialect.placeholder(self.next_idx);
        self.next_idx = self.next_idx + 1;
        p
    }
}

/// A placeholder is the dialect's sign followed by the parameter's number in
/// decimal, which reads back as that number; so parameters with different
/// numbers get different placeholders.
pub proof fn law_placeholder_names(d: SqlDialect, n: u64, m: u64)
    ensures
        placeholder_spec(d, n as nat).len() > 1,
        placeholder_spec(d, n as nat)[0] == (match d { SqlDialect::Sqlite => '?', SqlDialect::Postgres => '$' }),
        parse_u64_spec(placeholder_spec(d, n as nat).drop_first()) == Some(n),
        n != m ==> placeholder_spec(d, n as nat) != placeholder_spec(d, m as nat),
{
    lemma_parse_dec(n);
    lemma_parse_dec(m);
    crate::text::lemma_dec_digits(n as nat);
    let p = placeholder_spec(d, n as nat);
    let q = placeholder_spec(d, m as nat);
    assert(p.drop_first() =~= dec(n as nat));
    assert(q.drop_first() =~= dec(m as nat));
    if p == q {
        assert(p.drop_first() == q.drop_first());
    }
}

/// An insert that skips rows already present says so in exactly one place:
/// either its verb is more than a plain `INSERT`, or it ends with a clause
/// that names the conflict columns and does nothing; and only a dialect
/// that needs it closes a keyed table with a rowid clause.
pub proof fn law_conflict_ignoring(d: SqlDialect, cols: Seq<char>)
    ensures
        (insert_ignore_verb_spec(d) == "INSERT"@) <==> conflict_ignore_clause_spec(d, cols).len() > 0,
        conflict_ignore_clause_spec(d, cols).len() > 0 ==> exists|i: int| 0 <= i && i + cols.len() <= conflict_ignore_clause_spec(d, cols).len()
            && #[trigger] conflict_ignore_clause_spec(d, cols).subrange(i, i + cols.len()) == cols,
        (without_rowid_spec(d).len() > 0) <==> (insert_ignore_verb_spec(d) != "INSERT"@),
{
    reveal_strlit("INSERT");
    reveal_strlit("INSERT OR IGNORE");
    reveal_strlit(" ON CONFLICT (");
    reveal_strlit(") DO NOTHING");
    reveal_strlit(" WITHOUT ROWID");
    reveal_strlit("");
    assert("INSERT OR IGNORE"@.len() == 16 && "INSERT"@.len() == 6);
    assert(" WITHOUT ROWID"@.len() == 14 && ""@.len() == 0);
    if d == SqlDialect::Postgres {
        let c = conflict_ignore_clause_spec(d, cols);
        let n = " ON CONFLICT ("@.len() as int;
        assert(c.subrange(n, n + cols.len()) =~= cols);
    }
}

} // verus!
