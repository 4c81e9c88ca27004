//! Table shapes: what introspection reports, and what `CREATE TABLE` is built from.

use vstd::prelude::*;
use vstd::string::StrSliceExecFns;
use vstd::string::StringExecFns;
use crate::sql::dialect::{SqlDialect, without_rowid_spec};
use crate::tables::ColType;

verus! {

/// A generic SQL storage class, independent of any data protocol.
#[derive(Debug, Clone, Copy, PartialEq, Eq, Structural)]
pub enum DbType {
    /// 64-bit signed integer (`INTEGER` / `BIGINT`).
    Integer,
    /// UTF-8 text (`TEXT`).
    Text,
    /// Raw byte string (`BLOB` / `BYTEA`).
    Blob,
    /// 16-byte UUID, kept distinct from `Blob` so a backend may use a native type.
    Uuid,
    /// A column type the engine does not model; produced only by introspection
    /// and never rendered as DDL.
    Other,
}

/// An existing table's shape as reported by backend introspection.
#[derive(Debug)]
pub struct DbTableDescriptor {
    /// The table's name.
    pub name: String,
    /// The primary-key columns.
    pub pk: Vec<DbColumnDescription>,
    /// The remaining (non-primary-key) columns.
    pub cols: Vec<DbColumnDescription>,
}

/// One column of an introspected table.
#[derive(Debug)]
pub struct DbColumnDescription {
    /// The column's name.
    pub name: String,
    /// The column's storage class.
    pub db_type: DbType,
    /// Whether the column permits SQL NULL.
    pub nullable: bool,
}

/// Data for constructing a `CREATE TABLE` statement.
#[derive(Debug)]
pub struct CreateTableDef {
    pub name: String,
    pub pk: CreatePrimaryKeyDef,
    pub cols: Vec<CreateColDef>,
    pub unique: Vec<Vec<String>>,
}

/// Data for one column definition of a `CREATE TABLE` statement.
#[derive(Debug)]
pub struct CreateColDef {
    /// The column's name.
    pub name: String,
    /// The column's storage class.
    pub db_type: DbType,
    /// Whether the column permits SQL NULL.
    pub nullable: bool,
    pub default_zero: bool,
}

/// The primary key of a `CREATE TABLE` statement.
#[derive(Debug)]
pub enum CreatePrimaryKeyDef {
    AutoId(String),
    Columns(Vec<CreateColDef>),
}

/// The column type name of `t` under `d`.
pub open spec fn sql_type_spec(t: DbType, d: SqlDialect) -> Seq<char> {
    match (d, t) {
        (SqlDialect::Sqlite, DbType::Integer) => "INTEGER"@,
        (SqlDialect::Sqlite, DbType::Text) => "TEXT"@,
        (SqlDialect::Sqlite, _) => "BLOB"@,
        (SqlDialect::Postgres, DbType::Integer) => "BIGINT"@,
        (SqlDialect::Postgres, DbType::Text) => "TEXT"@,
        (SqlDialect::Postgres, DbType::Blob) => "BYTEA"@,
        (SqlDialect::Postgres, _) => "UUID"@,
    }
}

impl DbType {
    /// The concrete SQL column type name of this storage class under `dialect`:
    /// SQLite uses `INTEGER`/`TEXT`/`BLOB` (a UUID is a `BLOB`), Postgres
    /// `BIGINT`/`TEXT`/`BYTEA`/`UUID`. `Other` has no DDL spelling.
    pub fn sql_type(self, dialect: SqlDialect) -> (r: &'static str)
        requires
            self != DbType::Other,
        ensures
            r@ == sql_type_spec(self, dialect),
    {
        match (dialect, self) {
            (SqlDialect::Sqlite, DbType::Integer) => "INTEGER",
            (SqlDialect::Sqlite, DbType::Text) => "TEXT",
            (SqlDialect::Sqlite, _) => "BLOB",
            (SqlDialect::Postgres, DbType::Integer) => "BIGINT",
            (SqlDialect::Postgres, DbType::Text) => "TEXT",
            (SqlDialect::Postgres, DbType::Blob) => "BYTEA",
            (SqlDialect::Postgres, _) => "UUID",
        }
    }
}

/// Whether a column stored as `t` can hold protocol values of `col_type`: a
/// UUID may sit in a native UUID column or in raw bytes.
pub open spec fn valid_for_spec(t: DbType, col_type: ColType) -> bool {
    match col_type {
        ColType::Bytes => t == DbType::Blob,
        ColType::Text => t == DbType::Text,
        ColType::I64 => t == DbType::Integer,
        ColType::Uuid => t == DbType::Uuid || t == DbType::Blob,
        ColType::MaxI64 => t == DbType::Integer,
    }
}

impl DbType {
    /// Whether a column of this storage class can hold values of `col_type`.
    pub fn is_valid_for(self, col_type: ColType) -> (r: bool)
        ensures
            r == valid_for_spec(self, col_type),
    {
        match col_type {
            ColType::Bytes => self == DbType::Blob,
            ColType::Text => self == DbType::Text,
            ColType::I64 => self == DbType::Integer,
            ColType::Uuid => self == DbType::Uuid || self == DbType::Blob,
            ColType::MaxI64 => self == DbType::Integer,
        }
    }
}

/// `s` with each double quote doubled.
pub open spec fn escaped(s: Seq<char>) -> Seq<char>
    decreases s.len(),
{
    if s.len() == 0 {
        Seq::empty()
    } else if s.last() == '"' {
        escaped(s.drop_last()) + seq!['"', '"']
    } else {
        escaped(s.drop_last()).push(s.last())
    }
}

/// `s` as a quoted SQL identifier.
pub open spec fn quoted(s: Seq<char>) -> Seq<char> {
    seq!['"'] + escaped(s) + seq!['"']
}

/// `s` as a quoted SQL identifier: wrapped in double quotes, each double
/// quote inside doubled.
pub fn quote_ident(s: &str) -> (q: String)
    ensures
        q@ == quoted(s@),
{
    let len = s.unicode_len();
    let mut q = String::from_str("\"");
    proof {
        reveal_strlit("\"");
        reveal_strlit("\"\"");
        assert(s@.take(0) == Seq::<char>::empty());
    }
    let mut i: usize = 0;
    while i < len
        invariant
            len == s@.len(),
            i <= len,
            q@ == seq!['"'] + escaped(s@.take(i as int)),
        decreases len - i,
    {
        let c = s.get_char(i);
        proof {
            assert(s@.take(i as int + 1).drop_last() == s@.take(i as int));
            assert(s@.take(i as int + 1).last() == c);
        }
        proof {
            reveal_strlit("\"\"");
        }
        if c == '"' {
            q.append("\"\"");
            proof {
                assert(q@ =~= seq!['"'] + escaped(s@.take(i as int + 1)));
            }
        } else {
            q.append(s.substring_char(i, i + 1));
            proof {
                assert(s@.subrange(i as int, i as int + 1) == seq![c]);
                assert(q@ =~= seq!['"'] + escaped(s@.take(i as int + 1)));
            }
        }
        i += 1;
    }
    proof {
        assert(s@.take(len as int) == s@);
    }
    q.append("\"");
    q
}

/// The parts joined by `sep`.
pub open spec fn join(parts: Seq<Seq<char>>, sep: Seq<char>) -> Seq<char>
    decreases parts.len(),
{
    if parts.len() == 0 {
        Seq::empty()
    } else if parts.len() == 1 {
        parts[0]
    } else {
        join(parts.drop_last(), sep) + sep + parts.last()
    }
}

/// The text of each string.
pub open spec fn texts(v: Seq<String>) -> Seq<Seq<char>> {
    v.map_values(|s: String| s@)
}

proof fn lemma_texts_push(v: Seq<String>, x: String)
    ensures
        texts(v.push(x)) == texts(v).push(x@),
{
    assert(texts(v.push(x)) =~= texts(v).push(x@));
}

proof fn lemma_views_push(v: Seq<&str>, x: &str)
    ensures
        v.push(x).map_values(|c: &str| c@) == v.map_values(|c: &str| c@).push(x@),
{
    assert(v.push(x).map_values(|c: &str| c@) =~= v.map_values(|c: &str| c@).push(x@));
}

/// Appends the parts, joined by `sep`, to `out`.
fn push_joined(out: &mut String, parts: &Vec<String>, sep: &str)
    ensures
        final(out)@ == old(out)@ + join(texts(parts@), sep@),
{
    let ghost start = out@;
    let mut i: usize = 0;
    proof {
        assert(texts(parts@).take(0) == Seq::<Seq<char>>::empty());
        assert(start + Seq::<char>::empty() == start);
    }
    while i < parts.len()
        invariant
            i <= parts.len(),
            out@ == start + join(texts(parts@).take(i as int), sep@),
        decreases parts.len() - i,
    {
        let ghost before = out@;
        proof {
            assert(texts(parts@).take(i as int + 1).drop_last() == texts(parts@).take(i as int));
            assert(texts(parts@).take(i as int + 1).last() == parts@[i as int]@);
        }
        if i > 0 {
            out.append(sep);
        }
        out.append(parts[i].as_str());
        proof {
            if i == 0 {
                assert(texts(parts@).take(1) == seq![parts@[0]@]);
                assert(out@ == start + parts@[0]@);
            } else {
                assert(out@ == before + sep@ + parts@[i as int]@);
            }
        }
        i += 1;
    }
    proof {
        assert(texts(parts@).take(parts.len() as int) == texts(parts@));
    }
}

/// The definition of one column under `d`.
pub open spec fn col_sql_spec(c: CreateColDef, d: SqlDialect) -> Seq<char> {
    quoted(c.name@) + " "@ + sql_type_spec(c.db_type, d)
        + (if c.nullable { " NULL"@ } else { " NOT NULL"@ })
        + (if c.default_zero { " DEFAULT 0"@ } else { ""@ })
}

/// The definitions of the columns under `d`.
pub open spec fn cols_sql_spec(cols: Seq<CreateColDef>, d: SqlDialect) -> Seq<Seq<char>> {
    cols.map_values(|c: CreateColDef| col_sql_spec(c, d))
}

/// The column definition of an automatic id named `name` under `d`.
pub open spec fn auto_id_sql_spec(name: Seq<char>, d: SqlDialect) -> Seq<char> {
    match d {
        SqlDialect::Sqlite => quoted(name) + " INTEGER PRIMARY KEY AUTOINCREMENT"@,
        SqlDialect::Postgres => quoted(name) + " BIGINT GENERATED ALWAYS AS IDENTITY PRIMARY KEY"@,
    }
}

/// The column definitions a primary key contributes under `d`.
pub open spec fn pk_cols_spec(pk: CreatePrimaryKeyDef, d: SqlDialect) -> Seq<Seq<char>> {
    match pk {
        CreatePrimaryKeyDef::AutoId(name) => seq![auto_id_sql_spec(name@, d)],
        CreatePrimaryKeyDef::Columns(cols) => cols_sql_spec(cols@, d),
    }
}

/// The quoted names of the columns.
pub open spec fn quoted_names(cols: Seq<CreateColDef>) -> Seq<Seq<char>> {
    cols.map_values(|c: CreateColDef| quoted(c.name@))
}

proof fn lemma_quoted_names_push(v: Seq<CreateColDef>, x: CreateColDef)
    ensures
        quoted_names(v.push(x)) == quoted_names(v).push(quoted(x.name@)),
{
    assert(quoted_names(v.push(x)) =~= quoted_names(v).push(quoted(x.name@)));
}

proof fn lemma_cols_sql_push(v: Seq<CreateColDef>, x: CreateColDef, d: SqlDialect)
    ensures
        cols_sql_spec(v.push(x), d) == cols_sql_spec(v, d).push(col_sql_spec(x, d)),
{
    assert(cols_sql_spec(v.push(x), d) =~= cols_sql_spec(v, d).push(col_sql_spec(x, d)));
}

/// The `PRIMARY KEY(..)` clause of a composite key; nothing for an automatic id.
pub open spec fn pk_clause_spec(pk: CreatePrimaryKeyDef) -> Seq<char> {
    match pk {
        CreatePrimaryKeyDef::AutoId(_) => ""@,
        CreatePrimaryKeyDef::Columns(cols) => ", PRIMARY KEY("@ + join(quoted_names(cols@), ", "@)
            + ")"@,
    }
}

/// The rowid clause: only a composite key drops the rowid.
pub open spec fn rowid_clause_spec(pk: CreatePrimaryKeyDef, d: SqlDialect) -> Seq<char> {
    match pk {
        CreatePrimaryKeyDef::AutoId(_) => ""@,
        CreatePrimaryKeyDef::Columns(_) => without_rowid_spec(d),
    }
}

/// No column of the list has the introspection-only type.
pub open spec fn renderable_cols(cols: Seq<CreateColDef>) -> bool {
    forall|i: int| 0 <= i < cols.len() ==> (#[trigger] cols[i]).db_type != DbType::Other
}

/// No column of the table has the introspection-only type.
pub open spec fn renderable(t: CreateTableDef) -> bool {
    &&& renderable_cols(t.cols@)
    &&& (t.pk matches CreatePrimaryKeyDef::Columns(pk) ==> renderable_cols(pk@))
}

/// The `CREATE TABLE` statement of `t` under `d`.
pub open spec fn create_table_spec(t: CreateTableDef, d: SqlDialect) -> Seq<char> {
    "CREATE TABLE "@ + quoted(t.name@) + " ("@
        + join(pk_cols_spec(t.pk, d) + cols_sql_spec(t.cols@, d), ", "@)
        + pk_clause_spec(t.pk) + ")"@ + rowid_clause_spec(t.pk, d) + ";"@
}

impl CreateTableDef {
    /// The `CREATE TABLE` statement of this definition under `dialect`.
    /// (The `unique` column groups are not rendered.)
    pub fn create_table_sql(&self, dialect: SqlDialect) -> (s: String)
        requires
            renderable(*self),
        ensures
            s@ == create_table_spec(*self, dialect),
    {
        let mut col_defs = self.pk.create_cols_clauses(dialect);
        let mut rest = CreateColDef::create_cols_sql(&self.cols, dialect);
        col_defs.append(&mut rest);
        proof {
            assert(texts(col_defs@) == pk_cols_spec(self.pk, dialect) + cols_sql_spec(
                self.cols@,
                dialect,
            ));
        }
        let mut s = String::from_str("CREATE TABLE ");
        let q = quote_ident(self.name.as_str());
        s.append(q.as_str());
        s.append(" (");
        push_joined(&mut s, &col_defs, ", ");
        let pk_clause = self.pk.pk_clause();
        s.append(pk_clause.as_str());
        s.append(")");
        s.append(self.pk.rowid_clause(dialect));
        s.append(";");
        s
    }

    /// This definition with one more group of columns declared unique.
    pub fn with_unique(self, cols: &[&str]) -> (t: Self)
        ensures
            t.name == self.name,
            t.pk == self.pk,
            t.cols == self.cols,
            t.unique@.len() == self.unique@.len() + 1,
            t.unique@.drop_last() == self.unique@,
            texts(t.unique@.last()@) == cols@.map_values(|c: &str| c@),
    {
        let mut group: Vec<String> = Vec::new();
        let mut i: usize = 0;
        while i < cols.len()
            invariant
                i <= cols.len(),
                texts(group@) == cols@.take(i as int).map_values(|c: &str| c@),
            decreases cols.len() - i,
        {
            let ghost g0 = group@;
            group.push(String::from_str(cols[i]));
            proof {
                lemma_texts_push(g0, group@.last());
                lemma_views_push(cols@.take(i as int), cols@[i as int]);
                assert(cols@.take(i as int + 1) == cols@.take(i as int).push(cols@[i as int]));
                assert(texts(group@) =~= cols@.take(i as int + 1).map_values(|c: &str| c@));
            }
            i += 1;
        }
        proof {
            assert(cols@.take(cols.len() as int) == cols@);
        }
        let mut t = self;
        t.unique.push(group);
        t
    }
}

impl CreatePrimaryKeyDef {
    fn create_cols_clauses(&self, dialect: SqlDialect) -> (v: Vec<String>)
        requires
            self matches CreatePrimaryKeyDef::Columns(pk) ==> renderable_cols(pk@),
        ensures
            texts(v@) == pk_cols_spec(*self, dialect),
    {
        match self {
            CreatePrimaryKeyDef::AutoId(name) => {
                let mut sql = quote_ident(name.as_str());
                match dialect {
                    SqlDialect::Sqlite => sql.append(" INTEGER PRIMARY KEY AUTOINCREMENT"),
                    SqlDialect::Postgres => sql.append(
                        " BIGINT GENERATED ALWAYS AS IDENTITY PRIMARY KEY",
                    ),
                }
                let mut v = Vec::new();
                v.push(sql);
                proof {
                    assert(texts(v@) == seq![sql@]);
                }
                v
            },
            CreatePrimaryKeyDef::Columns(cols) => CreateColDef::create_cols_sql(cols, dialect),
        }
    }

    fn pk_clause(&self) -> (s: String)
        ensures
            s@ == pk_clause_spec(*self),
    {
        match self {
            CreatePrimaryKeyDef::AutoId(_) => {
                proof {
                    reveal_strlit("");
                }
                String::from_str("")
            },
            CreatePrimaryKeyDef::Columns(cols) => {
                let mut names: Vec<String> = Vec::new();
                let mut i: usize = 0;
                while i < cols.len()
                    invariant
                        i <= cols.len(),
                        texts(names@) == quoted_names(cols@.take(i as int)),
                    decreases cols.len() - i,
                {
                    let ghost n0 = names@;
                    names.push(quote_ident(cols[i].name.as_str()));
                    proof {
                        lemma_texts_push(n0, names@.last());
                        lemma_quoted_names_push(cols@.take(i as int), cols@[i as int]);
                        assert(cols@.take(i as int + 1) == cols@.take(i as int).push(
                            cols@[i as int],
                        ));
                        assert(texts(names@) =~= quoted_names(cols@.take(i as int + 1)));
                    }
                    i += 1;
                }
                proof {
                    assert(cols@.take(cols.len() as int) == cols@);
                }
                let mut s = String::from_str(", PRIMARY KEY(");
                push_joined(&mut s, &names, ", ");
                s.append(")");
                s
            },
        }
    }

    fn rowid_clause(&self, dialect: SqlDialect) -> (s: &'static str)
        ensures
            s@ == rowid_clause_spec(*self, dialect),
    {
        match self {
            CreatePrimaryKeyDef::AutoId(_) => {
                proof {
                    reveal_strlit("");
                }
                ""
            },
            CreatePrimaryKeyDef::Columns(_) => dialect.without_rowid(),
        }
    }
}

impl CreateColDef {
    fn create_col_sql(&self, dialect: SqlDialect) -> (s: String)
        requires
            self.db_type != DbType::Other,
        ensures
            s@ == col_sql_spec(*self, dialect),
    {
        let mut s = quote_ident(self.name.as_str());
        s.append(" ");
        s.append(self.db_type.sql_type(dialect));
        if self.nullable {
            s.append(" NULL");
        } else {
            s.append(" NOT NULL");
        }
        if self.default_zero {
            s.append(" DEFAULT 0");
        } else {
            proof {
                reveal_strlit("");
                assert(s@ + ""@ == s@);
            }
        }
        s
    }

    fn create_cols_sql(cols: &[CreateColDef], dialect: SqlDialect) -> (v: Vec<String>)
        requires
            renderable_cols(cols@),
        ensures
            texts(v@) == cols_sql_spec(cols@, dialect),
    {
        let mut v: Vec<String> = Vec::new();
        let mut i: usize = 0;
        while i < cols.len()
            invariant
                i <= cols.len(),
                renderable_cols(cols@),
                texts(v@) == cols_sql_spec(cols@.take(i as int), dialect),
            decreases cols.len() - i,
        {
            let c = cols[i].create_col_sql(dialect);
            let ghost v0 = v@;
            v.push(c);
            proof {
                lemma_texts_push(v0, c);
                lemma_cols_sql_push(cols@.take(i as int), cols@[i as int], dialect);
                assert(cols@.take(i as int + 1) == cols@.take(i as int).push(cols@[i as int]));
                assert(texts(v@) =~= cols_sql_spec(cols@.take(i as int + 1), dialect));
            }
            i += 1;
        }
        proof {
            assert(cols@.take(cols.len() as int) == cols@);
        }
        v
    }

    /// The same column, permitting NULL.
    pub fn nullable(self) -> (c: Self)
        ensures
            c.name == self.name,
            c.db_type == self.db_type,
            c.nullable,
            c.default_zero == self.default_zero,
    {
        let mut c = self;
        c.nullable = true;
        c
    }

    /// The same integer column, made nullable (the zero default is not set).
    pub fn default_zero(self) -> (c: Self)
        requires
            self.db_type == DbType::Integer,
        ensures
            c.name == self.name,
            c.db_type == self.db_type,
            c.nullable,
            c.default_zero == self.default_zero,
    {
        let mut c = self;
        c.nullable = true;
        c
    }
}

/// A copy of the column definition.
fn copy_col(c: &CreateColDef) -> (r: CreateColDef)
    ensures
        r == *c,
{
    CreateColDef { name: c.name.clone(), db_type: c.db_type, nullable: c.nullable, default_zero: c.default_zero }
}

/// Copies of the column definitions.
fn copy_cols(cols: &[CreateColDef]) -> (v: Vec<CreateColDef>)
    ensures
        v@ == cols@,
{
    let mut v: Vec<CreateColDef> = Vec::new();
    let mut i: usize = 0;
    while i < cols.len()
        invariant
            i <= cols.len(),
            v@ == cols@.take(i as int),
        decreases cols.len() - i,
    {
        v.push(copy_col(&cols[i]));
        proof {
            assert(cols@.take(i as int + 1) == cols@.take(i as int).push(cols@[i as int]));
        }
        i += 1;
    }
    proof {
        assert(cols@.take(cols.len() as int) == cols@);
    }
    v
}

/// A table named `name` keyed by the columns `pk`, with the further columns `cols`.
pub fn table(name: &str, pk: &[CreateColDef], cols: &[CreateColDef]) -> (t: CreateTableDef)
    ensures
        t.name@ == name@,
        t.pk matches CreatePrimaryKeyDef::Columns(k) && k@ == pk@,
        t.cols@ == cols@,
        t.unique@.len() == 0,
{
    CreateTableDef {
        name: String::from_str(name),
        pk: CreatePrimaryKeyDef::Columns(copy_cols(pk)),
        cols: copy_cols(cols),
        unique: Vec::new(),
    }
}

/// A table named `name` keyed by an automatic integer id `id`, with the
/// further columns `cols`.
pub fn table_with_auto_id(name: &str, id: &str, cols: &[CreateColDef]) -> (t: CreateTableDef)
    ensures
        t.name@ == name@,
        t.pk matches CreatePrimaryKeyDef::AutoId(i) && i@ == id@,
        t.cols@ == cols@,
        t.unique@.len() == 0,
{
    CreateTableDef {
        name: String::from_str(name),
        pk: CreatePrimaryKeyDef::AutoId(String::from_str(id)),
        cols: copy_cols(cols),
        unique: Vec::new(),
    }
}

/// Each protocol column type is held by exactly its own storage class: bytes
/// by blobs, text by text, the integer types by integers, and a UUID by a
/// native UUID column or by raw bytes.
pub proof fn law_valid_storage(t: DbType)
    ensures
        valid_for_spec(t, ColType::Text) <==> t == DbType::Text,
        valid_for_spec(t, ColType::Bytes) <==> t == DbType::Blob,
        valid_for_spec(t, ColType::I64) <==> t == DbType::Integer,
        valid_for_spec(t, ColType::MaxI64) <==> t == DbType::Integer,
        valid_for_spec(t, ColType::Uuid) <==> t == DbType::Uuid || t == DbType::Blob,
        t == DbType::Other ==> forall|c: ColType| !valid_for_spec(t, c),
{
}

/// Each protocol column type is spelled, in the Postgres tables, as the DDL
/// type of a storage class that holds it; under Postgres every storage class
/// has a type name of its own.
pub proof fn law_column_types_hold(c: ColType, t: DbType, u: DbType)
    ensures
        exists|s: DbType| #[trigger] valid_for_spec(s, c) && s != DbType::Other
            && sql_type_spec(s, SqlDialect::Postgres) == crate::tables::pg_col_type_spec(c),
        t != u && t != DbType::Other && u != DbType::Other ==> sql_type_spec(t, SqlDialect::Postgres) != sql_type_spec(u, SqlDialect::Postgres),
{
    reveal_strlit("BIGINT");
    reveal_strlit("TEXT");
    reveal_strlit("BYTEA");
    reveal_strlit("UUID");
    match c {
        ColType::Bytes => assert(valid_for_spec(DbType::Blob, c)),
        ColType::Uuid => assert(valid_for_spec(DbType::Blob, c)),
        ColType::Text => assert(valid_for_spec(DbType::Text, c)),
        ColType::I64 => assert(valid_for_spec(DbType::Integer, c)),
        ColType::MaxI64 => assert(valid_for_spec(DbType::Integer, c)),
    }
    assert("BIGINT"@[0] == 'B' && "TEXT"@[0] == 'T' && "BYTEA"@[1] == 'Y' && "UUID"@[0] == 'U');
    assert("BYTEA"@[0] == 'B' && "BIGINT"@[1] == 'I');
}

} // verus!
