//! The Postgres backend's own rules: how it names types in introspection and
//! in result rows, how it reports errors, and how it assembles a table's
//! description from the catalog rows.

use vstd::prelude::*;
use vstd::string::StringExecFns;
use vstd::string::StrSliceExecFns;
use crate::sql::schema::{DbColumnDescription, DbTableDescriptor, DbType};
use crate::sql::value::DbError;
use crate::text::{dec, push_decimal};

verus! {

/// The storage class of a column of Postgres type `pg_type` as introspection
/// reports it: only the types the engine writes are recognized.
pub open spec fn db_type_from_pg_spec(pg_type: Seq<char>) -> DbType {
    if pg_type == "int8"@ {
        DbType::Integer
    } else if pg_type == "text"@ {
        DbType::Text
    } else if pg_type == "bytea"@ {
        DbType::Blob
    } else if pg_type == "uuid"@ {
        DbType::Uuid
    } else {
        DbType::Other
    }
}

/// Whether two strings have the same characters.
fn str_eq(a: &str, b: &str) -> (r: bool)
    ensures
        r == (a@ == b@),
{
    let n = a.unicode_len();
    if n != b.unicode_len() {
        return false;
    }
    let mut i: usize = 0;
    while i < n
        invariant
            n == a@.len(),
            n == b@.len(),
            i <= n,
            forall|j: int| 0 <= j < i ==> a@[j] == b@[j],
        decreases n - i,
    {
        if a.get_char(i) != b.get_char(i) {
            return false;
        }
        i += 1;
    }
    proof {
        assert(a@ =~= b@);
    }
    true
}

/// The storage class of a column of Postgres type `pg_type` (a `typname`):
/// `int8`, `text`, `bytea` and `uuid` are the engine's; anything else is
/// outside its vocabulary.
pub fn db_type_from_pg(pg_type: &str) -> (t: DbType)
    ensures
        t == db_type_from_pg_spec(pg_type@),
{
    proof {
        reveal_strlit("int8");
        reveal_strlit("text");
        reveal_strlit("bytea");
        reveal_strlit("uuid");
    }
    if str_eq(pg_type, "int8") {
        DbType::Integer
    } else if str_eq(pg_type, "text") {
        DbType::Text
    } else if str_eq(pg_type, "bytea") {
        DbType::Blob
    } else if str_eq(pg_type, "uuid") {
        DbType::Uuid
    } else {
        DbType::Other
    }
}

/// How a result cell of a Postgres type is read.
#[derive(Debug, Clone, Copy, PartialEq, Eq, Structural)]
pub enum ResultKind {
    /// An `int8`, read as is.
    BigInt,
    /// An `int4`, widened.
    Int,
    /// An `int2`, widened.
    SmallInt,
    /// A `bool`, as 0 or 1.
    Bool,
    /// `text`, `varchar`, `bpchar` or `name`.
    Text,
    /// `bytea`.
    Bytes,
    /// `uuid`, as its 16 bytes.
    Uuid,
}

/// How a result cell of Postgres type `pg_type` is read, if the engine reads it.
pub open spec fn result_kind_spec(pg_type: Seq<char>) -> Option<ResultKind> {
    if pg_type == "int8"@ {
        Some(ResultKind::BigInt)
    } else if pg_type == "int4"@ {
        Some(ResultKind::Int)
    } else if pg_type == "int2"@ {
        Some(ResultKind::SmallInt)
    } else if pg_type == "bool"@ {
        Some(ResultKind::Bool)
    } else if pg_type == "text"@ || pg_type == "varchar"@ || pg_type == "bpchar"@ || pg_type
        == "name"@ {
        Some(ResultKind::Text)
    } else if pg_type == "bytea"@ {
        Some(ResultKind::Bytes)
    } else if pg_type == "uuid"@ {
        Some(ResultKind::Uuid)
    } else {
        None
    }
}

/// How a result cell of Postgres type `pg_type` is read: the integer types,
/// booleans, the text types, `bytea` and `uuid`; `None` for any other type.
pub fn result_kind(pg_type: &str) -> (k: Option<ResultKind>)
    ensures
        k == result_kind_spec(pg_type@),
{
    proof {
        reveal_strlit("int8");
        reveal_strlit("int4");
        reveal_strlit("int2");
        reveal_strlit("bool");
        reveal_strlit("text");
        reveal_strlit("varchar");
        reveal_strlit("bpchar");
        reveal_strlit("name");
        reveal_strlit("bytea");
        reveal_strlit("uuid");
    }
    if str_eq(pg_type, "int8") {
        Some(ResultKind::BigInt)
    } else if str_eq(pg_type, "int4") {
        Some(ResultKind::Int)
    } else if str_eq(pg_type, "int2") {
        Some(ResultKind::SmallInt)
    } else if str_eq(pg_type, "bool") {
        Some(ResultKind::Bool)
    } else if str_eq(pg_type, "text") || str_eq(pg_type, "varchar") || str_eq(pg_type, "bpchar")
        || str_eq(pg_type, "name") {
        Some(ResultKind::Text)
    } else if str_eq(pg_type, "bytea") {
        Some(ResultKind::Bytes)
    } else if str_eq(pg_type, "uuid") {
        Some(ResultKind::Uuid)
    } else {
        None
    }
}

/// The error for a result column of a type the engine does not read.
pub open spec fn unsupported_type_message(pg_type: Seq<char>, idx: usize) -> Seq<char> {
    "unsupported postgres type `"@ + pg_type + "` in result column "@ + dec(idx as nat)
}

/// The error for a result column `idx` of a type the engine does not read.
pub fn unsupported_type_error(pg_type: &str, idx: usize) -> (e: DbError)
    ensures
        e matches DbError::Sql(m) && m@ == unsupported_type_message(pg_type@, idx),
{
    let mut m = String::from_str("unsupported postgres type `");
    m.append(pg_type);
    m.append("` in result column ");
    push_decimal(&mut m, idx as u64);
    DbError::Sql(m)
}

/// The SQLSTATE of a unique or primary-key violation.
pub open spec fn unique_violation_code() -> Seq<char> {
    "23505"@
}

/// The error for a server error with SQLSTATE `code` and message `message`:
/// a unique violation has its own variant; any other keeps both.
pub fn server_error(code: &str, message: &str) -> (e: DbError)
    ensures
        code@ == unique_violation_code() ==> e is UniqueViolation,
        code@ != unique_violation_code() ==> (e matches DbError::Sql(m) && m@ == code@ + ": "@ + message@),
{
    proof {
        reveal_strlit("23505");
    }
    if str_eq(code, "23505") {
        DbError::UniqueViolation
    } else {
        let mut m = String::from_str(code);
        m.append(": ");
        m.append(message);
        DbError::Sql(m)
    }
}

/// One catalog row of a table's column: its name, type name, whether it is
/// `NOT NULL`, and its 1-based position in the primary key (0 if not in it).
pub struct CatalogColumn {
    pub name: String,
    pub pg_type: String,
    pub not_null: bool,
    pub pk_pos: i32,
}

/// What a catalog row describes: name, storage class, nullability.
pub open spec fn described(c: CatalogColumn) -> (Seq<char>, DbType, bool) {
    (c.name@, db_type_from_pg_spec(c.pg_type@), !c.not_null)
}

/// What a column description holds.
pub open spec fn description_view(d: DbColumnDescription) -> (Seq<char>, DbType, bool) {
    (d.name@, d.db_type, d.nullable)
}

/// Whether a catalog row is a primary-key column.
pub open spec fn in_pk() -> spec_fn(CatalogColumn) -> bool {
    |c: CatalogColumn| c.pk_pos > 0
}

/// Whether a catalog row is a key column at position `k`.
pub open spec fn at_pk_pos(k: i32) -> spec_fn(CatalogColumn) -> bool {
    |c: CatalogColumn| c.pk_pos > 0 && c.pk_pos == k
}

/// Whether the rows of the key are in order of their key position.
pub open spec fn sorted_by_pos(s: Seq<CatalogColumn>) -> bool {
    forall|i: int, j: int| 0 <= i <= j < s.len() ==> s[i].pk_pos <= s[j].pk_pos
}

/// Inserting `x` after the key rows at positions up to its own, and before
/// the rest, keeps the rows in position order and appends `x` to its group.
proof fn lemma_insert_key(s: Seq<CatalogColumn>, p: int, x: CatalogColumn)
    requires
        0 <= p <= s.len(),
        sorted_by_pos(s),
        x.pk_pos > 0,
        forall|i: int| 0 <= i < s.len() ==> #[trigger] s[i].pk_pos > 0,
        forall|i: int| 0 <= i < p ==> s[i].pk_pos <= x.pk_pos,
        forall|i: int| p <= i < s.len() ==> s[i].pk_pos > x.pk_pos,
    ensures
        sorted_by_pos(s.insert(p, x)),
        forall|k: i32| #[trigger] s.insert(p, x).filter(at_pk_pos(k)) == if x.pk_pos == k {
            s.filter(at_pk_pos(k)).push(x)
        } else {
            s.filter(at_pk_pos(k))
        },
{
    let t = s.insert(p, x);
    assert(t =~= s.take(p) + seq![x] + s.skip(p));
    assert(s =~= s.take(p) + s.skip(p));
    assert forall|k: i32| #[trigger] t.filter(at_pk_pos(k)) == if x.pk_pos == k {
        s.filter(at_pk_pos(k)).push(x)
    } else {
        s.filter(at_pk_pos(k))
    } by {
        let f = at_pk_pos(k);
        Seq::filter_distributes_over_add(s.take(p) + seq![x], s.skip(p), f);
        Seq::filter_distributes_over_add(s.take(p), seq![x], f);
        Seq::filter_distributes_over_add(s.take(p), s.skip(p), f);
        reveal_with_fuel(Seq::filter, 2);
        assert(seq![x].drop_last() =~= Seq::<CatalogColumn>::empty());
        if x.pk_pos == k {
            assert forall|i: int| 0 <= i < s.skip(p).len() implies !f(s.skip(p)[i]) by {}
            s.skip(p).lemma_all_neg_filter_empty(f);
            assert(s.skip(p).filter(f) =~= Seq::<CatalogColumn>::empty());
            assert(seq![x].filter(f) =~= seq![x]);
            assert(t.filter(f) =~= s.filter(f).push(x));
        } else {
            assert(seq![x].filter(f) =~= Seq::<CatalogColumn>::empty());
            assert(t.filter(f) =~= s.filter(f));
        }
    }
}

fn describe(c: &CatalogColumn) -> (d: DbColumnDescription)
    ensures
        description_view(d) == described(*c),
{
    DbColumnDescription {
        name: c.name.clone(),
        db_type: db_type_from_pg(c.pg_type.as_str()),
        nullable: !c.not_null,
    }
}

/// The description of table `name` from its catalog rows (in column order):
/// `None` when there are none; else the key columns in key-position order
/// (ties in column order) and the other columns in column order.
pub fn describe_table_rows(name: &str, rows: &Vec<CatalogColumn>) -> (r: Option<DbTableDescriptor>)
    ensures
        rows@.len() == 0 ==> r is None,
        rows@.len() > 0 ==> (r matches Some(t) && t.name@ == name@
            && t.cols@.map_values(|d: DbColumnDescription| description_view(d))
                == rows@.filter(|c: CatalogColumn| !(c.pk_pos > 0)).map_values(|c: CatalogColumn| described(c))
            && exists|keys: Seq<CatalogColumn>| {
                &&& sorted_by_pos(keys)
                &&& forall|k: i32| #[trigger] keys.filter(at_pk_pos(k)) == rows@.filter(at_pk_pos(k))
                &&& keys.len() == rows@.filter(in_pk()).len()
                &&& t.pk@.map_values(|d: DbColumnDescription| description_view(d)) == keys.map_values(
                    |c: CatalogColumn| described(c),
                )
            }),
{
    if rows.len() == 0 {
        return None;
    }
    let mut pos: Vec<i32> = Vec::new();
    let mut pk: Vec<DbColumnDescription> = Vec::new();
    let mut cols: Vec<DbColumnDescription> = Vec::new();
    let ghost mut key_rows: Seq<CatalogColumn> = Seq::empty();
    let mut i: usize = 0;
    proof {
        assert(rows@.take(0) =~= Seq::<CatalogColumn>::empty());
        reveal_with_fuel(Seq::filter, 1);
        assert(Seq::<CatalogColumn>::empty().filter(in_pk()) =~= Seq::<CatalogColumn>::empty());
        assert(Seq::<CatalogColumn>::empty().filter(|c: CatalogColumn| !(c.pk_pos > 0)) =~= Seq::<CatalogColumn>::empty());
        assert forall|k: i32| #[trigger] key_rows.filter(at_pk_pos(k)) == rows@.take(0).filter(at_pk_pos(k)) by {
            assert(Seq::<CatalogColumn>::empty().filter(at_pk_pos(k)) =~= Seq::<CatalogColumn>::empty());
        }
        assert(pk@.map_values(|d: DbColumnDescription| description_view(d)) =~= key_rows.map_values(
            |c: CatalogColumn| described(c),
        ));
        assert(cols@.map_values(|d: DbColumnDescription| description_view(d)) =~= Seq::<(Seq<char>, DbType, bool)>::empty());
    }
    while i < rows.len()
        invariant
            i <= rows@.len(),
            sorted_by_pos(key_rows),
            forall|j: int| 0 <= j < key_rows.len() ==> #[trigger] key_rows[j].pk_pos > 0,
            pos@.len() == key_rows.len(),
            pk@.len() == key_rows.len(),
            forall|j: int| 0 <= j < pos@.len() ==> #[trigger] pos@[j] == key_rows[j].pk_pos,
            key_rows.len() == rows@.take(i as int).filter(in_pk()).len(),
            forall|k: i32| #[trigger] key_rows.filter(at_pk_pos(k)) == rows@.take(i as int).filter(at_pk_pos(k)),
            pk@.map_values(|d: DbColumnDescription| description_view(d)) == key_rows.map_values(
                |c: CatalogColumn| described(c),
            ),
            cols@.map_values(|d: DbColumnDescription| description_view(d)) == rows@.take(i as int).filter(
                |c: CatalogColumn| !(c.pk_pos > 0),
            ).map_values(|c: CatalogColumn| described(c)),
        decreases rows@.len() - i,
    {
        let c = &rows[i];
        let ghost prev = rows@.take(i as int);
        proof {
            assert(rows@.take(i as int + 1) =~= prev.push(*c));
            prev.lemma_filter_push(*c, in_pk());
            prev.lemma_filter_push(*c, |c: CatalogColumn| !(c.pk_pos > 0));
        }
        if c.pk_pos > 0 {
            let mut p: usize = 0;
            while p < pos.len() && pos[p] <= c.pk_pos
                invariant
                    p <= pos@.len(),
                    pos@.len() == key_rows.len(),
                    pk@.len() == key_rows.len(),
                    forall|j: int| 0 <= j < pos@.len() ==> #[trigger] pos@[j] == key_rows[j].pk_pos,
                    forall|j: int| 0 <= j < p ==> pos@[j] <= c.pk_pos,
                decreases pos@.len() - p,
            {
                p += 1;
            }
            proof {
                assert forall|j: int| 0 <= j < p implies key_rows[j].pk_pos <= c.pk_pos by {
                    assert(pos@[j] == key_rows[j].pk_pos);
                }
                assert forall|j: int| p <= j < key_rows.len() implies key_rows[j].pk_pos > c.pk_pos by {
                    assert(pos@[p as int] == key_rows[p as int].pk_pos);
                    if pos@[p as int] <= c.pk_pos {
                        assert(false);
                    }
                    assert(key_rows[p as int].pk_pos <= key_rows[j].pk_pos);
                }
                lemma_insert_key(key_rows, p as int, *c);
            }
            let d = describe(c);
            let ghost pk0 = pk@;
            pk.insert(p, d);
            pos.insert(p, c.pk_pos);
            proof {
                let kr0 = key_rows;
                key_rows = key_rows.insert(p as int, *c);
                assert(pk@.map_values(|d: DbColumnDescription| description_view(d)) =~= key_rows.map_values(
                    |c: CatalogColumn| described(c),
                )) by {
                    assert forall|j: int| 0 <= j < pk@.len() implies description_view(#[trigger] pk@[j])
                        == described(key_rows[j]) by {
                        if j < p {
                            assert(pk@[j] == pk0[j]);
                            assert(key_rows[j] == kr0[j]);
                            assert(pk0.map_values(|d: DbColumnDescription| description_view(d))[j]
                                == kr0.map_values(|c: CatalogColumn| described(c))[j]);
                        } else if j > p {
                            assert(pk@[j] == pk0[j - 1]);
                            assert(key_rows[j] == kr0[j - 1]);
                            assert(pk0.map_values(|d: DbColumnDescription| description_view(d))[j - 1]
                                == kr0.map_values(|c: CatalogColumn| described(c))[j - 1]);
                        } else {
                            assert(pk@[j] == d);
                            assert(key_rows[j] == *c);
                        }
                    }
                }
                assert forall|j: int| 0 <= j < pos@.len() implies #[trigger] pos@[j] == key_rows[j].pk_pos by {
                    if j > p {
                        assert(key_rows[j] == kr0[j - 1]);
                    } else if j < p {
                        assert(key_rows[j] == kr0[j]);
                    }
                }
                assert forall|j: int| 0 <= j < key_rows.len() implies #[trigger] key_rows[j].pk_pos > 0 by {
                    if j > p {
                        assert(key_rows[j] == kr0[j - 1]);
                    } else if j < p {
                        assert(key_rows[j] == kr0[j]);
                    }
                }
                assert(cols@.map_values(|d: DbColumnDescription| description_view(d)) == rows@.take(i as int + 1).filter(
                    |c: CatalogColumn| !(c.pk_pos > 0),
                ).map_values(|c: CatalogColumn| described(c)));
                assert forall|k: i32| #[trigger] key_rows.filter(at_pk_pos(k)) == rows@.take(i as int + 1).filter(at_pk_pos(k)) by {
                    prev.lemma_filter_push(*c, at_pk_pos(k));
                }
            }
        } else {
            let d = describe(c);
            let ghost c0 = cols@;
            cols.push(d);
            proof {
                assert(cols@.map_values(|d: DbColumnDescription| description_view(d)) =~= c0.map_values(
                    |d: DbColumnDescription| description_view(d),
                ).push(described(*c)));
                assert forall|k: i32| #[trigger] key_rows.filter(at_pk_pos(k)) == rows@.take(i as int + 1).filter(at_pk_pos(k)) by {
                    prev.lemma_filter_push(*c, at_pk_pos(k));
                }
            }
        }
        i += 1;
    }
    proof {
        assert(rows@.take(rows@.len() as int) =~= rows@);
    }
    Some(DbTableDescriptor { name: String::from_str(name), pk, cols })
}

/// The type names the engine knows, told apart by their length and their
/// first and fourth characters.
proof fn lemma_type_names()
    ensures
        "int8"@.len() == 4 && "int8"@[0] == 'i' && "int8"@[3] == '8',
        "int4"@.len() == 4 && "int4"@[0] == 'i' && "int4"@[3] == '4',
        "int2"@.len() == 4 && "int2"@[0] == 'i' && "int2"@[3] == '2',
        "bool"@.len() == 4 && "bool"@[0] == 'b' && "bool"@[3] == 'l',
        "text"@.len() == 4 && "text"@[0] == 't' && "text"@[3] == 't',
        "varchar"@.len() == 7 && "varchar"@[0] == 'v' && "varchar"@[3] == 'c',
        "bpchar"@.len() == 6 && "bpchar"@[0] == 'b' && "bpchar"@[3] == 'h',
        "name"@.len() == 4 && "name"@[0] == 'n' && "name"@[3] == 'e',
        "bytea"@.len() == 5 && "bytea"@[0] == 'b' && "bytea"@[3] == 'e',
        "uuid"@.len() == 4 && "uuid"@[0] == 'u' && "uuid"@[3] == 'd',
{
    reveal_strlit("int8");
    reveal_strlit("int4");
    reveal_strlit("int2");
    reveal_strlit("bool");
    reveal_strlit("text");
    reveal_strlit("varchar");
    reveal_strlit("bpchar");
    reveal_strlit("name");
    reveal_strlit("bytea");
    reveal_strlit("uuid");
}

/// The type names the engine reads, each with the kind it reads it as: the
/// four text types as text, `int8`, `int4`, `int2` and `bool` as their
/// integers, `bytea` as bytes and `uuid` as a UUID; every other name is
/// refused.
pub proof fn law_result_kinds(pg_type: Seq<char>)
    ensures
        result_kind_spec(pg_type) == Some(ResultKind::Text)
            <==> pg_type == "text"@ || pg_type == "varchar"@ || pg_type == "bpchar"@ || pg_type == "name"@,
        result_kind_spec(pg_type) == Some(ResultKind::BigInt) <==> pg_type == "int8"@,
        result_kind_spec(pg_type) == Some(ResultKind::Int) <==> pg_type == "int4"@,
        result_kind_spec(pg_type) == Some(ResultKind::SmallInt) <==> pg_type == "int2"@,
        result_kind_spec(pg_type) == Some(ResultKind::Bool) <==> pg_type == "bool"@,
        result_kind_spec(pg_type) == Some(ResultKind::Bytes) <==> pg_type == "bytea"@,
        result_kind_spec(pg_type) == Some(ResultKind::Uuid) <==> pg_type == "uuid"@,
{
    lemma_type_names();
}

/// Introspection recognizes exactly the four types the engine writes, and a
/// result cell of each of them is read as the matching kind.
pub proof fn law_storage_types(pg_type: Seq<char>)
    ensures
        db_type_from_pg_spec(pg_type) == DbType::Integer <==> pg_type == "int8"@,
        db_type_from_pg_spec(pg_type) == DbType::Text <==> pg_type == "text"@,
        db_type_from_pg_spec(pg_type) == DbType::Blob <==> pg_type == "bytea"@,
        db_type_from_pg_spec(pg_type) == DbType::Uuid <==> pg_type == "uuid"@,
        db_type_from_pg_spec(pg_type) == DbType::Integer ==> result_kind_spec(pg_type) == Some(ResultKind::BigInt),
        db_type_from_pg_spec(pg_type) == DbType::Text ==> result_kind_spec(pg_type) == Some(ResultKind::Text),
        db_type_from_pg_spec(pg_type) == DbType::Blob ==> result_kind_spec(pg_type) == Some(ResultKind::Bytes),
        db_type_from_pg_spec(pg_type) == DbType::Uuid ==> result_kind_spec(pg_type) == Some(ResultKind::Uuid),
{
    lemma_type_names();
}

} // verus!
