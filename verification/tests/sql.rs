use ubiquisync::sql::query::{insert_cols_batch, prep_insert_cols, update_cols_batch};
use ubiquisync::sql::query::{build_delete, build_insert, build_select, build_update};
use ubiquisync::sql::query::{ColumnEq, DeleteQuery, InsertQuery, SelectQuery, UpdateQuery};
use ubiquisync::sql::batch::{StatementBatch, StmtId};
use ubiquisync::sql::dialect::{PlaceholderGen, SqlDialect};
use ubiquisync::sql::hlc_storage::{create_sql, hlc_table, load_sql, persist_sql, SqlHlcStorage};
use ubiquisync::sql::query::{db_to_value, value_to_db, values_to_db, QueryValue};
use ubiquisync::sql::row::{DbRow, Rows};
use ubiquisync::sql::schema::{
    quote_ident, table, table_with_auto_id, CreateColDef, CreatePrimaryKeyDef, DbType,
};
use ubiquisync::sql::status::{HeadErr, StatusDecodeError, UnknownSoftwareVersion};
use ubiquisync::sql::value::{DbError, DbValue, ValueBinder};
use ubiquisync::tables::{ColType, PkColType, PostgresDialect};

fn row(values: Vec<DbValue>) -> DbRow {
    DbRow { values }
}

fn col(name: &str, db_type: DbType) -> CreateColDef {
    CreateColDef { name: name.to_string(), db_type, nullable: false, default_zero: false }
}

#[test]
fn placeholder_syntax_per_dialect() {
    assert_eq!(SqlDialect::Sqlite.placeholder(3), "?3");
    assert_eq!(SqlDialect::Postgres.placeholder(3), "$3");
}

#[test]
fn scalar_max_per_dialect() {
    assert_eq!(SqlDialect::Sqlite.scalar_max(), "MAX");
    assert_eq!(SqlDialect::Postgres.scalar_max(), "GREATEST");
}

#[test]
fn text_collate_per_dialect() {
    assert_eq!(SqlDialect::Sqlite.text_collate(), "");
    assert_eq!(SqlDialect::Postgres.text_collate(), " COLLATE \"C\"");
}

#[test]
fn conflict_ignore_per_dialect() {
    assert_eq!(SqlDialect::Sqlite.insert_ignore_verb(), "INSERT OR IGNORE");
    assert_eq!(SqlDialect::Sqlite.conflict_ignore_clause("\"id\""), "");
    assert_eq!(SqlDialect::Postgres.insert_ignore_verb(), "INSERT");
    assert_eq!(
        SqlDialect::Postgres.conflict_ignore_clause("\"id\""),
        " ON CONFLICT (\"id\") DO NOTHING"
    );
}

#[test]
fn without_rowid_per_dialect() {
    assert_eq!(SqlDialect::Sqlite.without_rowid(), " WITHOUT ROWID");
    assert_eq!(SqlDialect::Postgres.without_rowid(), "");
}

#[test]
fn placeholder_renders_multi_digit_numbers() {
    assert_eq!(SqlDialect::Sqlite.placeholder(0), "?0");
    assert_eq!(SqlDialect::Postgres.placeholder(1234), "$1234");
}

#[test]
fn placeholder_gen_counts_from_one() {
    let mut g = PlaceholderGen::new(SqlDialect::Postgres);
    assert_eq!(g.next(), "$1");
    assert_eq!(g.next(), "$2");
    assert_eq!(g.next(), "$3");
}

#[test]
fn value_binder_returns_placeholders_in_bind_order() {
    let mut b = ValueBinder::new(SqlDialect::Sqlite);
    assert_eq!(b.bind_next(DbValue::Integer(7)), "?1");
    assert_eq!(b.bind_next(DbValue::Text("x".to_string())), "?2");
    let values = b.values();
    assert_eq!(values.len(), 2);
    assert!(matches!(values[0], DbValue::Integer(7)));
    assert!(matches!(&values[1], DbValue::Text(s) if s == "x"));
}

#[test]
fn sql_type_maps_to_sqlite_names() {
    assert_eq!(DbType::Integer.sql_type(SqlDialect::Sqlite), "INTEGER");
    assert_eq!(DbType::Text.sql_type(SqlDialect::Sqlite), "TEXT");
    assert_eq!(DbType::Blob.sql_type(SqlDialect::Sqlite), "BLOB");
    assert_eq!(DbType::Uuid.sql_type(SqlDialect::Sqlite), "BLOB");
}

#[test]
fn sql_type_maps_to_postgres_names() {
    assert_eq!(DbType::Integer.sql_type(SqlDialect::Postgres), "BIGINT");
    assert_eq!(DbType::Text.sql_type(SqlDialect::Postgres), "TEXT");
    assert_eq!(DbType::Blob.sql_type(SqlDialect::Postgres), "BYTEA");
    assert_eq!(DbType::Uuid.sql_type(SqlDialect::Postgres), "UUID");
}

#[test]
fn col_types_map_to_documented_postgres_types() {
    let d = PostgresDialect;
    assert_eq!(d.col_type(ColType::Bytes), "BYTEA");
    assert_eq!(d.col_type(ColType::Text), "TEXT");
    assert_eq!(d.col_type(ColType::I64), "BIGINT");
    assert_eq!(d.col_type(ColType::Uuid), "BYTEA");
    assert_eq!(d.col_type(ColType::MaxI64), "BIGINT");
}

#[test]
fn pk_col_types_map_to_documented_postgres_types() {
    let d = PostgresDialect;
    assert_eq!(d.pk_col_type(PkColType::Bytes), "BYTEA");
    assert_eq!(d.pk_col_type(PkColType::Uuid), "BYTEA");
    assert_eq!(d.pk_col_type(PkColType::Text), "TEXT");
    assert_eq!(d.pk_col_type(PkColType::I64), "BIGINT");
}

#[test]
fn db_types_valid_for_protocol_types() {
    assert!(DbType::Blob.is_valid_for(ColType::Bytes));
    assert!(!DbType::Text.is_valid_for(ColType::Bytes));
    assert!(DbType::Uuid.is_valid_for(ColType::Uuid));
    assert!(DbType::Blob.is_valid_for(ColType::Uuid));
    assert!(!DbType::Integer.is_valid_for(ColType::Uuid));
    assert!(DbType::Integer.is_valid_for(ColType::MaxI64));
    assert!(DbType::Integer.is_valid_for(ColType::I64));
    assert!(!DbType::Other.is_valid_for(ColType::Text));
}

#[test]
fn test_create_table() {
    let user = table("user", &[col("id", DbType::Uuid)], &[]);
    let user_device = table("user_device", &[col("user", DbType::Uuid), col("device", DbType::Uuid)], &[]);
    let entry = table_with_auto_id("entry", "id", &[col("bytes", DbType::Blob), col("ts", DbType::Integer)]);
    assert_eq!(
        user.create_table_sql(SqlDialect::Sqlite),
        "CREATE TABLE \"user\" (\"id\" BLOB NOT NULL, PRIMARY KEY(\"id\")) WITHOUT ROWID;"
    );
    assert_eq!(
        user_device.create_table_sql(SqlDialect::Sqlite),
        "CREATE TABLE \"user_device\" (\"user\" BLOB NOT NULL, \"device\" BLOB NOT NULL, PRIMARY KEY(\"user\", \"device\")) WITHOUT ROWID;"
    );
    assert_eq!(
        entry.create_table_sql(SqlDialect::Sqlite),
        "CREATE TABLE \"entry\" (\"id\" INTEGER PRIMARY KEY AUTOINCREMENT, \"bytes\" BLOB NOT NULL, \"ts\" INTEGER NOT NULL);"
    );
    assert_eq!(
        user.create_table_sql(SqlDialect::Postgres),
        "CREATE TABLE \"user\" (\"id\" UUID NOT NULL, PRIMARY KEY(\"id\"));"
    );
    assert_eq!(
        user_device.create_table_sql(SqlDialect::Postgres),
        "CREATE TABLE \"user_device\" (\"user\" UUID NOT NULL, \"device\" UUID NOT NULL, PRIMARY KEY(\"user\", \"device\"));"
    );
    assert_eq!(
        entry.create_table_sql(SqlDialect::Postgres),
        "CREATE TABLE \"entry\" (\"id\" BIGINT GENERATED ALWAYS AS IDENTITY PRIMARY KEY, \"bytes\" BYTEA NOT NULL, \"ts\" BIGINT NOT NULL);"
    );
}

#[test]
fn nullable_and_default_zero_columns_render_null() {
    let t = table(
        "t",
        &[col("k", DbType::Text)],
        &[col("a", DbType::Integer).nullable(), col("b", DbType::Integer).default_zero()],
    );
    assert_eq!(
        t.create_table_sql(SqlDialect::Sqlite),
        "CREATE TABLE \"t\" (\"k\" TEXT NOT NULL, \"a\" INTEGER NULL, \"b\" INTEGER NULL, PRIMARY KEY(\"k\")) WITHOUT ROWID;"
    );
    let zero = CreateColDef { name: "z".to_string(), db_type: DbType::Integer, nullable: false, default_zero: true };
    let t2 = table("t2", &[], &[zero]);
    assert_eq!(t2.create_table_sql(SqlDialect::Postgres), "CREATE TABLE \"t2\" (\"z\" BIGINT NOT NULL DEFAULT 0, PRIMARY KEY());");
}

#[test]
fn with_unique_records_a_column_group() {
    let t = table("t", &[col("k", DbType::Text)], &[]).with_unique(&["a", "b"]).with_unique(&["c"]);
    assert_eq!(t.unique, vec![vec!["a".to_string(), "b".to_string()], vec!["c".to_string()]]);
    assert!(matches!(t.pk, CreatePrimaryKeyDef::Columns(ref c) if c.len() == 1));
}

#[test]
fn quote_ident_doubles_inner_quotes() {
    assert_eq!(quote_ident("plain"), "\"plain\"");
    assert_eq!(quote_ident("a\"b"), "\"a\"\"b\"");
    assert_eq!(quote_ident(""), "\"\"");
}

#[test]
fn from_u64_round_trips_through_get_u64() {
    for v in [0u64, 1, 1_700_000_000_000 << 16, i64::MAX as u64] {
        let DbValue::Integer(stored) = DbValue::from_u64(v).unwrap() else {
            panic!("from_u64 must produce an Integer");
        };
        let row = DbRow { values: vec![DbValue::Integer(stored)] };
        assert_eq!(row.get_u64(0).unwrap(), v);
    }
}

#[test]
fn from_u64_rejects_values_past_i64_max() {
    assert!(matches!(
        DbValue::from_u64(i64::MAX as u64 + 1),
        Err(DbError::IntegerOutOfRange(_))
    ));
    assert!(matches!(DbValue::from_u64(u64::MAX), Err(DbError::IntegerOutOfRange(_))));
}

#[test]
fn get_u64_rejects_negative_stored_value() {
    let row = DbRow { values: vec![DbValue::Integer(-1)] };
    assert!(matches!(row.get_u64(0), Err(DbError::IntegerOutOfRange(_))));
}

#[test]
fn get_optional_u64_passes_null_through_and_still_guards_range() {
    let null_row = DbRow { values: vec![DbValue::Null] };
    assert_eq!(null_row.get_optional_u64(0).unwrap(), None);

    let value_row = DbRow { values: vec![DbValue::Integer(42)] };
    assert_eq!(value_row.get_optional_u64(0).unwrap(), Some(42));

    let negative_row = DbRow { values: vec![DbValue::Integer(-1)] };
    assert!(matches!(negative_row.get_optional_u64(0), Err(DbError::IntegerOutOfRange(_))));
}

#[test]
fn from_u64_error_keeps_the_value() {
    assert!(matches!(DbValue::from_u64(u64::MAX), Err(DbError::IntegerOutOfRange(v)) if v == u64::MAX as i128));
    assert!(matches!(DbValue::from_u64(5), Ok(DbValue::Integer(5))));
    assert_eq!(DbValue::Null.db_type(), None);
    assert_eq!(DbValue::Blob(vec![1]).db_type(), Some(DbType::Blob));
    assert_eq!(DbValue::Uuid([0; 16]).db_type(), Some(DbType::Uuid));
}

#[test]
fn getters_report_each_error() {
    let r = row(vec![
        DbValue::Integer(3),
        DbValue::Text("hi".to_string()),
        DbValue::Null,
        DbValue::Blob(vec![1, 2, 3]),
    ]);
    assert_eq!(r.get_i64(0).unwrap(), 3);
    assert_eq!(r.get_text(1).unwrap(), "hi");
    assert_eq!(r.get_blob(3).unwrap(), &[1u8, 2, 3][..]);
    assert!(matches!(r.get_i64(1), Err(DbError::TypeMismatch { col: 1, expected: "i64" })));
    assert!(matches!(r.get_text(0), Err(DbError::TypeMismatch { col: 0, expected: "String" })));
    assert!(matches!(r.get_blob(0), Err(DbError::TypeMismatch { col: 0, expected: "Vec<u8>" })));
    assert!(matches!(r.get_i64(2), Err(DbError::UnexpectedNull(2))));
    assert!(matches!(r.get_i64(9), Err(DbError::ColumnOutOfBounds(9))));
    assert_eq!(r.get_optional_i64(2).unwrap(), None);
    assert_eq!(r.get_optional_text(1).unwrap(), Some("hi"));
    assert_eq!(r.get_optional_blob(2).unwrap(), None);
    assert!(matches!(r.get_optional_text(9), Err(DbError::ColumnOutOfBounds(9))));
    assert!(matches!(r.get_optional_i64(1), Err(DbError::TypeMismatch { col: 1, .. })));
}

#[test]
fn get_bool_reads_integers() {
    let r = row(vec![DbValue::Integer(0), DbValue::Integer(-5), DbValue::Text("1".to_string())]);
    assert_eq!(r.get_bool(0).unwrap(), false);
    assert_eq!(r.get_bool(1).unwrap(), true);
    assert!(matches!(r.get_bool(2), Err(DbError::TypeMismatch { col: 2, expected: "bool/integer" })));
}

#[test]
fn get_uuid_accepts_native_and_sixteen_byte_blobs() {
    let id: [u8; 16] = [9; 16];
    let r = row(vec![
        DbValue::Uuid(id),
        DbValue::Blob((0u8..16).collect()),
        DbValue::Blob(vec![1, 2, 3]),
        DbValue::Integer(1),
        DbValue::Null,
    ]);
    assert_eq!(r.get_uuid(0).unwrap(), id);
    let expected: [u8; 16] = [0, 1, 2, 3, 4, 5, 6, 7, 8, 9, 10, 11, 12, 13, 14, 15];
    assert_eq!(r.get_uuid(1).unwrap(), expected);
    assert!(matches!(r.get_uuid(2), Err(DbError::TypeMismatch { col: 2, expected: "16-byte UUID blob" })));
    assert!(matches!(r.get_uuid(3), Err(DbError::TypeMismatch { col: 3, expected: "Uuid" })));
    assert!(matches!(r.get_uuid(4), Err(DbError::UnexpectedNull(4))));
    assert_eq!(r.get_optional_uuid(4).unwrap(), None);
    assert_eq!(r.get_optional_uuid(0).unwrap(), Some(id));
}

#[test]
fn rows_count_checks() {
    let empty = Rows::new(vec![]);
    assert!(empty.is_empty());
    assert!(empty.first().is_none());
    assert!(matches!(empty.one(), Ok(None)));
    assert!(matches!(empty.exactly_one(), Err(DbError::UnexpectedRowCount { got: 0 })));

    let one = Rows::new(vec![row(vec![DbValue::Integer(1)])]);
    assert_eq!(one.len(), 1);
    assert_eq!(one.exactly_one().unwrap().get_i64(0).unwrap(), 1);
    assert_eq!(one.one().unwrap().unwrap().get_i64(0).unwrap(), 1);

    let two = Rows::new(vec![row(vec![DbValue::Integer(1)]), row(vec![DbValue::Integer(2)])]);
    assert!(matches!(two.one(), Err(DbError::UnexpectedRowCount { got: 2 })));
    assert!(matches!(two.exactly_one(), Err(DbError::UnexpectedRowCount { got: 2 })));
    assert_eq!(two.first().unwrap().get_i64(0).unwrap(), 1);
    let all = two.iter();
    assert_eq!(all.len(), 2);
    assert_eq!(all[1].get_i64(0).unwrap(), 2);
}

#[test]
fn hlc_register_statements() {
    let t = hlc_table("app");
    assert_eq!(t, "\"app__hlc\"");
    assert_eq!(
        create_sql(&t, SqlDialect::Sqlite),
        "CREATE TABLE IF NOT EXISTS \"app__hlc\" (\n    id INTEGER PRIMARY KEY CHECK (id = 1),\n    ts INTEGER NOT NULL DEFAULT 0\n)"
    );
    assert_eq!(load_sql(&t), "SELECT ts FROM \"app__hlc\" WHERE id = 1");
    assert_eq!(
        persist_sql(&t, SqlDialect::Postgres),
        "INSERT INTO \"app__hlc\" (id, ts) VALUES (1, $1) ON CONFLICT(id) DO UPDATE SET ts = GREATEST(COALESCE(ts, 0), EXCLUDED.ts)"
    );
    assert_eq!(
        persist_sql(&t, SqlDialect::Sqlite),
        "INSERT INTO \"app__hlc\" (id, ts) VALUES (1, ?1) ON CONFLICT(id) DO UPDATE SET ts = MAX(COALESCE(ts, 0), EXCLUDED.ts)"
    );
}

#[test]
fn hlc_storage_seeds_from_register_and_queues_saves() {
    let fresh = SqlHlcStorage::from_rows("\"h\"", SqlDialect::Sqlite, &vec![]).unwrap();
    assert_eq!(fresh.load().unwrap(), None);

    let seeded = SqlHlcStorage::from_rows("\"h\"", SqlDialect::Sqlite, &vec![row(vec![DbValue::Integer(77)])]).unwrap();
    assert_eq!(seeded.load().unwrap(), Some(77));

    let bad = SqlHlcStorage::from_rows("\"h\"", SqlDialect::Sqlite, &vec![row(vec![DbValue::Text("x".to_string())])]);
    assert!(matches!(bad, Err(DbError::TypeMismatch { col: 0, .. })));

    let mut batch = StatementBatch::new(SqlDialect::Sqlite);
    seeded.save(&mut batch, 123).unwrap();
    assert_eq!(batch.len(), 1);
    let stmts = batch.into_statements();
    assert_eq!(stmts[0].0, persist_sql("\"h\"", SqlDialect::Sqlite));
    assert!(matches!(stmts[0].1[..], [DbValue::Integer(123)]));
}

#[test]
fn batch_ids_are_positions() {
    let mut batch = StatementBatch::new(SqlDialect::Postgres);
    assert_eq!(batch.dialect(), SqlDialect::Postgres);
    assert_eq!(batch.add_statement("A", &[]), StmtId(0));
    assert_eq!(batch.add_statement("B", &[DbValue::Null, DbValue::Blob(vec![4])]), StmtId(1));
    let stmts = batch.into_statements();
    assert_eq!(stmts[1].0, "B");
    assert!(matches!(&stmts[1].1[..], [DbValue::Null, DbValue::Blob(b)] if b == &vec![4u8]));
}

#[test]
fn unknown_software_version_round_trips() {
    for v in [
        UnknownSoftwareVersion::EntryType(3),
        UnknownSoftwareVersion::OpType(0),
        UnknownSoftwareVersion::CipherSuite(255),
    ] {
        let mut out = vec![7u8];
        v.encode(&mut out);
        assert_eq!(out.len(), 3);
        let mut pos = 1usize;
        assert_eq!(UnknownSoftwareVersion::decode(&out, &mut pos).unwrap(), v);
        assert_eq!(pos, 3);
    }
    let mut out = vec![];
    UnknownSoftwareVersion::OpType(9).encode(&mut out);
    assert_eq!(out, vec![1, 9]);
}

#[test]
fn unknown_software_version_decode_errors() {
    let mut pos = 0usize;
    assert_eq!(UnknownSoftwareVersion::decode(&[5, 1], &mut pos), Err(StatusDecodeError::UnknownTag(5)));
    assert_eq!(pos, 2);
    let mut pos = 0usize;
    assert_eq!(UnknownSoftwareVersion::decode(&[0], &mut pos), Err(StatusDecodeError::UnexpectedEnd));
    assert_eq!(pos, 1);
    let mut pos = 0usize;
    assert_eq!(HeadErr::decode(&[], &mut pos), Ok(HeadErr::Todo));
    let mut out = vec![];
    HeadErr::Todo.encode(&mut out);
    assert!(out.is_empty());
}

#[test]
fn bound_values_become_db_values() {
    assert!(matches!(value_to_db(QueryValue::Bool(Some(true))), Ok(DbValue::Integer(1))));
    assert!(matches!(value_to_db(QueryValue::TinyInt(Some(-3))), Ok(DbValue::Integer(-3))));
    assert!(matches!(value_to_db(QueryValue::Unsigned(Some(u32::MAX))), Ok(DbValue::Integer(4294967295))));
    assert!(matches!(value_to_db(QueryValue::BigUnsigned(Some(u64::MAX))), Err(DbError::IntegerOutOfRange(_))));
    assert!(matches!(value_to_db(QueryValue::Int(None)), Ok(DbValue::Null)));
    assert!(matches!(value_to_db(QueryValue::Uuid(Some([1; 16]))), Ok(DbValue::Uuid(u)) if u == [1; 16]));
    match value_to_db(QueryValue::Other("Float(Some(1.5))".to_string())) {
        Err(DbError::Sql(m)) => assert_eq!(m, "unsupported value bound into query: Float(Some(1.5))"),
        _ => panic!("expected a sql error"),
    }
    let all = values_to_db(vec![QueryValue::BigInt(Some(4)), QueryValue::String(Some("s".to_string()))]).unwrap();
    assert!(matches!(&all[..], [DbValue::Integer(4), DbValue::Text(s)] if s == "s"));
    assert!(values_to_db(vec![QueryValue::BigInt(Some(4)), QueryValue::Other("x".to_string())]).is_err());
    assert!(matches!(db_to_value(DbValue::Null), QueryValue::Bytes(None)));
    assert!(matches!(db_to_value(DbValue::Uuid([2; 16])), QueryValue::Bytes(Some(b)) if b == vec![2u8; 16]));
}

fn text(s: &str) -> String {
    s.to_string()
}

fn eq(column: &str, value: QueryValue) -> ColumnEq {
    ColumnEq { column: text(column), value }
}

#[test]
fn built_statements_bring_their_values_in() {
    let insert = InsertQuery {
        table: text("t"),
        columns: vec![text("a"), text("b")],
        rows: vec![vec![QueryValue::BigInt(Some(5)), QueryValue::String(Some(text("x")))]],
        returning: None,
    };
    // Row values are constants of the statement text, not bound parameters.
    let (sql, values) = build_insert(&insert, SqlDialect::Sqlite).unwrap();
    assert_eq!(sql, "INSERT INTO \"t\" (\"a\", \"b\") VALUES (5, 'x')");
    assert!(values.is_empty());
    let (pg_sql, _) = build_insert(&insert, SqlDialect::Postgres).unwrap();
    assert_eq!(pg_sql, "INSERT INTO \"t\" (\"a\", \"b\") VALUES (5, 'x')");

    let select = SelectQuery {
        table: text("t"),
        columns: vec![text("a")],
        conditions: vec![eq("a", QueryValue::Unsigned(Some(7)))],
    };
    let (sql, values) = build_select(&select, SqlDialect::Sqlite).unwrap();
    assert_eq!(sql, "SELECT \"a\" FROM \"t\" WHERE \"a\" = ?");
    assert!(matches!(&values[..], [DbValue::Integer(7)]));
    let (pg_sql, _) = build_select(&select, SqlDialect::Postgres).unwrap();
    assert_eq!(pg_sql, "SELECT \"a\" FROM \"t\" WHERE \"a\" = $1");

    let too_big = SelectQuery {
        table: text("t"),
        columns: vec![text("a")],
        conditions: vec![eq("a", QueryValue::BigUnsigned(Some(u64::MAX)))],
    };
    assert!(matches!(build_select(&too_big, SqlDialect::Postgres), Err(DbError::IntegerOutOfRange(_))));

    let delete = DeleteQuery {
        table: text("t"),
        conditions: vec![eq("a", QueryValue::Bool(Some(true))), eq("b", QueryValue::String(None))],
    };
    let (sql, values) = build_delete(&delete, SqlDialect::Sqlite).unwrap();
    assert!(sql.starts_with("DELETE FROM \"t\" WHERE"), "{sql}");
    assert!(matches!(&values[..], [DbValue::Integer(1), DbValue::Null]));

    let update = UpdateQuery {
        table: text("t"),
        sets: vec![(text("a"), QueryValue::Bool(Some(true)))],
        conditions: vec![eq("id", QueryValue::Int(Some(3)))],
    };
    let (sql, values) = build_update(&update, SqlDialect::Postgres).unwrap();
    assert!(sql.starts_with("UPDATE \"t\" SET \"a\" = TRUE WHERE \"id\" = $1"), "{sql}");
    assert!(matches!(&values[..], [DbValue::Integer(3)]));
}

#[test]
fn insert_and_update_statements_from_columns() {
    let cols = vec![text("a"), text("b")];
    let mut stmt = InsertQuery { table: text("t"), columns: vec![], rows: vec![], returning: None };
    let (sql, values) = prep_insert_cols(
        vec![DbValue::Integer(1), DbValue::Text(text("x"))],
        cols.clone(),
        vec![text("id")],
        &mut stmt,
        SqlDialect::Postgres,
    )
    .unwrap();
    assert_eq!(sql, "INSERT INTO \"t\" (\"a\", \"b\") VALUES (1, 'x') RETURNING \"id\"");
    assert!(values.is_empty());
    assert_eq!(stmt.columns, cols);
    assert_eq!(stmt.rows.len(), 1);
    assert_eq!(stmt.returning, Some(vec![text("id")]));

    // No returned column: no RETURNING clause.
    let mut plain = InsertQuery { table: text("t"), columns: vec![], rows: vec![], returning: None };
    let (sql, _) = prep_insert_cols(vec![DbValue::Null, DbValue::Integer(2)], cols.clone(), vec![], &mut plain, SqlDialect::Sqlite).unwrap();
    assert_eq!(sql, "INSERT INTO \"t\" (\"a\", \"b\") VALUES (NULL, 2)");
    assert_eq!(plain.returning, None);

    let mut short = InsertQuery { table: text("t"), columns: vec![], rows: vec![], returning: None };
    assert!(matches!(
        prep_insert_cols(vec![DbValue::Integer(1)], cols.clone(), vec![], &mut short, SqlDialect::Sqlite),
        Err(DbError::ColumnValueCountMismatch { cols: 2, vals: 1 })
    ));
    assert!(short.rows.is_empty());

    let mut batch = StatementBatch::new(SqlDialect::Sqlite);
    let mut ins = InsertQuery { table: text("t"), columns: vec![], rows: vec![], returning: None };
    insert_cols_batch(&mut batch, vec![DbValue::Null, DbValue::Blob(vec![1])], cols.clone(), &mut ins).unwrap();
    let mut upd = UpdateQuery { table: text("t"), sets: vec![], conditions: vec![eq("id", QueryValue::BigInt(Some(9)))] };
    update_cols_batch(&mut batch, vec![DbValue::Integer(3)], &cols, &mut upd).unwrap();
    let mut bad = InsertQuery { table: text("t"), columns: vec![], rows: vec![], returning: None };
    assert!(insert_cols_batch(&mut batch, vec![DbValue::Null], cols.clone(), &mut bad).is_err());
    assert_eq!(batch.len(), 2);
    let stmts = batch.into_statements();
    assert_eq!(stmts[0].0, "INSERT INTO \"t\" (\"a\", \"b\") VALUES (NULL, x'01')");
    assert!(stmts[0].1.is_empty());
    assert_eq!(stmts[1].0, "UPDATE \"t\" SET \"a\" = 3 WHERE \"id\" = ?");
    assert!(matches!(&stmts[1].1[..], [DbValue::Integer(9)]));
}
