use ubiquisync::sql::postgres::{
    db_type_from_pg, describe_table_rows, result_kind, server_error, unsupported_type_error,
    CatalogColumn, ResultKind,
};
use ubiquisync::sql::schema::DbType;
use ubiquisync::sql::value::DbError;

#[test]
fn introspected_types() {
    assert_eq!(db_type_from_pg("int8"), DbType::Integer);
    assert_eq!(db_type_from_pg("text"), DbType::Text);
    assert_eq!(db_type_from_pg("bytea"), DbType::Blob);
    assert_eq!(db_type_from_pg("uuid"), DbType::Uuid);
    assert_eq!(db_type_from_pg("int4"), DbType::Other);
    assert_eq!(db_type_from_pg("numeric"), DbType::Other);
}

#[test]
fn result_types() {
    assert_eq!(result_kind("int8"), Some(ResultKind::BigInt));
    assert_eq!(result_kind("int4"), Some(ResultKind::Int));
    assert_eq!(result_kind("int2"), Some(ResultKind::SmallInt));
    assert_eq!(result_kind("bool"), Some(ResultKind::Bool));
    assert_eq!(result_kind("varchar"), Some(ResultKind::Text));
    assert_eq!(result_kind("name"), Some(ResultKind::Text));
    assert_eq!(result_kind("bytea"), Some(ResultKind::Bytes));
    assert_eq!(result_kind("uuid"), Some(ResultKind::Uuid));
    assert_eq!(result_kind("float8"), None);
    match unsupported_type_error("float8", 3) {
        DbError::Sql(m) => assert_eq!(m, "unsupported postgres type `float8` in result column 3"),
        _ => panic!("expected a sql error"),
    }
}

#[test]
fn server_errors() {
    assert!(matches!(server_error("23505", "duplicate key"), DbError::UniqueViolation));
    match server_error("25006", "cannot execute INSERT in a read-only transaction") {
        DbError::Sql(m) => assert_eq!(m, "25006: cannot execute INSERT in a read-only transaction"),
        _ => panic!("expected a sql error"),
    }
}

fn col(name: &str, ty: &str, not_null: bool, pk_pos: i32) -> CatalogColumn {
    CatalogColumn { name: name.to_string(), pg_type: ty.to_string(), not_null, pk_pos }
}

#[test]
fn table_descriptions_order_the_key() {
    assert!(describe_table_rows("t", &vec![]).is_none());
    let rows = vec![
        col("c", "text", false, 0),
        col("b", "int8", true, 2),
        col("a", "uuid", true, 1),
        col("d", "int4", true, 0),
    ];
    let t = describe_table_rows("t", &rows).unwrap();
    assert_eq!(t.name, "t");
    let pk: Vec<(&str, DbType, bool)> = t.pk.iter().map(|c| (c.name.as_str(), c.db_type, c.nullable)).collect();
    assert_eq!(pk, vec![("a", DbType::Uuid, false), ("b", DbType::Integer, false)]);
    let cols: Vec<(&str, DbType, bool)> = t.cols.iter().map(|c| (c.name.as_str(), c.db_type, c.nullable)).collect();
    assert_eq!(cols, vec![("c", DbType::Text, true), ("d", DbType::Other, false)]);
}
