use keyset_pagination::sql::BindValue;
use keyset_pagination::sql::ColumnRef;
use keyset_pagination::sql::CursorSpec;
use keyset_pagination::sql::Fragment;
use keyset_pagination::sql::KeysetPaginated;
use keyset_pagination::sql::SqlPiece;

fn sql(text: &str) -> SqlPiece {
    SqlPiece::Sql(text.to_string())
}

fn users_query() -> Fragment {
    Fragment {
        pieces: vec![sql(
            "SELECT \"users\".\"firstname\", \"users\".\"id\", \"users\".\"lastname\", \"users\".\"slug\" FROM \"users\"",
        )],
    }
}

fn slug_id_order() -> Fragment {
    Fragment { pieces: vec![sql("\"users\".\"slug\", \"users\".\"id\"")] }
}

fn paginated() -> KeysetPaginated {
    KeysetPaginated {
        query: users_query(),
        order: slug_id_order(),
        cursor: CursorSpec::ColumnValue {
            column: ColumnRef { table: "users".to_string(), name: "id".to_string() },
            value: BindValue::Int(2),
        },
        page_size: 2,
    }
}

#[test]
fn test_emit_sql_shape() {
    let (text, binds) = paginated().emit_sql();
    assert_eq!(
        text,
        "SELECT * FROM (SELECT \"users\".\"firstname\", \"users\".\"id\", \"users\".\"lastname\", \"users\".\"slug\" FROM \"users\") \"users\" WHERE (\"users\".\"slug\", \"users\".\"id\") > (SELECT \"users\".\"slug\", \"users\".\"id\" FROM \"users\" WHERE \"users\".\"id\" = $1) ORDER BY \"users\".\"slug\", \"users\".\"id\" LIMIT $2",
    );
    assert_eq!(binds, vec![BindValue::Int(2), BindValue::Int(2)]);
}

#[test]
fn test_emit_twice_identical() {
    let q = paginated();
    let (s1, b1) = q.emit_sql();
    let (s2, b2) = q.emit_sql();
    assert_eq!(s1, s2);
    assert_eq!(b1, b2);
}

#[test]
fn test_emit_predicate_form() {
    let q = KeysetPaginated {
        query: Fragment { pieces: vec![sql("SELECT * FROM \"users\"")] },
        order: slug_id_order(),
        cursor: CursorSpec::Predicate {
            table: "users".to_string(),
            predicate: Fragment {
                pieces: vec![
                    sql("\"users\".\"id\" = "),
                    SqlPiece::Bind(BindValue::Int(42)),
                    sql(" AND \"users\".\"slug\" = "),
                    SqlPiece::Bind(BindValue::Text("ab".to_string())),
                ],
            },
        },
        page_size: 20,
    };
    let (text, binds) = q.emit_sql();
    assert_eq!(
        text,
        "SELECT * FROM (SELECT * FROM \"users\") \"users\" WHERE (\"users\".\"slug\", \"users\".\"id\") > (SELECT \"users\".\"slug\", \"users\".\"id\" FROM \"users\" WHERE \"users\".\"id\" = $1 AND \"users\".\"slug\" = $2) ORDER BY \"users\".\"slug\", \"users\".\"id\" LIMIT $3",
    );
    assert_eq!(
        binds,
        vec![BindValue::Int(42), BindValue::Text("ab".to_string()), BindValue::Int(20)],
    );
}

#[test]
fn test_base_query_binds_come_first() {
    let q = KeysetPaginated {
        query: Fragment {
            pieces: vec![
                sql("SELECT * FROM \"t\" WHERE \"a\" > "),
                SqlPiece::Bind(BindValue::Int(7)),
            ],
        },
        order: Fragment { pieces: vec![sql("\"t\".\"id\"")] },
        cursor: CursorSpec::ColumnValue {
            column: ColumnRef { table: "t".to_string(), name: "id".to_string() },
            value: BindValue::Int(3),
        },
        page_size: 10,
    };
    let (text, binds) = q.emit_sql();
    assert_eq!(
        text,
        "SELECT * FROM (SELECT * FROM \"t\" WHERE \"a\" > $1) \"t\" WHERE (\"t\".\"id\") > (SELECT \"t\".\"id\" FROM \"t\" WHERE \"t\".\"id\" = $2) ORDER BY \"t\".\"id\" LIMIT $3",
    );
    assert_eq!(binds, vec![BindValue::Int(7), BindValue::Int(3), BindValue::Int(10)]);
}

#[test]
fn test_placeholder_numbering_two_digits() {
    // ten binds in the base query push later placeholders past $9
    let mut pieces = vec![sql("SELECT * FROM \"t\" WHERE \"c\" IN (")];
    for i in 0..10 {
        if i > 0 {
            pieces.push(sql(", "));
        }
        pieces.push(SqlPiece::Bind(BindValue::Int(i)));
    }
    pieces.push(sql(")"));
    let q = KeysetPaginated {
        query: Fragment { pieces },
        order: Fragment { pieces: vec![sql("\"t\".\"id\"")] },
        cursor: CursorSpec::ColumnValue {
            column: ColumnRef { table: "t".to_string(), name: "id".to_string() },
            value: BindValue::Int(7),
        },
        page_size: 50,
    };
    let (text, binds) = q.emit_sql();
    assert!(text.contains("($1, $2, $3, $4, $5, $6, $7, $8, $9, $10)"));
    assert!(text.contains("\"t\".\"id\" = $11"));
    assert!(text.ends_with("LIMIT $12"));
    assert_eq!(binds.len(), 12);
}
