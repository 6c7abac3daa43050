use wackdb::sql::{parse_sql, try_parse_sql, Ast, ColumnDef, JoinClause, LogicOp, Operator, WhereCondition};

fn cond(l: &str, op: Operator, r: &str, next: Option<LogicOp>) -> WhereCondition {
    WhereCondition { left_col: l.to_string(), operator: op, right_val: r.to_string(), next_logic: next }
}

#[test]
fn sql_select_with_join_where_order() {
    let ast = parse_sql(
        "select a.id, b.name FROM users a JOIN orders b ON a.id = b.uid WHERE a.id >= 3 and b.name = 'x' ORDER BY name;",
    )
    .unwrap();
    assert_eq!(
        ast,
        Ast::Select {
            columns: vec!["id".to_string(), "name".to_string()],
            table: "users".to_string(),
            table_alias: Some("a".to_string()),
            join: vec![JoinClause {
                table: "orders".to_string(),
                alias: Some("b".to_string()),
                left_col: "id".to_string(),
                right_col: "uid".to_string(),
            }],
            where_clause: vec![
                cond("id", Operator::Gte, "3", Some(LogicOp::And)),
                cond("name", Operator::Eq, "x", None),
            ],
            order_by: Some("name".to_string()),
        }
    );
}

#[test]
fn sql_select_star_and_missing_from() {
    let ast = parse_sql("SELECT * FROM t").unwrap();
    assert_eq!(
        ast,
        Ast::Select {
            columns: vec!["*".to_string()],
            table: "t".to_string(),
            table_alias: None,
            join: vec![],
            where_clause: vec![],
            order_by: None,
        }
    );
    assert_eq!(parse_sql("SELECT x"), Err("Missing FROM clause".to_string()));
    assert_eq!(parse_sql("SELECT a FROM t JOIN u WHERE x = 1"), Err("Missing ON clause in JOIN".to_string()));
    assert_eq!(parse_sql("UPDATE t SET a = 1"), Err("Unsupported SQL statement".to_string()));
}

#[test]
fn sql_comments_and_whitespace_are_normalized() {
    let ast = parse_sql("SELECT   id\n  FROM   t -- a comment\n WHERE id != 2 or id < 7").unwrap();
    assert_eq!(
        ast,
        Ast::Select {
            columns: vec!["id".to_string()],
            table: "t".to_string(),
            table_alias: None,
            join: vec![],
            where_clause: vec![
                cond("id", Operator::Neq, "2", Some(LogicOp::Or)),
                cond("id", Operator::Lt, "7", None),
            ],
            order_by: None,
        }
    );
}

#[test]
fn sql_insert_create_drop_delete() {
    assert_eq!(
        parse_sql("INSERT INTO users VALUES (1, 'bob', true);").unwrap(),
        Ast::Insert {
            table: "users".to_string(),
            values: vec!["1".to_string(), "bob".to_string(), "true".to_string()],
        }
    );
    assert_eq!(parse_sql("INSERT INTO users (1)"), Err("Missing VALUES clause".to_string()));
    assert_eq!(
        parse_sql("CREATE TABLE IF NOT EXISTS users (id INTEGER, name VARCHAR)").unwrap(),
        Ast::CreateTable {
            table: "users".to_string(),
            columns: vec![
                ColumnDef { name: "id".to_string(), data_type: "INTEGER".to_string() },
                ColumnDef { name: "name".to_string(), data_type: "VARCHAR".to_string() },
            ],
            if_not_exists: true,
        }
    );
    assert_eq!(
        parse_sql("DROP TABLE IF EXISTS users").unwrap(),
        Ast::DropTable { table: "users".to_string(), if_exists: true }
    );
    assert_eq!(
        parse_sql("drop table users").unwrap(),
        Ast::DropTable { table: "users".to_string(), if_exists: false }
    );
    assert_eq!(
        parse_sql("DELETE FROM users WHERE a.id = 4").unwrap(),
        Ast::Delete {
            table: "users".to_string(),
            where_clause: vec![cond("a.id", Operator::Eq, "4", None)],
        }
    );
}

#[test]
fn sql_overlapping_clauses_cannot_be_parsed() {
    assert!(try_parse_sql("SELECT FROM t").is_none());
    assert!(try_parse_sql("INSERT INTO VALUES (1)").is_none());
    assert!(try_parse_sql("SELECT a FROM t").is_some());
}

#[test]
fn layout_outside_quotes_does_not_change_the_parse() {
    let a = parse_sql("SELECT * FROM users WHERE name = 'a  b'").unwrap();
    let b = parse_sql("  SELECT *\t\n FROM users -- every user\n WHERE   name = 'a  b' ;").unwrap();
    assert_eq!(a, b);
}
