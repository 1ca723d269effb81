use engine::engine::Database;
use engine::sql::ast;
use engine::sql::{Command, QueryResponse, QueryResult};
use engine::storage::record::Field;
use engine::strmap::StringMap;
use sqlparser::ast::{
    BinaryOperator, ColumnDef, ColumnOption, DataType, Expr, Join, JoinConstraint, JoinOperator,
    ObjectType, SetExpr, Statement, TableFactor, TableWithJoins, Value,
};
use sqlparser::dialect::GenericDialect;
use sqlparser::parser::Parser;

fn expr(expr: &Expr) -> ast::Expr {
    let kind = match expr {
        Expr::Value(Value::Number(n, _)) => ast::ExprKind::Number(n.to_string()),
        Expr::Value(Value::SingleQuotedString(s)) => ast::ExprKind::SingleQuotedString(s.clone()),
        Expr::Value(Value::Boolean(b)) => ast::ExprKind::Boolean(*b),
        Expr::Identifier(ident) => ast::ExprKind::Identifier(ident.value.clone()),
        Expr::CompoundIdentifier(parts) => ast::ExprKind::CompoundIdentifier(
            parts.iter().map(|part| part.value.clone()).collect(),
        ),
        Expr::BinaryOp { left, op, right } => ast::ExprKind::BinaryOp {
            left: Box::new(self::expr(left)),
            op: match op {
                BinaryOperator::Eq => ast::BinaryOperator::Eq,
                BinaryOperator::NotEq => ast::BinaryOperator::NotEq,
                BinaryOperator::Gt => ast::BinaryOperator::Gt,
                BinaryOperator::Lt => ast::BinaryOperator::Lt,
                _ => ast::BinaryOperator::Other,
            },
            right: Box::new(self::expr(right)),
        },
        _ => ast::ExprKind::Other,
    };
    ast::Expr { kind, shown: format!("{:?}", expr) }
}

fn column_def(col: &ColumnDef) -> ast::ColumnDef {
    let kind = match &col.data_type {
        DataType::Int(_) => ast::SqlTypeKind::Int,
        DataType::Integer(_) => ast::SqlTypeKind::Integer,
        DataType::Boolean => ast::SqlTypeKind::Boolean,
        DataType::Varchar(length) => {
            ast::SqlTypeKind::Varchar(length.as_ref().map(|len| len.to_string()))
        }
        DataType::Text => ast::SqlTypeKind::Text,
        _ => ast::SqlTypeKind::Other,
    };
    ast::ColumnDef {
        name: col.name.to_string(),
        data_type: ast::SqlType { kind, shown: format!("{:?}", col.data_type) },
        options: col
            .options
            .iter()
            .map(|def| match &def.option {
                ColumnOption::Unique { is_primary, .. } => {
                    ast::ColumnOption::Unique { is_primary: *is_primary }
                }
                ColumnOption::DialectSpecific(tokens) => ast::ColumnOption::DialectSpecific(
                    tokens.iter().map(|token| token.to_string()).collect(),
                ),
                _ => ast::ColumnOption::Other,
            })
            .collect(),
    }
}

fn table_factor(factor: &TableFactor) -> ast::TableFactor {
    match factor {
        TableFactor::Table { name, .. } => ast::TableFactor::Table { name: name.to_string() },
        _ => ast::TableFactor::Other,
    }
}

fn join(join: &Join) -> ast::Join {
    ast::Join {
        relation: table_factor(&join.relation),
        join_operator: match &join.join_operator {
            JoinOperator::Inner(JoinConstraint::On(condition)) => {
                ast::JoinOperator::InnerOn(expr(condition))
            }
            _ => ast::JoinOperator::Other,
        },
    }
}

fn table_with_joins(entry: &TableWithJoins) -> ast::TableWithJoins {
    ast::TableWithJoins {
        relation: table_factor(&entry.relation),
        joins: entry.joins.iter().map(join).collect(),
        shown: entry.to_string(),
    }
}

fn set_expr(body: &SetExpr) -> ast::SetExpr {
    match body {
        SetExpr::Select(select) => ast::SetExpr::Select(ast::Select {
            from: select.from.iter().map(table_with_joins).collect(),
            selection: select.selection.as_ref().map(expr),
        }),
        SetExpr::Values(values) => ast::SetExpr::Values(
            values.rows.iter().map(|row| row.iter().map(expr).collect()).collect(),
        ),
        _ => ast::SetExpr::Other,
    }
}

fn statement(statement: &Statement) -> ast::Statement {
    match statement {
        Statement::CreateTable { name, columns, .. } => ast::Statement::CreateTable {
            name: name.to_string(),
            columns: columns.iter().map(column_def).collect(),
        },
        Statement::Update { table, assignments, selection, .. } => ast::Statement::Update {
            table: table_with_joins(table),
            assignments: assignments
                .iter()
                .map(|assignment| ast::Assignment {
                    id: assignment.id.iter().map(|part| part.value.clone()).collect(),
                    value: expr(&assignment.value),
                })
                .collect(),
            selection: selection.as_ref().map(expr),
        },
        Statement::Insert { table_name, source, .. } => ast::Statement::Insert {
            table_name: table_name.to_string(),
            source: source.as_ref().map(|query| set_expr(query.body.as_ref())),
        },
        Statement::Query(query) => ast::Statement::Query(set_expr(query.body.as_ref())),
        Statement::Delete { from, selection, .. } => ast::Statement::Delete {
            from: from.iter().map(table_with_joins).collect(),
            selection: selection.as_ref().map(expr),
        },
        Statement::Drop { object_type, names, .. } => ast::Statement::Drop {
            is_table: matches!(object_type, ObjectType::Table),
            names: names.iter().map(|name| name.to_string()).collect(),
        },
        _ => ast::Statement::Other,
    }
}

fn commands(sql: &str) -> Result<Vec<Command>, String> {
    let parsed = Parser::parse_sql(&GenericDialect {}, sql).map_err(|e| e.to_string())?;
    let statements: Vec<ast::Statement> = parsed.iter().map(statement).collect();
    engine::sql::parser::parse_sql(&statements)
}

fn run(db: &mut Database, sql: &str) -> Vec<Result<QueryResult, String>> {
    let mut results = Vec::new();
    for command in commands(sql).expect("the SQL parses") {
        assert!(db.can_execute(&command));
        results.push(db.execute(command));
    }
    results
}

fn one(db: &mut Database, sql: &str) -> Result<QueryResult, String> {
    let mut results = run(db, sql);
    assert_eq!(results.len(), 1);
    results.remove(0)
}

fn data(columns: &[&str], rows: Vec<Vec<Field>>) -> QueryResult {
    QueryResult::Data(QueryResponse {
        columns: columns.iter().map(|c| c.to_string()).collect(),
        rows,
    })
}

fn message(text: &str) -> QueryResult {
    QueryResult::Message(text.to_string())
}

fn num(v: i32) -> Field {
    Field::Integer(v)
}

fn text(v: &str) -> Field {
    Field::Text(v.to_string())
}

fn users() -> Database {
    let mut db = Database::open("./data", None, StringMap::new());
    assert_eq!(
        one(&mut db, "CREATE TABLE users (id INT PRIMARY KEY, name VARCHAR(16));"),
        Ok(message("Table users created."))
    );
    let inserted =
        run(&mut db, "INSERT INTO users VALUES (1,'alice'); INSERT INTO users VALUES (2,'bob');");
    assert_eq!(inserted.len(), 2);
    assert!(inserted.iter().all(|result| result.is_ok()));
    db
}

#[test]
fn sql_create_insert_scan() {
    let mut db = users();
    assert_eq!(
        one(&mut db, "SELECT * FROM users;"),
        Ok(data(&["id", "name"], vec![vec![num(1), text("alice")], vec![num(2), text("bob")]]))
    );
}

#[test]
fn sql_duplicate_primary_key() {
    let mut db = users();
    let refused = one(&mut db, "INSERT INTO users VALUES (1,'carol');").unwrap_err();
    assert!(refused.contains("Duplicate key"));
    assert!(refused.contains("already exists"));
    assert_eq!(
        one(&mut db, "SELECT * FROM users;"),
        Ok(data(&["id", "name"], vec![vec![num(1), text("alice")], vec![num(2), text("bob")]]))
    );
}

#[test]
fn sql_index_fast_path() {
    let mut db = users();
    assert_eq!(
        one(&mut db, "SELECT * FROM users WHERE id = 2;"),
        Ok(data(&["id", "name"], vec![vec![num(2), text("bob")]]))
    );
    assert_eq!(one(&mut db, "SELECT * FROM users WHERE id = 99;"), Ok(message("No rows found.")));
}

#[test]
fn sql_update_rejects_pk_mutation() {
    let mut db = users();
    assert_eq!(
        one(&mut db, "UPDATE users SET id = 3 WHERE name = 'alice';"),
        Err("Updating Primary Key is not allowed".to_string())
    );
    assert_eq!(
        one(&mut db, "UPDATE users SET name = 'alex' WHERE id = 1;"),
        Ok(message("Updated 1 rows."))
    );
    assert_eq!(
        one(&mut db, "SELECT * FROM users WHERE id = 1;"),
        Ok(data(&["id", "name"], vec![vec![num(1), text("alex")]]))
    );
}

#[test]
fn sql_delete_and_reclaim() {
    let mut db = users();
    assert_eq!(one(&mut db, "DELETE FROM users WHERE id = 1;"), Ok(message("Deleted 1 rows.")));
    assert!(one(&mut db, "INSERT INTO users VALUES (3,'dan');").is_ok());
    let pager = db.files.get(&"users".to_string()).unwrap();
    let page = pager.read_page(0);
    assert!(page.is_slot_full(0));
    assert_eq!(&page.data[64..71], &[3, 0, 0, 0, b'd', b'a', b'n']);
    assert_eq!(
        one(&mut db, "SELECT * FROM users;"),
        Ok(data(&["id", "name"], vec![vec![num(3), text("dan")], vec![num(2), text("bob")]]))
    );
}

#[test]
fn sql_inner_join() {
    let mut db = users();
    assert!(one(&mut db, "CREATE TABLE orders (oid INT PRIMARY KEY, uid INT);").is_ok());
    assert!(one(&mut db, "INSERT INTO orders VALUES (10,2);").is_ok());
    assert!(one(&mut db, "INSERT INTO orders VALUES (11,2);").is_ok());
    assert_eq!(
        one(&mut db, "SELECT * FROM users INNER JOIN orders ON users.id = orders.uid;"),
        Ok(data(
            &["id", "name", "oid", "uid"],
            vec![
                vec![num(2), text("bob"), num(10), num(2)],
                vec![num(2), text("bob"), num(11), num(2)],
            ],
        ))
    );
}

#[test]
fn sql_autoincrement() {
    let mut db = Database::open("./data", None, StringMap::new());
    assert!(one(&mut db, "CREATE TABLE t (id INT PRIMARY KEY AUTOINCREMENT, v INT);").is_ok());
    assert!(one(&mut db, "INSERT INTO t (v) VALUES (100);").is_ok());
    assert!(one(&mut db, "INSERT INTO t (v) VALUES (200);").is_ok());
    assert_eq!(
        one(&mut db, "SELECT * FROM t;"),
        Ok(data(&["id", "v"], vec![vec![num(1), num(100)], vec![num(2), num(200)]]))
    );
    assert_eq!(db.catalog.sequences.get(&"t".to_string()), Some(&2));
}

#[test]
fn sql_drop_table_and_errors() {
    let mut db = users();
    assert_eq!(one(&mut db, "DROP TABLE users;"), Ok(message("Table users dropped.")));
    assert_eq!(
        one(&mut db, "SELECT * FROM users;"),
        Err("Table users not found".to_string())
    );
    assert_eq!(
        commands("CREATE TABLE f (x FLOAT);").map(|c| c.len()),
        Err("Unsupported data type: Float(None)".to_string())
    );
    assert_eq!(
        commands("INSERT INTO users VALUES (99999999999);").map(|c| c.len()),
        Err("Invalid integer: 99999999999".to_string())
    );
    assert_eq!(
        commands("CREATE VIEW v AS SELECT * FROM users;").map(|c| c.len()),
        Err("Unsupported SQL statement".to_string())
    );
    assert!(commands("SELEKT nothing").is_err());
}
