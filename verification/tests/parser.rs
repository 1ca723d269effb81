use engine::sql::ast::{
    Assignment, BinaryOperator, ColumnDef, ColumnOption, Expr, ExprKind, Join, JoinOperator,
    Select, SetExpr, SqlType, SqlTypeKind, Statement, TableFactor, TableWithJoins,
};
use engine::sql::parser::{
    convert_column, convert_expr_to_field, extract_column_name, parse_sql,
};
use engine::storage::record::Field;

fn expr(kind: ExprKind, shown: &str) -> Expr {
    Expr { kind, shown: shown.to_string() }
}

fn number(n: &str) -> Expr {
    expr(ExprKind::Number(n.to_string()), n)
}

fn quoted(s: &str) -> Expr {
    expr(ExprKind::SingleQuotedString(s.to_string()), s)
}

fn ident(name: &str) -> Expr {
    expr(ExprKind::Identifier(name.to_string()), name)
}

fn compound(parts: &[&str]) -> Expr {
    expr(
        ExprKind::CompoundIdentifier(parts.iter().map(|p| p.to_string()).collect()),
        &parts.join("."),
    )
}

fn binary(left: Expr, op: BinaryOperator, right: Expr) -> Expr {
    expr(ExprKind::BinaryOp { left: Box::new(left), op, right: Box::new(right) }, "binary")
}

fn table(name: &str) -> TableFactor {
    TableFactor::Table { name: name.to_string() }
}

fn from(name: &str, joins: Vec<Join>) -> TableWithJoins {
    TableWithJoins { relation: table(name), joins, shown: name.to_string() }
}

fn sql_type(kind: SqlTypeKind, shown: &str) -> SqlType {
    SqlType { kind, shown: shown.to_string() }
}

fn shown(statements: Vec<Statement>) -> Result<Vec<String>, String> {
    parse_sql(&statements).map(|commands| commands.iter().map(|c| format!("{:?}", c)).collect())
}

#[test]
fn literals_become_fields() {
    assert_eq!(convert_expr_to_field(&number("42")), Ok(Field::Integer(42)));
    assert_eq!(convert_expr_to_field(&number("2147483647")), Ok(Field::Integer(i32::MAX)));
    assert_eq!(
        convert_expr_to_field(&number("2147483648")),
        Err("Invalid integer: 2147483648".to_string())
    );
    assert_eq!(convert_expr_to_field(&number("1.5")), Err("Invalid integer: 1.5".to_string()));
    assert_eq!(convert_expr_to_field(&quoted("hi")), Ok(Field::Text("hi".to_string())));
    assert_eq!(
        convert_expr_to_field(&expr(ExprKind::Boolean(true), "true")),
        Ok(Field::Boolean(true))
    );
    assert_eq!(
        convert_expr_to_field(&ident("x")),
        Err("Unsupported expression type: x".to_string())
    );
}

#[test]
fn column_names_take_the_last_part() {
    assert_eq!(extract_column_name(&ident("id")), Ok("id".to_string()));
    assert_eq!(extract_column_name(&compound(&["users", "id"])), Ok("id".to_string()));
    assert_eq!(
        extract_column_name(&number("5")),
        Err("Expected column name, found 5".to_string())
    );
    assert_eq!(
        extract_column_name(&compound(&[])),
        Err("Expected column name, found ".to_string())
    );
}

#[test]
fn column_definitions() {
    let def = ColumnDef {
        name: "id".to_string(),
        data_type: sql_type(SqlTypeKind::Int, "Int(None)"),
        options: vec![
            ColumnOption::Other,
            ColumnOption::Unique { is_primary: true },
            ColumnOption::DialectSpecific(vec!["Autoincrement".to_string()]),
        ],
    };
    let column = convert_column(&def).unwrap();
    assert_eq!(
        format!("{:?}", column),
        "Column { name: \"id\", data_type: Integer, is_primary: true, is_autoincrement: true }"
    );

    let def = ColumnDef {
        name: "name".to_string(),
        data_type: sql_type(SqlTypeKind::Varchar(Some("16".to_string())), "Varchar(16)"),
        options: vec![
            ColumnOption::Unique { is_primary: false },
            ColumnOption::DialectSpecific(vec!["AUTO".to_string(), "INCREMENT".to_string()]),
        ],
    };
    let column = convert_column(&def).unwrap();
    assert_eq!(
        format!("{:?}", column),
        "Column { name: \"name\", data_type: Text(16), is_primary: false, is_autoincrement: false }"
    );

    let auto = ColumnDef {
        name: "n".to_string(),
        data_type: sql_type(SqlTypeKind::Text, "Text"),
        options: vec![ColumnOption::DialectSpecific(vec!["auto_increment".to_string()])],
    };
    let column = convert_column(&auto).unwrap();
    assert_eq!(
        format!("{:?}", column),
        "Column { name: \"n\", data_type: Text(255), is_primary: false, is_autoincrement: true }"
    );

    for (kind, text) in [
        (SqlTypeKind::Other, "Float(None)"),
        (SqlTypeKind::Varchar(None), "Varchar(None)"),
        (SqlTypeKind::Varchar(Some("MAX".to_string())), "Varchar(Some(Max))"),
        (SqlTypeKind::Varchar(Some("-3".to_string())), "Varchar(-3)"),
    ] {
        let def = ColumnDef {
            name: "x".to_string(),
            data_type: sql_type(kind, text),
            options: Vec::new(),
        };
        assert_eq!(
            convert_column(&def).map(|c| format!("{:?}", c)),
            Err(format!("Unsupported data type: {}", text))
        );
    }
}

#[test]
fn create_table_statement() {
    let statements = vec![Statement::CreateTable {
        name: "users".to_string(),
        columns: vec![
            ColumnDef {
                name: "id".to_string(),
                data_type: sql_type(SqlTypeKind::Integer, "Integer(None)"),
                options: vec![ColumnOption::Unique { is_primary: true }],
            },
            ColumnDef {
                name: "ok".to_string(),
                data_type: sql_type(SqlTypeKind::Boolean, "Boolean"),
                options: Vec::new(),
            },
        ],
    }];
    assert_eq!(
        shown(statements),
        Ok(vec![
            "CreateTable { name: \"users\", columns: [Column { name: \"id\", data_type: Integer, \
             is_primary: true, is_autoincrement: false }, Column { name: \"ok\", data_type: \
             Boolean, is_primary: false, is_autoincrement: false }] }"
                .to_string()
        ])
    );
}

#[test]
fn insert_gives_one_command_per_row() {
    let statements = vec![Statement::Insert {
        table_name: "users".to_string(),
        source: Some(SetExpr::Values(vec![
            vec![number("1"), quoted("alice")],
            vec![number("2"), quoted("bob")],
        ])),
    }];
    assert_eq!(
        shown(statements),
        Ok(vec![
            "Insert { table_name: \"users\", row: Row { fields: [Integer(1), Text(\"alice\")] } }"
                .to_string(),
            "Insert { table_name: \"users\", row: Row { fields: [Integer(2), Text(\"bob\")] } }"
                .to_string(),
        ])
    );
    assert_eq!(
        shown(vec![Statement::Insert { table_name: "t".to_string(), source: None }]),
        Err("INSERT statement missing values".to_string())
    );
    assert_eq!(
        shown(vec![Statement::Insert { table_name: "t".to_string(), source: Some(SetExpr::Other) }]),
        Err("Unsupported INSERT format".to_string())
    );
    assert_eq!(
        shown(vec![Statement::Insert {
            table_name: "t".to_string(),
            source: Some(SetExpr::Values(vec![vec![number("1")], vec![ident("x")]])),
        }]),
        Err("Unsupported expression type: x".to_string())
    );
}

#[test]
fn select_with_filter_and_join() {
    let join = Join {
        relation: table("orders"),
        join_operator: JoinOperator::InnerOn(binary(
            compound(&["users", "id"]),
            BinaryOperator::Eq,
            compound(&["orders", "uid"]),
        )),
    };
    let statements = vec![Statement::Query(SetExpr::Select(Select {
        from: vec![from("users", vec![join])],
        selection: Some(binary(ident("id"), BinaryOperator::Gt, number("1"))),
    }))];
    assert_eq!(
        shown(statements),
        Ok(vec![
            "Select { table_name: \"users\", filter: Some(Filter { column_name: \"id\", operator: \
             GreaterThan, value: Integer(1) }), join: Some(JoinClause { left_column: \"id\", \
             right_table: \"orders\", right_column: \"uid\" }) }"
                .to_string()
        ])
    );
}

#[test]
fn select_edge_cases() {
    let plain = |selection: Option<Expr>, joins: Vec<Join>| {
        vec![Statement::Query(SetExpr::Select(Select {
            from: vec![from("users", joins)],
            selection,
        }))]
    };
    let none = "Select { table_name: \"users\", filter: None, join: None }".to_string();
    assert_eq!(shown(plain(None, Vec::new())), Ok(vec![none.clone()]));
    assert_eq!(shown(plain(Some(ident("flag")), Vec::new())), Ok(vec![none.clone()]));
    assert_eq!(
        shown(plain(Some(binary(ident("a"), BinaryOperator::Other, number("1"))), Vec::new())),
        Err("Unsupported operator".to_string())
    );
    assert_eq!(
        shown(plain(Some(binary(number("1"), BinaryOperator::Eq, number("1"))), Vec::new())),
        Err("Expected column name, found 1".to_string())
    );
    let not_equal = Join {
        relation: table("orders"),
        join_operator: JoinOperator::InnerOn(binary(ident("a"), BinaryOperator::Lt, ident("b"))),
    };
    assert_eq!(shown(plain(None, vec![not_equal])), Ok(vec![none.clone()]));
    let outer = Join { relation: table("orders"), join_operator: JoinOperator::Other };
    assert_eq!(shown(plain(None, vec![outer])), Ok(vec![none.clone()]));
    let derived = Join { relation: TableFactor::Other, join_operator: JoinOperator::Other };
    assert_eq!(shown(plain(None, vec![derived])), Err("Unsupported JOIN table".to_string()));
    assert_eq!(
        shown(vec![Statement::Query(SetExpr::Select(Select {
            from: Vec::new(),
            selection: None,
        }))]),
        Err("Missing FROM clause".to_string())
    );
    assert_eq!(
        shown(vec![Statement::Query(SetExpr::Select(Select {
            from: vec![TableWithJoins {
                relation: TableFactor::Other,
                joins: Vec::new(),
                shown: "(sub)".to_string(),
            }],
            selection: None,
        }))]),
        Err("Unsupported table reference".to_string())
    );
    assert_eq!(shown(vec![Statement::Query(SetExpr::Other)]), Ok(Vec::new()));
}

#[test]
fn update_delete_and_drop() {
    let statements = vec![
        Statement::Update {
            table: from("users", Vec::new()),
            assignments: vec![Assignment {
                id: vec!["name".to_string()],
                value: quoted("alex"),
            }],
            selection: Some(binary(ident("id"), BinaryOperator::Eq, number("1"))),
        },
        Statement::Delete {
            from: vec![from("users", Vec::new())],
            selection: Some(binary(ident("id"), BinaryOperator::NotEq, number("1"))),
        },
        Statement::Drop { is_table: true, names: vec!["a".to_string(), "b".to_string()] },
    ];
    assert_eq!(
        shown(statements),
        Ok(vec![
            "Update { table_name: \"users\", assignments: [(\"name\", Text(\"alex\"))], filter: \
             Some(Filter { column_name: \"id\", operator: Eq, value: Integer(1) }) }"
                .to_string(),
            "Delete { table_name: \"users\", filter: Some(Filter { column_name: \"id\", operator: \
             NotEq, value: Integer(1) }) }"
                .to_string(),
            "DropTable { table_name: \"a\" }".to_string(),
            "DropTable { table_name: \"b\" }".to_string(),
        ])
    );
    assert_eq!(
        shown(vec![Statement::Drop { is_table: false, names: vec!["v".to_string()] }]),
        Err("Unsupported SQL statement".to_string())
    );
    assert_eq!(shown(vec![Statement::Other]), Err("Unsupported SQL statement".to_string()));
    assert_eq!(
        shown(vec![Statement::Update {
            table: from("users", Vec::new()),
            assignments: vec![Assignment { id: Vec::new(), value: quoted("x") }],
            selection: None,
        }]),
        Err("Expected column name, found x".to_string())
    );
}

#[test]
fn the_first_refused_statement_refuses_all() {
    let statements = vec![
        Statement::Drop { is_table: true, names: vec!["a".to_string()] },
        Statement::Other,
        Statement::Insert { table_name: "t".to_string(), source: None },
    ];
    assert_eq!(shown(statements), Err("Unsupported SQL statement".to_string()));
    assert_eq!(shown(Vec::new()), Ok(Vec::new()));
}
