use engine::catalog::schema::{Column, DataType};
use engine::engine::Database;
use engine::sql::{Command, Filter, JoinClause, Operator, QueryResponse, QueryResult};
use engine::storage::pager::PAGE_SIZE;
use engine::storage::record::{Field, Row};
use engine::strmap::StringMap;

fn column(name: &str, data_type: DataType, is_primary: bool, is_autoincrement: bool) -> Column {
    Column { name: name.to_string(), data_type, is_primary, is_autoincrement }
}

fn run(db: &mut Database, command: Command) -> Result<QueryResult, String> {
    assert!(db.can_execute(&command));
    db.execute(command)
}

fn num(v: i32) -> Field {
    Field::Integer(v)
}

fn text(v: &str) -> Field {
    Field::Text(v.to_string())
}

fn insert(table: &str, fields: Vec<Field>) -> Command {
    Command::Insert { table_name: table.to_string(), row: Row { fields } }
}

fn select_all(table: &str) -> Command {
    Command::Select { table_name: table.to_string(), filter: None, join: None }
}

fn select_where(table: &str, column: &str, operator: Operator, value: Field) -> Command {
    Command::Select {
        table_name: table.to_string(),
        filter: Some(Filter { column_name: column.to_string(), operator, value }),
        join: None,
    }
}

fn data(columns: &[&str], rows: Vec<Vec<Field>>) -> QueryResult {
    QueryResult::Data(QueryResponse {
        columns: columns.iter().map(|c| c.to_string()).collect(),
        rows,
    })
}

fn message(text: &str) -> QueryResult {
    QueryResult::Message(text.to_string())
}

fn users_db() -> Database {
    let mut db = Database::open("./data", None, StringMap::new());
    let created = run(
        &mut db,
        Command::CreateTable {
            name: "users".to_string(),
            columns: vec![
                column("id", DataType::Integer, true, false),
                column("name", DataType::Text(16), false, false),
            ],
        },
    );
    assert_eq!(created, Ok(message("Table users created.")));
    assert_eq!(
        run(&mut db, insert("users", vec![num(1), text("alice")])),
        Ok(message("Inserted 1 row : Row { fields: [Integer(1), Text(\"alice\")] }"))
    );
    assert_eq!(
        run(&mut db, insert("users", vec![num(2), text("bob")])),
        Ok(message("Inserted 1 row : Row { fields: [Integer(2), Text(\"bob\")] }"))
    );
    db
}

#[test]
fn create_insert_scan() {
    let mut db = users_db();
    assert_eq!(
        run(&mut db, select_all("users")),
        Ok(data(&["id", "name"], vec![vec![num(1), text("alice")], vec![num(2), text("bob")]]))
    );
    assert!(db.catalog.unsaved);
    assert_eq!(db.catalog.path, "./data/catalog.json");
}

#[test]
fn create_existing_table_is_refused() {
    let mut db = users_db();
    let again = run(
        &mut db,
        Command::CreateTable { name: "users".to_string(), columns: Vec::new() },
    );
    assert_eq!(again, Err("Table users already exists".to_string()));
}

#[test]
fn duplicate_primary_key() {
    let mut db = users_db();
    let refused = run(&mut db, insert("users", vec![num(1), text("carol")]));
    assert_eq!(refused, Err("Duplicate key violation: '1' already exists".to_string()));
    let message = refused.unwrap_err();
    assert!(message.contains("Duplicate key"));
    assert!(message.contains("already exists"));
    assert_eq!(
        run(&mut db, select_all("users")),
        Ok(data(&["id", "name"], vec![vec![num(1), text("alice")], vec![num(2), text("bob")]]))
    );
}

#[test]
fn index_fast_path() {
    let mut db = users_db();
    assert_eq!(
        run(&mut db, select_where("users", "id", Operator::Eq, num(2))),
        Ok(data(&["id", "name"], vec![vec![num(2), text("bob")]]))
    );
    assert_eq!(
        run(&mut db, select_where("users", "id", Operator::Eq, num(99))),
        Ok(message("No rows found."))
    );
}

#[test]
fn index_lookup_goes_by_the_key_text() {
    let mut db = users_db();
    assert_eq!(
        run(&mut db, select_where("users", "id", Operator::Eq, text("2"))),
        Ok(data(&["id", "name"], vec![vec![num(2), text("bob")]]))
    );
    assert_eq!(
        run(&mut db, select_where("users", "name", Operator::Eq, num(2))),
        Ok(message("No rows found."))
    );
}

#[test]
fn filters_on_a_scan() {
    let mut db = users_db();
    assert_eq!(
        run(&mut db, select_where("users", "id", Operator::GreaterThan, num(1))),
        Ok(data(&["id", "name"], vec![vec![num(2), text("bob")]]))
    );
    assert_eq!(
        run(&mut db, select_where("users", "id", Operator::LessThan, num(2))),
        Ok(data(&["id", "name"], vec![vec![num(1), text("alice")]]))
    );
    assert_eq!(
        run(&mut db, select_where("users", "name", Operator::NotEq, text("bob"))),
        Ok(data(&["id", "name"], vec![vec![num(1), text("alice")]]))
    );
    assert_eq!(
        run(&mut db, select_where("users", "name", Operator::GreaterThan, text("a"))),
        Ok(message("No rows found."))
    );
    assert_eq!(
        run(&mut db, select_where("users", "nope", Operator::Eq, num(1))),
        Ok(message("No rows found."))
    );
}

#[test]
fn update_rejects_pk_mutation() {
    let mut db = users_db();
    let refused = run(
        &mut db,
        Command::Update {
            table_name: "users".to_string(),
            assignments: vec![("id".to_string(), num(3))],
            filter: Some(Filter {
                column_name: "name".to_string(),
                operator: Operator::Eq,
                value: text("alice"),
            }),
        },
    );
    assert_eq!(refused, Err("Updating Primary Key is not allowed".to_string()));
    let updated = run(
        &mut db,
        Command::Update {
            table_name: "users".to_string(),
            assignments: vec![("name".to_string(), text("alex"))],
            filter: Some(Filter {
                column_name: "id".to_string(),
                operator: Operator::Eq,
                value: num(1),
            }),
        },
    );
    assert_eq!(updated, Ok(message("Updated 1 rows.")));
    assert_eq!(
        run(&mut db, select_where("users", "id", Operator::Eq, num(1))),
        Ok(data(&["id", "name"], vec![vec![num(1), text("alex")]]))
    );
}

#[test]
fn update_of_no_row_reports_no_error() {
    let mut db = users_db();
    let updated = run(
        &mut db,
        Command::Update {
            table_name: "users".to_string(),
            assignments: vec![("id".to_string(), num(3)), ("nope".to_string(), num(3))],
            filter: Some(Filter {
                column_name: "id".to_string(),
                operator: Operator::Eq,
                value: num(42),
            }),
        },
    );
    assert_eq!(updated, Ok(message("Updated 0 rows.")));
    let refused = run(
        &mut db,
        Command::Update {
            table_name: "users".to_string(),
            assignments: vec![("nope".to_string(), num(3)), ("id".to_string(), num(3))],
            filter: None,
        },
    );
    assert_eq!(refused, Err("Column nope not found".to_string()));
    let missing = run(
        &mut db,
        Command::Update { table_name: "ghosts".to_string(), assignments: Vec::new(), filter: None },
    );
    assert_eq!(missing, Err("Table not found".to_string()));
}

#[test]
fn delete_and_reclaim() {
    let mut db = users_db();
    let deleted = run(
        &mut db,
        Command::Delete {
            table_name: "users".to_string(),
            filter: Some(Filter {
                column_name: "id".to_string(),
                operator: Operator::Eq,
                value: num(1),
            }),
        },
    );
    assert_eq!(deleted, Ok(message("Deleted 1 rows.")));
    assert!(run(&mut db, insert("users", vec![num(3), text("dan")])).is_ok());

    let name = "users".to_string();
    let mut table = db.open_table(&name);
    table.load_index();
    assert_eq!(table.index.get(&"3".to_string()), Some((0, 0)));
    assert_eq!(table.index.get(&"2".to_string()), Some((0, 1)));
    assert_eq!(table.index.get(&"1".to_string()), None);
    assert_eq!(table.pager.num_pages(), 1);
    db.close_table(name, table);

    assert_eq!(
        run(&mut db, select_all("users")),
        Ok(data(&["id", "name"], vec![vec![num(3), text("dan")], vec![num(2), text("bob")]]))
    );
}

#[test]
fn delete_without_filter_empties_the_table() {
    let mut db = users_db();
    assert_eq!(
        run(&mut db, Command::Delete { table_name: "users".to_string(), filter: None }),
        Ok(message("Deleted 2 rows."))
    );
    assert_eq!(run(&mut db, select_all("users")), Ok(message("No rows found.")));
    assert_eq!(
        run(&mut db, Command::Delete { table_name: "ghosts".to_string(), filter: None }),
        Err("Table not found".to_string())
    );
}

#[test]
fn inner_join() {
    let mut db = users_db();
    let created = run(
        &mut db,
        Command::CreateTable {
            name: "orders".to_string(),
            columns: vec![
                column("oid", DataType::Integer, true, false),
                column("uid", DataType::Integer, false, false),
            ],
        },
    );
    assert_eq!(created, Ok(message("Table orders created.")));
    assert!(run(&mut db, insert("orders", vec![num(10), num(2)])).is_ok());
    assert!(run(&mut db, insert("orders", vec![num(11), num(2)])).is_ok());
    let joined = run(
        &mut db,
        Command::Select {
            table_name: "users".to_string(),
            filter: None,
            join: Some(JoinClause {
                left_column: "id".to_string(),
                right_table: "orders".to_string(),
                right_column: "uid".to_string(),
            }),
        },
    );
    assert_eq!(
        joined,
        Ok(data(
            &["id", "name", "oid", "uid"],
            vec![
                vec![num(2), text("bob"), num(10), num(2)],
                vec![num(2), text("bob"), num(11), num(2)],
            ],
        ))
    );
}

#[test]
fn join_errors_come_in_order() {
    let mut db = users_db();
    let join = |right_table: &str, left: &str, right: &str| Command::Select {
        table_name: "users".to_string(),
        filter: None,
        join: Some(JoinClause {
            left_column: left.to_string(),
            right_table: right_table.to_string(),
            right_column: right.to_string(),
        }),
    };
    assert_eq!(
        run(&mut db, join("ghosts", "nope", "nope")),
        Err("Table ghosts not found".to_string())
    );
    assert_eq!(
        run(&mut db, join("users", "nope", "nope")),
        Err("Column nope not found in table users".to_string())
    );
    assert_eq!(
        run(&mut db, join("users", "id", "nope")),
        Err("Column nope not found in table users".to_string())
    );
    assert_eq!(
        run(&mut db, join("users", "id", "id")),
        Ok(data(
            &["id", "name", "id", "name"],
            vec![
                vec![num(1), text("alice"), num(1), text("alice")],
                vec![num(2), text("bob"), num(2), text("bob")],
            ],
        ))
    );
}

fn counted_db() -> Database {
    let mut db = Database::open("./data", None, StringMap::new());
    let created = run(
        &mut db,
        Command::CreateTable {
            name: "t".to_string(),
            columns: vec![
                column("id", DataType::Integer, true, true),
                column("v", DataType::Integer, false, false),
            ],
        },
    );
    assert!(created.is_ok());
    assert_eq!(
        run(&mut db, insert("t", vec![num(100)])),
        Ok(message("Inserted 1 row : Row { fields: [Integer(1), Integer(100)] }"))
    );
    assert_eq!(
        run(&mut db, insert("t", vec![num(200)])),
        Ok(message("Inserted 1 row : Row { fields: [Integer(2), Integer(200)] }"))
    );
    db
}

#[test]
fn autoincrement() {
    let mut db = counted_db();
    assert_eq!(
        run(&mut db, select_all("t")),
        Ok(data(&["id", "v"], vec![vec![num(1), num(100)], vec![num(2), num(200)]]))
    );
    assert_eq!(db.catalog.sequences.get(&"t".to_string()), Some(&2));
}

#[test]
fn autoincrement_overrides_a_given_value_and_counts_failures() {
    let mut db = counted_db();
    assert_eq!(
        run(&mut db, insert("t", vec![num(77), num(300)])),
        Ok(message("Inserted 1 row : Row { fields: [Integer(3), Integer(300)] }"))
    );
    assert_eq!(
        run(&mut db, insert("t", vec![num(1), num(2), num(3)])),
        Err("Column count mismatch: expected 2 or 1 (with autoincrement), found 3".to_string())
    );
    assert_eq!(db.catalog.sequences.get(&"t".to_string()), Some(&4));
    assert_eq!(
        run(&mut db, insert("t", vec![text("x")])),
        Err("Type mismatch for column 'v': expected Integer, found Text(\"x\")".to_string())
    );
    assert_eq!(db.catalog.sequences.get(&"t".to_string()), Some(&5));
}

#[test]
fn insert_errors() {
    let mut db = users_db();
    assert_eq!(
        run(&mut db, insert("ghosts", vec![num(1)])),
        Err("Table ghosts not found".to_string())
    );
    assert_eq!(
        run(&mut db, insert("users", vec![num(1)])),
        Err("Table users expects 2 columns, but 1 were provided".to_string())
    );
    assert_eq!(
        run(&mut db, insert("users", vec![Field::Boolean(true), text("x")])),
        Err("Type mismatch for column 'id': expected Integer, found Boolean(true)".to_string())
    );
    assert_eq!(
        run(&mut db, insert("users", vec![num(5), num(6)])),
        Err("Type mismatch for column 'name': expected Text(16), found Integer(6)".to_string())
    );
    assert_eq!(
        run(&mut db, select_all("ghosts")),
        Err("Table ghosts not found".to_string())
    );
}

#[test]
fn inserted_message_quotes_text_as_debug_does() {
    let mut db = users_db();
    let row = Row { fields: vec![num(-7), text("a\"b\\c\n")] };
    let expected = format!("Inserted 1 row : {:?}", row);
    assert_eq!(
        run(&mut db, Command::Insert { table_name: "users".to_string(), row }),
        Ok(QueryResult::Message(expected))
    );
}

#[test]
fn drop_table() {
    let mut db = users_db();
    assert!(db.files.contains_key(&"users".to_string()));
    assert_eq!(
        run(&mut db, Command::DropTable { table_name: "users".to_string() }),
        Ok(message("Table users dropped."))
    );
    assert!(!db.files.contains_key(&"users".to_string()));
    assert!(!db.catalog.tables.contains_key(&"users".to_string()));
    assert!(!db.catalog.sequences.contains_key(&"users".to_string()));
    assert_eq!(
        run(&mut db, Command::DropTable { table_name: "users".to_string() }),
        Err("Table users not found".to_string())
    );
}

#[test]
fn persistence() {
    let mut db = users_db();
    assert!(run(
        &mut db,
        Command::Delete {
            table_name: "users".to_string(),
            filter: Some(Filter {
                column_name: "id".to_string(),
                operator: Operator::Eq,
                value: num(1),
            }),
        },
    )
    .is_ok());
    assert!(run(&mut db, insert("users", vec![num(3), text("dan")])).is_ok());
    assert!(run(
        &mut db,
        Command::CreateTable {
            name: "t".to_string(),
            columns: vec![
                column("id", DataType::Integer, true, true),
                column("v", DataType::Integer, false, false),
            ],
        },
    )
    .is_ok());
    assert!(run(&mut db, insert("t", vec![num(100)])).is_ok());
    assert!(run(&mut db, insert("t", vec![num(200)])).is_ok());

    assert!(db.catalog.unsaved);
    let stored = db.catalog.save();
    assert!(!db.catalog.unsaved);
    let mut files = StringMap::new();
    for name in db.files.keys() {
        let mut pager = db.files.remove(&name).unwrap();
        assert_eq!(pager.file_length, (pager.num_pages() * PAGE_SIZE) as u64);
        assert!(!pager.take_written().is_empty());
        files.insert(name, pager);
    }

    let mut reopened = Database::open("./data", Some(stored), files);
    assert!(!reopened.catalog.unsaved);
    assert_eq!(
        run(&mut reopened, select_all("users")),
        Ok(data(&["id", "name"], vec![vec![num(3), text("dan")], vec![num(2), text("bob")]]))
    );
    assert_eq!(
        run(&mut reopened, select_all("t")),
        Ok(data(&["id", "v"], vec![vec![num(1), num(100)], vec![num(2), num(200)]]))
    );
    assert_eq!(reopened.catalog.sequences.get(&"t".to_string()), Some(&2));
    assert_eq!(
        run(&mut reopened, insert("t", vec![num(300)])),
        Ok(message("Inserted 1 row : Row { fields: [Integer(3), Integer(300)] }"))
    );
    assert_eq!(
        run(&mut reopened, insert("users", vec![num(2), text("eve")])),
        Err("Duplicate key violation: '2' already exists".to_string())
    );
}

#[test]
fn commands_on_tables_that_cannot_be_stored_are_not_admitted() {
    let mut db = Database::open("./data", None, StringMap::new());
    assert!(run(
        &mut db,
        Command::CreateTable { name: "empty".to_string(), columns: Vec::new() },
    )
    .is_ok());
    assert!(run(
        &mut db,
        Command::CreateTable {
            name: "wide".to_string(),
            columns: vec![column("s", DataType::Text(5000), false, false)],
        },
    )
    .is_ok());
    assert!(!db.can_execute(&select_all("empty")));
    assert!(!db.can_execute(&insert("wide", vec![text("x")])));
    assert!(db.can_execute(&select_all("ghosts")));
    assert_eq!(run(&mut db, select_all("wide")), Ok(message("No rows found.")));
    assert_eq!(
        run(&mut db, Command::Delete { table_name: "wide".to_string(), filter: None }),
        Ok(message("Deleted 0 rows."))
    );
    let db2 = users_db();
    assert!(!db2.can_execute(&Command::Update {
        table_name: "users".to_string(),
        assignments: vec![("name".to_string(), num(1))],
        filter: None,
    }));
}

#[test]
fn many_rows_fill_pages_in_order() {
    let mut db = Database::open("./data", None, StringMap::new());
    assert!(run(
        &mut db,
        Command::CreateTable {
            name: "big".to_string(),
            columns: vec![
                column("id", DataType::Integer, true, false),
                column("pad", DataType::Text(1004), false, false),
            ],
        },
    )
    .is_ok());
    let mut expected = Vec::new();
    for i in 0..9 {
        assert!(run(&mut db, insert("big", vec![num(i), text("p")])).is_ok());
        expected.push(vec![num(i), text("p")]);
    }
    let pager = db.files.get(&"big".to_string()).unwrap();
    assert_eq!(pager.num_pages(), 3);
    assert_eq!(pager.written, vec![0, 0, 0, 0, 1, 1, 1, 1, 2]);
    assert_eq!(run(&mut db, select_all("big")), Ok(data(&["id", "pad"], expected)));
}
