use engine::catalog::schema::{Column, DataType, Schema};
use engine::catalog::Catalog;
use engine::error::Error;
use engine::index::PrimaryIndex;
use engine::sql::{Filter, Operator};
use engine::storage::record::{Field, Row};
use engine::strmap::StringMap;
use engine::text::{bool_to_string, concat3, int_to_string, nat_to_string, parse_i32, parse_usize};

#[test]
fn numbers_as_text() {
    assert_eq!(nat_to_string(0), "0");
    assert_eq!(nat_to_string(7), "7");
    assert_eq!(nat_to_string(1203), "1203");
    assert_eq!(nat_to_string(u64::MAX), u64::MAX.to_string());
    for v in [0, 1, -1, 10, -10, 99, 100, 12345, i32::MAX, i32::MIN] {
        assert_eq!(int_to_string(v), v.to_string());
    }
    assert_eq!(bool_to_string(true), "true");
    assert_eq!(bool_to_string(false), "false");
    assert_eq!(concat3("a", "", "bc"), "abc");
}

#[test]
fn text_as_numbers() {
    for text in [
        "0", "7", "+7", "-7", "007", "2147483647", "-2147483648", "2147483648", "-2147483649",
        "", "+", "-", "--1", "+-1", "1 ", " 1", "1_000", "1.5", "１２", "99999999999999999999999",
        "-0",
    ] {
        assert_eq!(parse_i32(text), text.parse::<i32>().ok(), "parsing {:?}", text);
        assert_eq!(parse_usize(text), text.parse::<usize>().ok(), "parsing {:?}", text);
    }
    assert_eq!(parse_usize(&usize::MAX.to_string()), Some(usize::MAX));
    assert_eq!(parse_usize("340282366920938463463374607431768211456"), None);
}

#[test]
fn primary_index() {
    let mut index = PrimaryIndex::new();
    assert_eq!(index.get(&"a".to_string()), None);
    assert_eq!(index.insert("a".to_string(), 1, 2), Ok(()));
    assert_eq!(index.insert("b".to_string(), 3, 4), Ok(()));
    assert_eq!(
        index.insert("a".to_string(), 5, 6),
        Err("Duplicate key violation: 'a' already exists".to_string())
    );
    assert_eq!(index.get(&"a".to_string()), Some((1, 2)));
    assert_eq!(index.get(&"b".to_string()), Some((3, 4)));
    index.remove(&"a".to_string());
    index.remove(&"zzz".to_string());
    assert_eq!(index.get(&"a".to_string()), None);
    assert_eq!(index.get(&"b".to_string()), Some((3, 4)));
    assert_eq!(index.insert("a".to_string(), 5, 6), Ok(()));
    assert_eq!(index.get(&"a".to_string()), Some((5, 6)));
}

#[test]
fn string_map() {
    let mut map: StringMap<i32> = StringMap::new();
    assert!(!map.contains_key(&"x".to_string()));
    map.insert("x".to_string(), 1);
    map.insert("y".to_string(), 2);
    map.insert("x".to_string(), 3);
    assert_eq!(map.get(&"x".to_string()), Some(&3));
    assert_eq!(map.get(&"y".to_string()), Some(&2));
    assert_eq!(map.get(&"z".to_string()), None);
    let mut keys = map.keys();
    keys.sort();
    assert_eq!(keys, vec!["x".to_string(), "y".to_string()]);
    assert_eq!(map.remove(&"x".to_string()), Some(3));
    assert_eq!(map.remove(&"x".to_string()), None);
    assert_eq!(map.keys(), vec!["y".to_string()]);
}

fn schema(name: &str) -> Schema {
    Schema {
        table_name: name.to_string(),
        columns: vec![Column {
            name: "id".to_string(),
            data_type: DataType::Integer,
            is_primary: true,
            is_autoincrement: true,
        }],
    }
}

#[test]
fn catalog_counters() {
    let mut catalog = Catalog::load_or_create("dir/catalog.json", None);
    assert_eq!(catalog.path, "dir/catalog.json");
    assert!(!catalog.unsaved);
    catalog.add_table(schema("t"));
    assert!(catalog.unsaved);
    assert_eq!(catalog.sequences.get(&"t".to_string()), Some(&0));
    assert_eq!(catalog.get_next_id("t"), 1);
    assert_eq!(catalog.get_next_id("t"), 2);
    assert_eq!(catalog.get_next_id("t"), 3);
    assert_eq!(catalog.get_next_id("other"), 1);
    catalog.add_table(schema("t"));
    assert_eq!(catalog.sequences.get(&"t".to_string()), Some(&3));

    let data = catalog.save();
    assert!(!catalog.unsaved);
    assert_eq!(data.sequences.get(&"t".to_string()), Some(&3));
    assert_eq!(data.tables.get(&"t".to_string()).map(|s| s.row_size()), Some(4));

    assert!(catalog.remove(&"t".to_string()));
    assert!(catalog.unsaved);
    assert!(!catalog.remove(&"t".to_string()));
    assert!(!catalog.tables.contains_key(&"t".to_string()));
    assert!(!catalog.sequences.contains_key(&"t".to_string()));

    let reloaded = Catalog::load_or_create("dir/catalog.json", Some(data));
    assert!(reloaded.tables.contains_key(&"t".to_string()));
    assert_eq!(reloaded.sequences.get(&"other".to_string()), Some(&1));
}

#[test]
fn schema_lookups() {
    let schema = Schema {
        table_name: "s".to_string(),
        columns: vec![
            Column {
                name: "a".to_string(),
                data_type: DataType::Boolean,
                is_primary: false,
                is_autoincrement: false,
            },
            Column {
                name: "b".to_string(),
                data_type: DataType::Text(10),
                is_primary: true,
                is_autoincrement: false,
            },
            Column {
                name: "a".to_string(),
                data_type: DataType::Integer,
                is_primary: true,
                is_autoincrement: true,
            },
        ],
    };
    assert_eq!(DataType::Integer.byte_size(), 4);
    assert_eq!(DataType::Boolean.byte_size(), 1);
    assert_eq!(DataType::Text(10).byte_size(), 10);
    assert_eq!(schema.row_size(), 15);
    assert_eq!(schema.find_column(&"a".to_string()), Some(0));
    assert_eq!(schema.find_column(&"b".to_string()), Some(1));
    assert_eq!(schema.find_column(&"c".to_string()), None);
    assert_eq!(schema.find_primary(), Some(1));
    assert_eq!(schema.find_autoincrement(), Some(2));
    assert!(schema.is_storable());
    assert_eq!(DataType::Text(10).to_debug_string(), format!("{:?}", DataType::Text(10)));
    assert_eq!(DataType::Boolean.to_debug_string(), format!("{:?}", DataType::Boolean));
    let huge = Schema {
        table_name: "h".to_string(),
        columns: vec![
            Column {
                name: "x".to_string(),
                data_type: DataType::Text(usize::MAX),
                is_primary: false,
                is_autoincrement: false,
            },
            Column {
                name: "y".to_string(),
                data_type: DataType::Boolean,
                is_primary: false,
                is_autoincrement: false,
            },
        ],
    };
    assert_eq!(huge.checked_row_size(), None);
    assert!(!huge.is_storable());
}

#[test]
fn filter_evaluation() {
    let schema = Schema {
        table_name: "s".to_string(),
        columns: vec![
            Column {
                name: "n".to_string(),
                data_type: DataType::Integer,
                is_primary: false,
                is_autoincrement: false,
            },
            Column {
                name: "t".to_string(),
                data_type: DataType::Text(4),
                is_primary: false,
                is_autoincrement: false,
            },
        ],
    };
    let row = Row { fields: vec![Field::Integer(5), Field::Text("x".to_string())] };
    let check = |column: &str, operator: Operator, value: Field| {
        Row::row_matches_filter(
            &row,
            &Filter { column_name: column.to_string(), operator, value },
            &schema,
        )
    };
    assert!(check("n", Operator::Eq, Field::Integer(5)));
    assert!(!check("n", Operator::Eq, Field::Integer(6)));
    assert!(!check("n", Operator::Eq, Field::Text("5".to_string())));
    assert!(check("n", Operator::NotEq, Field::Text("5".to_string())));
    assert!(check("n", Operator::GreaterThan, Field::Integer(4)));
    assert!(!check("n", Operator::GreaterThan, Field::Integer(5)));
    assert!(check("n", Operator::LessThan, Field::Integer(6)));
    assert!(!check("n", Operator::LessThan, Field::Boolean(true)));
    assert!(check("t", Operator::Eq, Field::Text("x".to_string())));
    assert!(!check("t", Operator::LessThan, Field::Text("y".to_string())));
    assert!(!check("missing", Operator::Eq, Field::Integer(5)));
    assert!(!check("missing", Operator::NotEq, Field::Integer(5)));
}

#[test]
fn debug_text_of_rows_is_what_debug_prints() {
    for row in [
        Row { fields: Vec::new() },
        Row { fields: vec![Field::Boolean(false)] },
        Row {
            fields: vec![
                Field::Integer(-3),
                Field::Text("tab\there 'q' \"d\" é \u{7f}".to_string()),
                Field::Boolean(true),
            ],
        },
    ] {
        assert_eq!(row.to_debug_string(), format!("{:?}", row));
        for field in &row.fields {
            assert_eq!(field.to_debug_string(), format!("{:?}", field));
        }
    }
}

#[test]
fn error_messages() {
    assert_eq!(Error::Unsupported("x".to_string()).message(), "Unsupported operation: x");
    assert_eq!(Error::Io("disk".to_string()).message(), "IO error: disk");
    assert_eq!(Error::Parse("eh".to_string()).message(), "Parse error: eh");
}
