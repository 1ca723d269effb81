use engine::catalog::schema::{Column, DataType, Schema};
use engine::storage::record::{Field, Row};

fn demo_schema() -> Schema {
    Schema {
        table_name: "test".to_string(),
        columns: vec![
            Column {
                name: "id".to_string(),
                data_type: DataType::Integer,
                is_primary: true,
                is_autoincrement: true,
            },
            Column {
                name: "active".to_string(),
                data_type: DataType::Boolean,
                is_primary: false,
                is_autoincrement: false,
            },
            Column {
                name: "name".to_string(),
                data_type: DataType::Text(20),
                is_primary: false,
                is_autoincrement: false,
            },
        ],
    }
}

#[test]
fn test_row_serialization() {
    let schema = Schema {
        table_name: "test".to_string(),
        columns: vec![
            Column {
                name: "id".to_string(),
                data_type: DataType::Integer,
                is_primary: true,
                is_autoincrement: true,
            },
            Column {
                name: "active".to_string(),
                data_type: DataType::Boolean,
                is_primary: false,
                is_autoincrement: false,
            },
            Column {
                name: "name".to_string(),
                data_type: DataType::Text(20),
                is_primary: false,
                is_autoincrement: false,
            },
        ],
    };

    let row = Row {
        fields: vec![
            Field::Integer(123),
            Field::Boolean(true),
            Field::Text("Hello".to_string()),
        ],
    };

    let bytes = row.serialize(&schema);
    let deserialized = Row::deserialize(&bytes, &schema);

    assert_eq!(row, deserialized);
}

#[test]
fn serialized_bytes_are_exact() {
    let schema = demo_schema();
    assert_eq!(schema.row_size(), 25);
    assert_eq!(schema.checked_row_size(), Some(25));
    let row = Row {
        fields: vec![
            Field::Integer(-2),
            Field::Boolean(false),
            Field::Text("hé".to_string()),
        ],
    };
    let bytes = row.serialize(&schema);
    let mut expected = vec![0xfe, 0xff, 0xff, 0xff, 0, b'h', 0xc3, 0xa9];
    expected.resize(25, 0);
    assert_eq!(bytes, expected);
    assert_eq!(Row::deserialize(&bytes, &schema), row);
}

#[test]
fn integer_extremes_round_trip() {
    let schema = Schema {
        table_name: "n".to_string(),
        columns: vec![Column {
            name: "v".to_string(),
            data_type: DataType::Integer,
            is_primary: false,
            is_autoincrement: false,
        }],
    };
    for v in [i32::MIN, -1, 0, 1, 0x1234_5678, i32::MAX] {
        let row = Row { fields: vec![Field::Integer(v)] };
        let bytes = row.serialize(&schema);
        assert_eq!(bytes, v.to_le_bytes().to_vec());
        assert_eq!(Row::deserialize(&bytes, &schema), row);
    }
}

#[test]
fn long_text_is_cut_to_the_column_width() {
    let schema = Schema {
        table_name: "t".to_string(),
        columns: vec![Column {
            name: "s".to_string(),
            data_type: DataType::Text(4),
            is_primary: false,
            is_autoincrement: false,
        }],
    };
    let row = Row { fields: vec![Field::Text("abcdef".to_string())] };
    let bytes = row.serialize(&schema);
    assert_eq!(bytes, b"abcd".to_vec());
    let back = Row::deserialize(&bytes, &schema);
    assert_eq!(back, Row { fields: vec![Field::Text("abcd".to_string())] });
}

#[test]
fn boolean_reads_any_nonzero_byte_as_true() {
    let schema = Schema {
        table_name: "b".to_string(),
        columns: vec![Column {
            name: "f".to_string(),
            data_type: DataType::Boolean,
            is_primary: false,
            is_autoincrement: false,
        }],
    };
    assert_eq!(Row::deserialize(&[0], &schema), Row { fields: vec![Field::Boolean(false)] });
    assert_eq!(Row::deserialize(&[1], &schema), Row { fields: vec![Field::Boolean(true)] });
    assert_eq!(Row::deserialize(&[200], &schema), Row { fields: vec![Field::Boolean(true)] });
}

#[test]
fn invalid_utf8_is_decoded_lossily() {
    let schema = Schema {
        table_name: "t".to_string(),
        columns: vec![Column {
            name: "s".to_string(),
            data_type: DataType::Text(3),
            is_primary: false,
            is_autoincrement: false,
        }],
    };
    let back = Row::deserialize(&[b'a', 0xff, b'b'], &schema);
    assert_eq!(back, Row { fields: vec![Field::Text("a\u{fffd}b".to_string())] });
}

#[test]
fn mistyped_field_contributes_no_bytes() {
    let schema = demo_schema();
    let row = Row {
        fields: vec![
            Field::Text("oops".to_string()),
            Field::Boolean(true),
            Field::Text("x".to_string()),
        ],
    };
    assert_eq!(row.serialize(&schema).len(), 21);
}
