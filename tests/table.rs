use rpfm::error::PackError;
use rpfm::payload::{
    Payload, PayloadKind, decode_loc, encode_loc, loc_definition, open_payload, payload_kind,
};
use rpfm::schema::SchemaRegistry;
use rpfm::table::{
    DecodedTable, FieldType, FieldValue, TableDefinition, cell_fits, decode_table, encode_table,
};

fn units(s: &str) -> Vec<u16> {
    s.encode_utf16().collect()
}

fn people() -> TableDefinition {
    let mut def = TableDefinition::new("people".to_string(), 1);
    def.push_field("id".to_string(), FieldType::Int);
    def.push_field("name".to_string(), FieldType::Str);
    def
}

fn people_bytes() -> Vec<u8> {
    vec![
        2, 0, 0, 0, // two rows
        1, 0, 0, 0, 5, 0, 0x41, 0, 0x6c, 0, 0x69, 0, 0x63, 0, 0x65, 0, // 1, "Alice"
        2, 0, 0, 0, 3, 0, 0x42, 0, 0x6f, 0, 0x62, 0, // 2, "Bob"
    ]
}

#[test]
fn scenario_c_decode_and_encode() {
    let def = people();
    let bytes = people_bytes();
    let t = decode_table(&bytes, &def).unwrap();
    assert_eq!(
        t.rows,
        vec![
            vec![FieldValue::Int(1), FieldValue::Str(units("Alice"))],
            vec![FieldValue::Int(2), FieldValue::Str(units("Bob"))],
        ]
    );
    assert_eq!(encode_table(&t).unwrap(), bytes);
    assert_eq!(t.definition.table_name, "people");
    assert_eq!(t.definition.fields.len(), 2);
}

#[test]
fn missing_row_count_is_truncated() {
    assert_eq!(decode_table(&[1, 0, 0], &people()).err(), Some(PackError::TruncatedData));
}

#[test]
fn failing_cell_is_located() {
    let bytes = people_bytes();
    // Cut inside the second row's name.
    let cut = &bytes[..bytes.len() - 2];
    assert_eq!(
        decode_table(cut, &people()).err(),
        Some(PackError::RowDecodeError { row: 1, field: 1 })
    );
    // Cut inside the second row's id.
    assert_eq!(
        decode_table(&bytes[..22], &people()).err(),
        Some(PackError::RowDecodeError { row: 1, field: 0 })
    );
}

#[test]
fn trailing_bytes_are_an_error() {
    let mut bytes = people_bytes();
    bytes.push(0);
    assert_eq!(
        decode_table(&bytes, &people()).err(),
        Some(PackError::RowDecodeError { row: 2, field: 0 })
    );
}

#[test]
fn every_field_type_round_trips() {
    let mut def = TableDefinition::new("all".to_string(), 3);
    def.push_field("b".to_string(), FieldType::Boolean);
    def.push_field("s".to_string(), FieldType::Str);
    def.push_field("sa".to_string(), FieldType::StrAscii);
    def.push_field("os".to_string(), FieldType::OptStr);
    def.push_field("osa".to_string(), FieldType::OptStrAscii);
    def.push_field("i".to_string(), FieldType::Int);
    def.push_field("f".to_string(), FieldType::Float);
    let row = vec![
        FieldValue::Boolean(true),
        FieldValue::Str(units("é")),
        FieldValue::StrAscii(b"ab".to_vec()),
        FieldValue::OptStr(vec![]),
        FieldValue::OptStrAscii(b"z".to_vec()),
        FieldValue::Int(-2),
        FieldValue::Float(1.5f32.to_bits()),
    ];
    let table = DecodedTable { definition: def, rows: vec![row.clone()] };
    let bytes = encode_table(&table).unwrap();
    assert_eq!(
        bytes,
        vec![
            1, 0, 0, 0, // one row
            1, // true
            1, 0, 0xe9, 0, // "é"
            2, 0, b'a', b'b', // "ab"
            0, 0, // absent
            1, 0, b'z', // "z"
            0xfe, 0xff, 0xff, 0xff, // -2
            0x00, 0x00, 0xc0, 0x3f, // 1.5
        ]
    );
    let back = decode_table(&bytes, &table.definition).unwrap();
    assert_eq!(back.rows, vec![row]);
    assert_eq!(f32::from_bits(match back.rows[0][6] {
        FieldValue::Float(b) => b,
        _ => 0,
    }), 1.5);
}

#[test]
fn extreme_integers() {
    let mut def = TableDefinition::new("n".to_string(), 1);
    def.push_field("i".to_string(), FieldType::Int);
    let bytes = vec![2, 0, 0, 0, 0, 0, 0, 0x80, 0xff, 0xff, 0xff, 0x7f];
    let t = decode_table(&bytes, &def).unwrap();
    assert_eq!(t.rows, vec![vec![FieldValue::Int(i32::MIN)], vec![FieldValue::Int(i32::MAX)]]);
    assert_eq!(encode_table(&t).unwrap(), bytes);
}

#[test]
fn invalid_boolean_byte() {
    let mut def = TableDefinition::new("flags".to_string(), 1);
    def.push_field("f".to_string(), FieldType::Boolean);
    assert_eq!(
        decode_table(&[1, 0, 0, 0, 2], &def).err(),
        Some(PackError::RowDecodeError { row: 0, field: 0 })
    );
}

#[test]
fn structural_drift_is_refused() {
    let t = DecodedTable {
        definition: people(),
        rows: vec![
            vec![FieldValue::Int(1), FieldValue::Str(units("A"))],
            vec![FieldValue::Int(2), FieldValue::Boolean(false)],
        ],
    };
    assert_eq!(encode_table(&t).err(), Some(PackError::RowDecodeError { row: 1, field: 1 }));
    let short = DecodedTable { definition: people(), rows: vec![vec![FieldValue::Int(1)]] };
    assert_eq!(
        encode_table(&short).err(),
        Some(PackError::RowDecodeError { row: 0, field: 1 })
    );
    assert!(!cell_fits(FieldType::Int, &FieldValue::Float(0)));
    assert!(cell_fits(FieldType::OptStr, &FieldValue::OptStr(vec![])));
}

#[test]
fn field_tags() {
    assert_eq!(FieldType::from_tag(&"int".to_string()), Ok(FieldType::Int));
    assert_eq!(FieldType::from_tag(&"optstring_ascii".to_string()), Ok(FieldType::OptStrAscii));
    assert_eq!(FieldType::from_tag(&"boolean".to_string()), Ok(FieldType::Boolean));
    assert_eq!(FieldType::from_tag(&"float".to_string()), Ok(FieldType::Float));
    assert_eq!(
        FieldType::from_tag(&"double".to_string()),
        Err(PackError::UnsupportedFieldType)
    );
}

#[test]
fn registry_lookup() {
    let mut reg = SchemaRegistry::new();
    assert_eq!(
        reg.lookup(&"people".to_string(), 1).err(),
        Some(PackError::SchemaUnavailable)
    );
    reg.insert(people());
    assert_eq!(reg.lookup(&"people".to_string(), 1).unwrap().fields.len(), 2);
    assert_eq!(
        reg.lookup(&"people".to_string(), 2).err(),
        Some(PackError::SchemaUnavailable)
    );
    let mut newer = TableDefinition::new("people".to_string(), 1);
    newer.push_field("id".to_string(), FieldType::Int);
    reg.insert(newer);
    assert_eq!(reg.definitions.len(), 1);
    assert_eq!(reg.lookup(&"people".to_string(), 1).unwrap().fields.len(), 1);
}

#[test]
fn payload_kinds() {
    let p = |s: &str| -> Vec<Vec<u16>> { s.split('/').map(units).collect() };
    assert_eq!(payload_kind(&p("db/units_tables/data")), PayloadKind::Db);
    assert_eq!(payload_kind(&p("text/db/en.loc")), PayloadKind::Loc);
    assert_eq!(payload_kind(&p("models/tank.rigid_model_v2")), PayloadKind::RigidModel);
    assert_eq!(payload_kind(&p("a/y.txt")), PayloadKind::Text);
    assert_eq!(payload_kind(&p("script.lua")), PayloadKind::Text);
    assert_eq!(payload_kind(&p("ui/skin.xml")), PayloadKind::Text);
    assert_eq!(payload_kind(&p("db")), PayloadKind::Raw);
    assert_eq!(payload_kind(&p("image.png")), PayloadKind::Raw);
    assert_eq!(payload_kind(&Vec::new()), PayloadKind::Raw);
}

#[test]
fn loc_round_trip() {
    let bytes = vec![
        0xFF, 0xFE, 0x4C, 0x4F, 0x43, 0x00, 0x01, 0x00, 0x00, 0x00, // header
        1, 0, 0, 0, // one row
        1, 0, 0x6b, 0, // "k"
        2, 0, 0x68, 0, 0x69, 0, // "hi"
        1, // tooltip
    ];
    let t = decode_loc(&bytes).unwrap();
    assert_eq!(
        t.rows,
        vec![vec![
            FieldValue::Str(units("k")),
            FieldValue::Str(units("hi")),
            FieldValue::Boolean(true)
        ]]
    );
    assert_eq!(encode_loc(&t).unwrap(), bytes);
    assert_eq!(loc_definition().fields.len(), 3);
    let mut bad = bytes.clone();
    bad[2] = b'X';
    assert_eq!(decode_loc(&bad).err(), Some(PackError::MalformedHeader));
    assert_eq!(decode_loc(&bytes[..5]).err(), Some(PackError::MalformedHeader));
}

#[test]
fn definition_from_schema_tags() {
    let fields = vec![
        ("id".to_string(), "int".to_string()),
        ("name".to_string(), "string".to_string()),
        ("note".to_string(), "optstring_ascii".to_string()),
    ];
    let def = TableDefinition::from_tags("people".to_string(), 4, &fields).unwrap();
    assert_eq!(def.version, 4);
    let types: Vec<FieldType> = def.fields.iter().map(|f| f.field_type).collect();
    assert_eq!(types, vec![FieldType::Int, FieldType::Str, FieldType::OptStrAscii]);
    assert_eq!(def.fields[2].name, "note");
    let bad = vec![("x".to_string(), "int".to_string()), ("y".to_string(), "uuid".to_string())];
    assert_eq!(
        TableDefinition::from_tags("t".to_string(), 1, &bad).err(),
        Some(PackError::UnsupportedFieldType)
    );
}

#[test]
fn open_payload_dispatches_on_path() {
    let p = |s: &str| -> Vec<Vec<u16>> { s.split('/').map(units).collect() };
    let def = people();
    match open_payload(&p("db/people_tables/data"), &people_bytes(), Some(&def)) {
        Ok(Payload::Db(t)) => assert_eq!(t.rows.len(), 2),
        other => panic!("unexpected {:?}", other),
    }
    assert_eq!(
        open_payload(&p("db/people_tables/data"), &people_bytes(), None).err(),
        Some(PackError::SchemaUnavailable)
    );
    match open_payload(&p("text/readme.txt"), b"hi", None) {
        Ok(Payload::Text(b)) => assert_eq!(b, b"hi".to_vec()),
        other => panic!("unexpected {:?}", other),
    }
    match open_payload(&p("art/icon.png"), &[1, 2], None) {
        Ok(Payload::Raw(b)) => assert_eq!(b, vec![1, 2]),
        other => panic!("unexpected {:?}", other),
    }
    assert_eq!(
        open_payload(&p("text/en.loc"), &[0, 1], None).err(),
        Some(PackError::MalformedHeader)
    );
    assert_eq!(
        open_payload(&p("m/a.rigid_model_v2"), &[0, 1], None).err(),
        Some(PackError::MalformedHeader)
    );
}
