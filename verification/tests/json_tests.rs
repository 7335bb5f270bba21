use llsd::{LLSDJsonParser, LLSDJsonSerializer, LLSDDocument, LLSDValue};

fn dict(entries: Vec<(&str, LLSDValue)>) -> LLSDValue {
    LLSDValue::Dict(entries.into_iter().map(|(k, v)| (k.to_string(), v)).collect())
}

fn lookup<'a>(v: &'a LLSDValue, key: &str) -> &'a LLSDValue {
    match v {
        LLSDValue::Dict(entries) => {
            &entries.iter().find(|(k, _)| k == key).expect("missing key").1
        }
        _ => panic!("expected a map"),
    }
}

#[test]
fn test_parse_basic_types() {
    let parser = LLSDJsonParser::new();

    let doc = parser.parse("null").unwrap();
    assert!(doc.content().is_undefined());

    let doc = parser.parse("true").unwrap();
    assert_eq!(doc.content(), &LLSDValue::Boolean(true));

    let doc = parser.parse("42").unwrap();
    assert_eq!(doc.content(), &LLSDValue::Integer(42));

    let doc = parser.parse("3.14").unwrap();
    assert_eq!(doc.content(), &LLSDValue::Real(3.14f64.to_bits()));

    let doc = parser.parse("\"hello\"").unwrap();
    assert_eq!(doc.content(), &LLSDValue::String("hello".to_string()));
}

#[test]
fn test_parse_array() {
    let parser = LLSDJsonParser::new();
    let doc = parser.parse("[1, \"hello\", true]").unwrap();

    if let LLSDValue::Array(arr) = doc.content() {
        assert_eq!(arr.len(), 3);
        assert_eq!(arr[0], LLSDValue::Integer(1));
        assert_eq!(arr[1], LLSDValue::String("hello".to_string()));
        assert_eq!(arr[2], LLSDValue::Boolean(true));
    } else {
        panic!("expected an array");
    }
}

#[test]
fn test_parse_map() {
    let parser = LLSDJsonParser::new();
    let doc = parser.parse(r#"{"name": "Alice", "age": 30}"#).unwrap();

    if let LLSDValue::Dict(entries) = doc.content() {
        assert_eq!(entries.len(), 2);
        assert_eq!(*lookup(doc.content(), "name"), LLSDValue::String("Alice".to_string()));
        assert_eq!(*lookup(doc.content(), "age"), LLSDValue::Integer(30));
    } else {
        panic!("expected a map");
    }
}

#[test]
fn test_uuid_parsing() {
    let parser = LLSDJsonParser::new().with_strict_uuid_parsing(false);
    let uuid_str = "550e8400-e29b-41d4-a716-446655440000";
    let doc = parser.parse(&format!("\"{}\"", uuid_str)).unwrap();

    if let LLSDValue::UUID(bytes) = doc.content() {
        let expected: [u8; 16] = [
            0x55, 0x0e, 0x84, 0x00, 0xe2, 0x9b, 0x41, 0xd4, 0xa7, 0x16, 0x44, 0x66, 0x55, 0x44,
            0x00, 0x00,
        ];
        assert_eq!(*bytes, expected);
    } else {
        panic!("expected a UUID");
    }
}

#[test]
fn test_serialize_basic_types() {
    let serializer = LLSDJsonSerializer::new();

    let doc = LLSDDocument::new(LLSDValue::Undefined);
    assert_eq!(serializer.serialize(&doc).unwrap(), "null");

    let doc = LLSDDocument::new(LLSDValue::Boolean(true));
    assert_eq!(serializer.serialize(&doc).unwrap(), "true");

    let doc = LLSDDocument::new(LLSDValue::Integer(42));
    assert_eq!(serializer.serialize(&doc).unwrap(), "42");

    let doc = LLSDDocument::new(LLSDValue::String("hello".to_string()));
    assert_eq!(serializer.serialize(&doc).unwrap(), "\"hello\"");
}

#[test]
fn test_serialize_uuid_with_type_preservation() {
    let serializer = LLSDJsonSerializer::new().with_type_preservation(true);
    let uuid: [u8; 16] = [
        0x55, 0x0e, 0x84, 0x00, 0xe2, 0x9b, 0x41, 0xd4, 0xa7, 0x16, 0x44, 0x66, 0x55, 0x44, 0x00,
        0x00,
    ];
    let doc = LLSDDocument::new(LLSDValue::UUID(uuid));

    let json = serializer.serialize(&doc).unwrap();
    assert!(json.contains("__type"));
    assert!(json.contains("uuid"));
    assert!(json.contains("550e8400-e29b-41d4-a716-446655440000"));
}

#[test]
fn test_round_trip() {
    let original_data = dict(vec![
        ("name", LLSDValue::String("Alice".to_string())),
        ("age", LLSDValue::Integer(30)),
        (
            "scores",
            LLSDValue::Array(vec![
                LLSDValue::Integer(95),
                LLSDValue::Integer(87),
                LLSDValue::Real(92.5f64.to_bits()),
            ]),
        ),
    ]);

    let doc = LLSDDocument::new(original_data);
    let serializer = LLSDJsonSerializer::new();
    let json = serializer.serialize(&doc).unwrap();

    let parser = LLSDJsonParser::new();
    let parsed_doc = parser.parse(&json).unwrap();

    // JSON's type universe is smaller, so only the root type is promised
    assert_eq!(parsed_doc.get_type(), doc.get_type());
}
