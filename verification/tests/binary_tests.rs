use llsd::{LLSDBinaryParser, LLSDBinarySerializer, LLSDDocument, LLSDValue, LLSDDate};

fn dict(entries: Vec<(&str, LLSDValue)>) -> LLSDValue {
    LLSDValue::Dict(entries.into_iter().map(|(k, v)| (k.to_string(), v)).collect())
}

const SAMPLE_UUID: [u8; 16] = [
    0x55, 0x0e, 0x84, 0x00, 0xe2, 0x9b, 0x41, 0xd4, 0xa7, 0x16, 0x44, 0x66, 0x55, 0x44, 0x00,
    0x00,
];

#[test]
fn binary_test_binary_round_trip() {
    let original = dict(vec![
        ("string", LLSDValue::String("Hello World".to_string())),
        ("integer", LLSDValue::Integer(42)),
        ("real", LLSDValue::Real(3.14159f64.to_bits())),
        ("boolean", LLSDValue::Boolean(true)),
        ("uuid", LLSDValue::UUID(SAMPLE_UUID)),
        (
            "array",
            LLSDValue::Array(vec![
                LLSDValue::Integer(1),
                LLSDValue::Integer(2),
                LLSDValue::Integer(3),
            ]),
        ),
    ]);

    let document = LLSDDocument::new(original.clone());
    let serializer = LLSDBinarySerializer::new();
    let binary_data = serializer.serialize(&document).unwrap();

    let parser = LLSDBinaryParser::new();
    let parsed_document = parser.parse(&binary_data).unwrap();

    assert_eq!(*parsed_document.content(), original);
}

#[test]
fn test_magic_number_validation() {
    let invalid_data = vec![0xFF, 0xFF, 0xFF, 0xFF, 0x00];
    let parser = LLSDBinaryParser::new();
    assert!(parser.parse(&invalid_data).is_err());

    let parser_no_magic = LLSDBinaryParser::new().without_magic_validation();
    // still fails: 0xFF is not a type tag
    assert!(parser_no_magic.parse(&invalid_data).is_err());
}

#[test]
fn test_basic_types() {
    let serializer = LLSDBinarySerializer::new();
    let parser = LLSDBinaryParser::new();

    let doc = LLSDDocument::new(LLSDValue::Undefined);
    let data = serializer.serialize(&doc).unwrap();
    let parsed = parser.parse(&data).unwrap();
    assert_eq!(*parsed.content(), LLSDValue::Undefined);

    let doc = LLSDDocument::new(LLSDValue::Boolean(true));
    let data = serializer.serialize(&doc).unwrap();
    let parsed = parser.parse(&data).unwrap();
    assert_eq!(*parsed.content(), LLSDValue::Boolean(true));

    let doc = LLSDDocument::new(LLSDValue::Integer(-12345));
    let data = serializer.serialize(&doc).unwrap();
    let parsed = parser.parse(&data).unwrap();
    assert_eq!(*parsed.content(), LLSDValue::Integer(-12345));

    let doc = LLSDDocument::new(LLSDValue::Real(3.14159265f64.to_bits()));
    let data = serializer.serialize(&doc).unwrap();
    let parsed = parser.parse(&data).unwrap();
    if let LLSDValue::Real(bits) = parsed.content() {
        let r = f64::from_bits(*bits);
        assert!((r - 3.14159265).abs() < 1e-10);
    } else {
        panic!("expected a real value");
    }
}

#[test]
fn test_string_handling() {
    let serializer = LLSDBinarySerializer::new();
    let parser = LLSDBinaryParser::new();

    let test_strings = vec!["", "Hello World", "Unicode: \u{4f60}\u{597d}\u{4e16}\u{754c}", "Special chars: \n\t\r\0"];

    for s in test_strings {
        let doc = LLSDDocument::new(LLSDValue::String(s.to_string()));
        let data = serializer.serialize(&doc).unwrap();
        let parsed = parser.parse(&data).unwrap();
        assert_eq!(*parsed.content(), LLSDValue::String(s.to_string()));
    }
}

#[test]
fn test_binary_data() {
    let serializer = LLSDBinarySerializer::new();
    let parser = LLSDBinaryParser::new();

    let test_data = vec![0x00, 0xFF, 0x42, 0xAB, 0xCD, 0xEF];
    let doc = LLSDDocument::new(LLSDValue::Binary(test_data.clone()));
    let data = serializer.serialize(&doc).unwrap();
    let parsed = parser.parse(&data).unwrap();
    assert_eq!(*parsed.content(), LLSDValue::Binary(test_data));
}

#[test]
fn test_uuid_handling() {
    let serializer = LLSDBinarySerializer::new();
    let parser = LLSDBinaryParser::new();

    let doc = LLSDDocument::new(LLSDValue::UUID(SAMPLE_UUID));
    let data = serializer.serialize(&doc).unwrap();
    let parsed = parser.parse(&data).unwrap();
    assert_eq!(*parsed.content(), LLSDValue::UUID(SAMPLE_UUID));
}

#[test]
fn test_date_handling() {
    let serializer = LLSDBinarySerializer::new();
    let parser = LLSDBinaryParser::new();

    let test_date = LLSDDate { secs: 1609459200, nanos: 500_000_000 };
    let doc = LLSDDocument::new(LLSDValue::Date(test_date));
    let data = serializer.serialize(&doc).unwrap();
    let parsed = parser.parse(&data).unwrap();

    if let LLSDValue::Date(parsed_date) = parsed.content() {
        // allow for precision loss through the wire double
        let orig_ms = test_date.secs * 1000 + (test_date.nanos / 1_000_000) as i64;
        let got_ms = parsed_date.secs * 1000 + (parsed_date.nanos / 1_000_000) as i64;
        let diff = (got_ms - orig_ms).abs();
        assert!(diff < 10, "date difference too large: {} ms", diff);
    } else {
        panic!("expected a date value");
    }
}

#[test]
fn test_nested_structures() {
    let serializer = LLSDBinarySerializer::new();
    let parser = LLSDBinaryParser::new();

    let nested = dict(vec![(
        "level1",
        dict(vec![(
            "level2",
            LLSDValue::Array(vec![
                LLSDValue::String("deep".to_string()),
                LLSDValue::Integer(123),
            ]),
        )]),
    )]);

    let doc = LLSDDocument::new(nested.clone());
    let data = serializer.serialize(&doc).unwrap();
    let parsed = parser.parse(&data).unwrap();
    assert_eq!(*parsed.content(), nested);
}

#[test]
fn test_empty_containers() {
    let serializer = LLSDBinarySerializer::new();
    let parser = LLSDBinaryParser::new();

    let doc = LLSDDocument::new(LLSDValue::Array(Vec::new()));
    let data = serializer.serialize(&doc).unwrap();
    let parsed = parser.parse(&data).unwrap();
    assert_eq!(*parsed.content(), LLSDValue::Array(Vec::new()));

    let doc = LLSDDocument::new(LLSDValue::Dict(Vec::new()));
    let data = serializer.serialize(&doc).unwrap();
    let parsed = parser.parse(&data).unwrap();
    assert_eq!(*parsed.content(), LLSDValue::Dict(Vec::new()));
}

#[test]
fn binary_test_large_structures() {
    let serializer = LLSDBinarySerializer::new();
    let parser = LLSDBinaryParser::new().with_max_elements(10000);

    let large_array: Vec<LLSDValue> = (0..1000).map(LLSDValue::Integer).collect();

    let doc = LLSDDocument::new(LLSDValue::Array(large_array.clone()));
    let data = serializer.serialize(&doc).unwrap();
    let parsed = parser.parse(&data).unwrap();
    assert_eq!(*parsed.content(), LLSDValue::Array(large_array));
}

#[test]
fn test_max_depth_protection() {
    let parser = LLSDBinaryParser::new().with_max_depth(3);

    let deeply_nested = dict(vec![(
        "level1",
        dict(vec![(
            "level2",
            dict(vec![(
                "level3",
                dict(vec![("level4", LLSDValue::String("too deep".to_string()))]),
            )]),
        )]),
    )]);

    let serializer = LLSDBinarySerializer::new();
    let data = serializer.serialize(&LLSDDocument::new(deeply_nested)).unwrap();

    assert!(parser.parse(&data).is_err());
}
