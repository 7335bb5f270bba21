use llsd::{LLSDFactory, LLSDDocument, LLSDValue, LLSDType, LLSDUtils, LLSDDate};
use llsd::{SecondLifeLLSDUtils, SLValidationRules, validate_sl_structure};
use llsd::{FirestormLLSDUtils, FSValidationRules, validate_fs_structure};

fn dict(entries: Vec<(&str, LLSDValue)>) -> LLSDValue {
    LLSDValue::Dict(entries.into_iter().map(|(k, v)| (k.to_string(), v)).collect())
}

fn lookup<'a>(entries: &'a [(String, LLSDValue)], key: &str) -> &'a LLSDValue {
    &entries.iter().find(|(k, _)| k == key).expect("missing key").1
}

const SAMPLE_UUID: [u8; 16] = [
    0x55, 0x0e, 0x84, 0x00, 0xe2, 0x9b, 0x41, 0xd4, 0xa7, 0x16, 0x44, 0x66, 0x55, 0x44, 0x00,
    0x00,
];

#[test]
fn test_llsd_document_creation() {
    let doc = LLSDFactory::create(LLSDValue::String("test".to_string()));
    assert!(!doc.is_empty());
    assert_eq!(doc.get_type(), LLSDType::String);

    let empty_doc = LLSDDocument::empty();
    assert!(empty_doc.is_empty());
    assert_eq!(empty_doc.get_type(), LLSDType::Unknown);
}

#[test]
fn test_llsd_value_getters() {
    let bool_val = LLSDValue::Boolean(true);
    assert_eq!(bool_val.as_boolean(), Some(true));
    assert_eq!(bool_val.as_integer(), None);

    let int_val = LLSDValue::Integer(42);
    assert_eq!(int_val.as_integer(), Some(42));
    assert_eq!(int_val.as_real(), Some(42.0f64.to_bits()));

    let real_val = LLSDValue::Real(3.14f64.to_bits());
    assert_eq!(real_val.as_real(), Some(3.14f64.to_bits()));

    let string_val = LLSDValue::String("test".to_string());
    assert_eq!(string_val.as_string(), Some("test"));

    let uuid_val = LLSDValue::UUID(SAMPLE_UUID);
    assert_eq!(uuid_val.as_uuid(), Some(SAMPLE_UUID));
}

#[test]
fn test_path_navigation() {
    let root = dict(vec![(
        "user",
        dict(vec![
            ("name", LLSDValue::String("Alice".to_string())),
            ("age", LLSDValue::Integer(30)),
        ]),
    )]);

    assert_eq!(
        root.get_path("user.name"),
        Some(&LLSDValue::String("Alice".to_string()))
    );
    assert_eq!(root.get_path("user.age"), Some(&LLSDValue::Integer(30)));
    assert_eq!(root.get_path("user.missing"), None);
    assert_eq!(root.get_path("missing.path"), None);

    let mut root_mut = root.clone();
    assert!(root_mut.set_path("user.name", LLSDValue::String("Bob".to_string())));
    assert_eq!(
        root_mut.get_path("user.name"),
        Some(&LLSDValue::String("Bob".to_string()))
    );
}

#[test]
fn test_array_navigation() {
    let array = LLSDValue::Array(vec![
        LLSDValue::String("first".to_string()),
        LLSDValue::String("second".to_string()),
        LLSDValue::String("third".to_string()),
    ]);

    assert_eq!(array.get_path("0"), Some(&LLSDValue::String("first".to_string())));
    assert_eq!(array.get_path("2"), Some(&LLSDValue::String("third".to_string())));
    assert_eq!(array.get_path("5"), None);
}

#[test]
fn test_utils_functions() {
    let test_data = dict(vec![
        ("string", LLSDValue::String("hello".to_string())),
        ("integer", LLSDValue::Integer(42)),
        ("real", LLSDValue::Real(3.14f64.to_bits())),
        ("boolean", LLSDValue::Boolean(true)),
        ("uuid", LLSDValue::UUID(SAMPLE_UUID)),
    ]);

    assert_eq!(LLSDUtils::get_string(&test_data, "string", "default"), "hello");
    assert_eq!(LLSDUtils::get_string(&test_data, "missing", "default"), "default");

    assert_eq!(LLSDUtils::get_integer(&test_data, "integer", 0), 42);
    assert_eq!(LLSDUtils::get_integer(&test_data, "missing", 0), 0);

    assert_eq!(LLSDUtils::get_real(&test_data, "real", 0.0f64.to_bits()), 3.14f64.to_bits());
    assert_eq!(
        LLSDUtils::get_real(&test_data, "integer", 0.0f64.to_bits()),
        42.0f64.to_bits()
    );

    assert_eq!(LLSDUtils::get_boolean(&test_data, "boolean", false), true);
    assert_eq!(LLSDUtils::get_boolean(&test_data, "missing", false), false);
}

#[test]
fn test_floating_point_comparison() {
    let val1 = LLSDValue::Real(3.14159f64.to_bits());
    let val2 = LLSDValue::Real(3.14160f64.to_bits());
    let val3 = LLSDValue::Real(3.14159f64.to_bits());

    assert!(!LLSDUtils::equals_with_tolerance(&val1, &val2, 1e-6f64.to_bits()));
    assert!(LLSDUtils::equals_with_tolerance(&val1, &val2, 1e-4f64.to_bits()));
    assert!(LLSDUtils::equals_with_tolerance(&val1, &val3, 1e-10f64.to_bits()));

    let int_val = LLSDValue::Integer(3);
    let real_val = LLSDValue::Real(3.0f64.to_bits());
    assert!(LLSDUtils::equals_with_tolerance(&int_val, &real_val, 1e-10f64.to_bits()));
}

#[test]
fn test_map_operations() {
    let mut base_map: Vec<(String, LLSDValue)> = vec![
        ("a".to_string(), LLSDValue::Integer(1)),
        (
            "b".to_string(),
            dict(vec![("x", LLSDValue::String("old".to_string()))]),
        ),
    ];

    let overlay_map: Vec<(String, LLSDValue)> = vec![
        (
            "b".to_string(),
            dict(vec![("y", LLSDValue::String("new".to_string()))]),
        ),
        ("c".to_string(), LLSDValue::Integer(3)),
    ];

    LLSDUtils::merge_maps(&mut base_map, &overlay_map);

    assert_eq!(*lookup(&base_map, "a"), LLSDValue::Integer(1));
    assert_eq!(*lookup(&base_map, "c"), LLSDValue::Integer(3));

    if let LLSDValue::Dict(inner) = lookup(&base_map, "b") {
        assert_eq!(*lookup(inner, "x"), LLSDValue::String("old".to_string()));
        assert_eq!(*lookup(inner, "y"), LLSDValue::String("new".to_string()));
    } else {
        panic!("expected a nested map");
    }
}

#[test]
fn test_structure_analysis() {
    let complex_structure = dict(vec![
        (
            "level1",
            dict(vec![(
                "level2",
                LLSDValue::Array(vec![
                    LLSDValue::String("item1".to_string()),
                    LLSDValue::String("item2".to_string()),
                    dict(vec![("level3", LLSDValue::Integer(42))]),
                ]),
            )]),
        ),
        ("simple", LLSDValue::String("value".to_string())),
    ]);

    assert_eq!(LLSDUtils::max_depth(&complex_structure), 5);
    // each of the four containers counts one node, each of the four
    // leaves counts one: eight nodes in all
    assert_eq!(LLSDUtils::count_elements(&complex_structure), 8);

    assert!(LLSDUtils::validate_constraints(&complex_structure, 5, 10).is_ok());
    assert!(LLSDUtils::validate_constraints(&complex_structure, 3, 10).is_err());
    assert!(LLSDUtils::validate_constraints(&complex_structure, 5, 5).is_err());
}

#[test]
fn test_json_round_trip() {
    let original = dict(vec![
        ("string", LLSDValue::String("hello world".to_string())),
        ("integer", LLSDValue::Integer(-123)),
        ("real", LLSDValue::Real(3.14159f64.to_bits())),
        ("boolean", LLSDValue::Boolean(true)),
        (
            "array",
            LLSDValue::Array(vec![
                LLSDValue::Integer(1),
                LLSDValue::Integer(2),
                LLSDValue::Integer(3),
            ]),
        ),
        ("null", LLSDValue::Undefined),
    ]);

    let document = LLSDDocument::new(original);

    let json = LLSDFactory::serialize_json(&document, false).unwrap();
    let parsed_document = LLSDFactory::parse_json(&json).unwrap();

    assert_eq!(parsed_document.get_type(), document.get_type());
}

#[test]
fn test_xml_round_trip() {
    let original = dict(vec![
        ("string", LLSDValue::String("hello & <world>".to_string())),
        ("integer", LLSDValue::Integer(-123)),
        ("real", LLSDValue::Real(3.14159f64.to_bits())),
        ("boolean", LLSDValue::Boolean(true)),
        ("uuid", LLSDValue::UUID(SAMPLE_UUID)),
        ("date", LLSDValue::Date(LLSDDate { secs: 1609459200, nanos: 0 })),
        ("binary", LLSDValue::Binary(vec![0x48, 0x65, 0x6C, 0x6C, 0x6F])),
        (
            "array",
            LLSDValue::Array(vec![
                LLSDValue::Integer(1),
                LLSDValue::String("nested".to_string()),
            ]),
        ),
        ("null", LLSDValue::Undefined),
    ]);

    let document = LLSDDocument::new(original.clone());

    let xml = LLSDFactory::serialize_xml(&document, true).unwrap();
    let parsed_document = LLSDFactory::parse_xml(&xml).unwrap();

    assert_eq!(*parsed_document.content(), original);
}

#[test]
fn integration_tests_test_binary_round_trip() {
    let original = dict(vec![
        (
            "string",
            LLSDValue::String("unicode: \u{4f60}\u{597d}\u{4e16}\u{754c}".to_string()),
        ),
        ("integer", LLSDValue::Integer(i32::MIN)),
        ("real", LLSDValue::Real(std::f64::consts::PI.to_bits())),
        ("boolean", LLSDValue::Boolean(false)),
        ("uuid", LLSDValue::UUID(SAMPLE_UUID)),
        ("date", LLSDValue::Date(LLSDDate { secs: 1609459200, nanos: 500_000_000 })),
        (
            "uri",
            LLSDValue::URI("https://example.com/test?param=value".to_string()),
        ),
        ("binary", LLSDValue::Binary(vec![0x00, 0xFF, 0x42, 0xAB, 0xCD, 0xEF])),
        ("empty_array", LLSDValue::Array(Vec::new())),
        ("empty_map", LLSDValue::Dict(Vec::new())),
        (
            "nested",
            dict(vec![(
                "array",
                LLSDValue::Array(vec![
                    LLSDValue::Integer(1),
                    LLSDValue::Integer(2),
                    LLSDValue::Real(3.5f64.to_bits()),
                ]),
            )]),
        ),
    ]);

    let document = LLSDDocument::new(original.clone());

    let binary = LLSDFactory::serialize_binary(&document).unwrap();
    let parsed_document = LLSDFactory::parse_binary(&binary).unwrap();

    assert_eq!(*parsed_document.content(), original);
}

#[test]
fn test_error_handling() {
    assert!(LLSDFactory::parse_json("{invalid json}").is_err());
    assert!(LLSDFactory::parse_xml("<llsd><unclosed>").is_err());
    assert!(LLSDFactory::parse_binary(&[0xFF, 0xFF, 0xFF, 0xFF]).is_err());
    assert!(LLSDFactory::parse_binary(&[]).is_err());
}

#[test]
fn integration_tests_test_large_structures() {
    let large_array: Vec<LLSDValue> = (0..1000).map(LLSDValue::Integer).collect();

    let doc = LLSDDocument::new(LLSDValue::Array(large_array));

    let binary = LLSDFactory::serialize_binary(&doc).unwrap();
    let parsed = LLSDFactory::parse_binary(&binary).unwrap();

    if let LLSDValue::Array(parsed_array) = parsed.content() {
        assert_eq!(parsed_array.len(), 1000);
        assert_eq!(parsed_array[0], LLSDValue::Integer(0));
        assert_eq!(parsed_array[999], LLSDValue::Integer(999));
    } else {
        panic!("expected an array");
    }
}

#[test]
fn test_debug_string_formatting() {
    let complex_data = dict(vec![
        ("name", LLSDValue::String("Test".to_string())),
        (
            "values",
            LLSDValue::Array(vec![LLSDValue::Integer(1), LLSDValue::Boolean(true)]),
        ),
        ("binary", LLSDValue::Binary(vec![1, 2, 3, 4, 5])),
    ]);

    let debug_string = LLSDUtils::to_debug_string(&complex_data, 0);

    assert!(debug_string.contains("name"));
    assert!(debug_string.contains("Test"));
    assert!(debug_string.contains("values"));
    assert!(debug_string.contains("binary(5 bytes)"));
    assert!(debug_string.contains("{"));
    assert!(debug_string.contains("}"));
    assert!(debug_string.contains("["));
    assert!(debug_string.contains("]"));
}

#[test]
fn test_create_sl_response() {
    let response = SecondLifeLLSDUtils::create_sl_response(
        true,
        "Operation successful",
        Some(LLSDValue::Integer(42)),
    );

    assert_eq!(*lookup(&response, "success"), LLSDValue::Boolean(true));
    assert_eq!(
        *lookup(&response, "message"),
        LLSDValue::String("Operation successful".to_string())
    );
    assert_eq!(*lookup(&response, "data"), LLSDValue::Integer(42));
}

#[test]
fn test_uuid_validation() {
    let null_uuid = [0u8; 16];

    assert!(!SecondLifeLLSDUtils::is_valid_sl_uuid(&null_uuid));
    assert!(SecondLifeLLSDUtils::is_valid_sl_uuid(&SAMPLE_UUID));
}

#[test]
fn test_create_agent_appearance() {
    let appearance = SecondLifeLLSDUtils::create_agent_appearance(
        SAMPLE_UUID,
        123,
        false,
        vec![LLSDValue::String("attachment1".to_string())],
        vec![1, 2, 3, 4],
        vec![LLSDValue::String("texture1".to_string())],
    );

    assert_eq!(*lookup(&appearance, "agent_id"), LLSDValue::UUID(SAMPLE_UUID));
    assert_eq!(*lookup(&appearance, "serial_number"), LLSDValue::Integer(123));
    assert_eq!(*lookup(&appearance, "is_trial_account"), LLSDValue::Boolean(false));
    assert_eq!(*lookup(&appearance, "appearance_version"), LLSDValue::Integer(1));
    assert_eq!(*lookup(&appearance, "cof_version"), LLSDValue::Integer(1));
}

#[test]
fn test_asset_type_conversion() {
    let upload_request = SecondLifeLLSDUtils::create_asset_upload_request(
        "texture",
        "Test Texture",
        "A test texture",
        vec![1, 2, 3, 4],
        10,
    );

    assert_eq!(
        *lookup(&upload_request, "asset_type"),
        LLSDValue::String("texture".to_string())
    );
    assert_eq!(*lookup(&upload_request, "inventory_type"), LLSDValue::Integer(0));
    assert_eq!(*lookup(&upload_request, "expected_upload_cost"), LLSDValue::Integer(10));
}

#[test]
fn test_validation_rules() {
    let rules = SLValidationRules::new()
        .require_map()
        .require_field("name", Some("string"))
        .require_field("age", Some("integer"));

    let valid_data = dict(vec![
        ("name", LLSDValue::String("Alice".to_string())),
        ("age", LLSDValue::Integer(30)),
    ]);

    let result = validate_sl_structure(&valid_data, &rules);
    assert!(result.is_valid());
    assert!(result.warnings().is_empty());

    let invalid_data = dict(vec![("name", LLSDValue::String("Bob".to_string()))]);

    let result = validate_sl_structure(&invalid_data, &rules);
    assert!(!result.is_valid());
    assert!(!result.errors().is_empty());

    let type_mismatch_data = dict(vec![
        ("name", LLSDValue::String("Charlie".to_string())),
        ("age", LLSDValue::String("thirty".to_string())),
    ]);

    let result = validate_sl_structure(&type_mismatch_data, &rules);
    assert!(result.is_valid());
    assert!(!result.warnings().is_empty());
}

#[test]
fn test_version_compatibility() {
    assert!(FirestormLLSDUtils::is_compatible_version("6.5.0", "6.0.0"));
    assert!(FirestormLLSDUtils::is_compatible_version("6.0.0", "6.0.0"));
    assert!(!FirestormLLSDUtils::is_compatible_version("5.9.0", "6.0.0"));
    assert!(!FirestormLLSDUtils::is_compatible_version("", "6.0.0"));
    assert!(!FirestormLLSDUtils::is_compatible_version("6.0.0", ""));

    assert!(FirestormLLSDUtils::is_compatible_version("6.0.1.123", "6.0.0"));
    assert!(FirestormLLSDUtils::is_compatible_version("6.0.0.456", "6.0.0.123"));
}

#[test]
fn test_fs_validation() {
    let rules = FSValidationRules::new()
        .require_map()
        .require_fs_version("6.0.0")
        .require_field("command", Some("string"));

    let valid_data = dict(vec![
        ("command", LLSDValue::String("test".to_string())),
        ("firestorm_version", LLSDValue::String("6.0.0".to_string())),
    ]);

    let result = validate_fs_structure(&valid_data, &rules);
    assert!(result.is_valid());

    let invalid_data = dict(vec![
        ("command", LLSDValue::String("test".to_string())),
        ("firestorm_version", LLSDValue::String("5.9.0".to_string())),
    ]);

    let result = validate_fs_structure(&invalid_data, &rules);
    assert!(!result.is_valid());
    assert!(!result.errors().is_empty());
}
