use llsd::{LLSDFactory, LLSDBinaryParser, LLSDDocument, LLSDValue, FSLLSDCache};
use llsd::{LLSDJsonParser, LLSDError, QuotaKind};

fn dict(entries: Vec<(&str, LLSDValue)>) -> LLSDValue {
    LLSDValue::Dict(entries.into_iter().map(|(k, v)| (k.to_string(), v)).collect())
}

#[test]
fn test_nil_uuid_binary_wire() {
    let doc = LLSDDocument::new(LLSDValue::UUID([0u8; 16]));
    let bytes = LLSDFactory::serialize_binary(&doc).unwrap();

    let mut expected = vec![0x6C, 0x6C, 0x73, 0x64, 0x05];
    expected.extend_from_slice(&[0u8; 16]);
    assert_eq!(bytes, expected);

    let parsed = LLSDFactory::parse_binary(&bytes).unwrap();
    assert_eq!(*parsed.content(), LLSDValue::UUID([0u8; 16]));
}

#[test]
fn test_xml_map_with_reserved_characters() {
    let value = dict(vec![(
        "greeting",
        LLSDValue::String("hello & <world>".to_string()),
    )]);
    let doc = LLSDDocument::new(value.clone());

    let xml = LLSDFactory::serialize_xml(&doc, false).unwrap();
    assert_eq!(
        xml,
        "<?xml version=\"1.0\" encoding=\"UTF-8\"?><llsd><map><key>greeting</key>\
         <string>hello &amp; &lt;world&gt;</string></map></llsd>"
    );

    let parsed = LLSDFactory::parse_xml(&xml).unwrap();
    assert_eq!(*parsed.content(), value);
}

#[test]
fn test_json_integer_widening() {
    let parsed = LLSDFactory::parse_json("2147483648").unwrap();
    assert_eq!(*parsed.content(), LLSDValue::Real(2147483648.0f64.to_bits()));

    let parsed = LLSDFactory::parse_json("2147483647").unwrap();
    assert_eq!(*parsed.content(), LLSDValue::Integer(2147483647));
}

#[test]
fn test_json_heuristic_uuid() {
    let parser = LLSDJsonParser::new().with_strict_uuid_parsing(false);

    let parsed = parser.parse("\"550e8400-e29b-41d4-a716-446655440000\"").unwrap();
    assert!(matches!(parsed.content(), LLSDValue::UUID(_)));

    let parsed = parser.parse("\"not-a-uuid\"").unwrap();
    assert_eq!(*parsed.content(), LLSDValue::String("not-a-uuid".to_string()));
}

#[test]
fn test_depth_quota() {
    let four_deep = dict(vec![(
        "a",
        dict(vec![(
            "b",
            dict(vec![("c", dict(vec![("d", LLSDValue::String("x".to_string()))]))]),
        )]),
    )]);
    let bytes = LLSDFactory::serialize_binary(&LLSDDocument::new(four_deep.clone())).unwrap();

    let tight = LLSDBinaryParser::new().with_max_depth(3);
    match tight.parse(&bytes) {
        Err(LLSDError::QuotaExceeded { kind }) => assert_eq!(kind, QuotaKind::Depth),
        other => panic!("expected a depth quota failure, got {:?}", other.map(|d| d.get_type())),
    }

    let roomy = LLSDBinaryParser::new().with_max_depth(4);
    let parsed = roomy.parse(&bytes).unwrap();
    assert_eq!(*parsed.content(), four_deep);
}

#[test]
fn test_ttl_expiry() {
    let mut cache = FSLLSDCache::new(100);
    let t0: u64 = 5_000;
    cache.put_at("k", &LLSDValue::Integer(1), t0);

    assert_eq!(cache.get_at("k", t0 + 10), Some(LLSDValue::Integer(1)));
    assert_eq!(cache.get_at("k", t0 + 150), None);
    assert_eq!(cache.size(), 0);
}

#[test]
fn test_cache_operations() {
    let mut cache = FSLLSDCache::new(100);
    let test_data = LLSDValue::String("test_value".to_string());

    let t0: u64 = 1_000;
    cache.put_at("test_key", &test_data, t0);
    assert_eq!(cache.get_at("test_key", t0 + 1), Some(test_data));
    assert_eq!(cache.size(), 1);

    assert_eq!(cache.get_at("non_existent", t0 + 1), None);

    assert_eq!(cache.get_at("test_key", t0 + 150), None);
    assert_eq!(cache.size(), 0);

    cache.put("key1", LLSDValue::Integer(1));
    cache.put("key2", LLSDValue::Integer(2));
    assert_eq!(cache.size(), 2);
    cache.clear();
    assert_eq!(cache.size(), 0);
}

#[test]
fn test_set_then_get_path() {
    let mut root = dict(vec![(
        "settings",
        dict(vec![("volume", LLSDValue::Integer(3))]),
    )]);

    assert!(root.set_path("settings.volume", LLSDValue::Integer(9)));
    assert_eq!(root.get_path("settings.volume"), Some(&LLSDValue::Integer(9)));

    assert!(root.set_path("settings.muted", LLSDValue::Boolean(true)));
    assert_eq!(root.get_path("settings.muted"), Some(&LLSDValue::Boolean(true)));

    // intermediate nodes are not created
    assert!(!root.set_path("missing.key", LLSDValue::Integer(1)));
}

#[test]
fn test_merge_is_keywise() {
    let mut base: Vec<(String, LLSDValue)> = vec![
        ("kept".to_string(), LLSDValue::Integer(1)),
        ("replaced".to_string(), LLSDValue::Integer(2)),
        (
            "nested".to_string(),
            dict(vec![("a", LLSDValue::Integer(3))]),
        ),
    ];
    let overlay: Vec<(String, LLSDValue)> = vec![
        ("replaced".to_string(), LLSDValue::Integer(20)),
        (
            "nested".to_string(),
            dict(vec![("b", LLSDValue::Integer(30))]),
        ),
        ("fresh".to_string(), LLSDValue::Integer(40)),
    ];

    llsd::LLSDUtils::merge_maps(&mut base, &overlay);

    let find = |k: &str| base.iter().find(|(key, _)| key == k).map(|(_, v)| v.clone());
    assert_eq!(find("kept"), Some(LLSDValue::Integer(1)));
    assert_eq!(find("replaced"), Some(LLSDValue::Integer(20)));
    assert_eq!(find("fresh"), Some(LLSDValue::Integer(40)));
    assert_eq!(
        find("nested"),
        Some(dict(vec![
            ("a", LLSDValue::Integer(3)),
            ("b", LLSDValue::Integer(30)),
        ]))
    );
}

#[test]
fn test_binary_truncated_input() {
    // a string that declares four bytes but carries one
    let bytes = vec![0x6C, 0x6C, 0x73, 0x64, 0x04, 0x00, 0x00, 0x00, 0x04, 0x61];
    assert!(matches!(
        LLSDFactory::parse_binary(&bytes),
        Err(LLSDError::UnexpectedEndOfData)
    ));
}

#[test]
fn test_pretty_xml_exact_output() {
    let doc = LLSDDocument::new(LLSDValue::Array(vec![LLSDValue::Integer(1)]));
    let xml = LLSDFactory::serialize_xml(&doc, true).unwrap();
    assert_eq!(
        xml,
        "<?xml version=\"1.0\" encoding=\"UTF-8\"?><llsd>\n<array>\n  <integer>1</integer>\n</array>\n</llsd>"
    );
}

#[test]
fn test_pretty_json_exact_output() {
    let arr = LLSDDocument::new(LLSDValue::Array(vec![LLSDValue::Integer(1)]));
    assert_eq!(LLSDFactory::serialize_json(&arr, true).unwrap(), "[\n  1\n]");
    let map = LLSDDocument::new(dict(vec![("a", LLSDValue::Integer(1))]));
    assert_eq!(
        LLSDFactory::serialize_json(&map, true).unwrap(),
        "{\n  \"a\": 1\n}"
    );
}

#[test]
fn test_binary_unknown_tag() {
    // the magic, then a type tag outside the known range
    let bytes = vec![0x6C, 0x6C, 0x73, 0x64, 0x0B];
    match LLSDFactory::parse_binary(&bytes) {
        Err(LLSDError::InvalidType { type_id }) => assert_eq!(type_id, 11),
        other => panic!("expected an unknown-tag failure, got {:?}", other.is_ok()),
    }
}

#[test]
fn test_cache_monotonic_hit() {
    let mut cache = FSLLSDCache::new(10_000);
    cache.put("now", LLSDValue::Integer(7));
    assert_eq!(cache.get("now"), Some(LLSDValue::Integer(7)));
    assert_eq!(cache.size(), 1);
}

#[test]
fn test_binary_element_quota() {
    let many: Vec<LLSDValue> = (0..10).map(LLSDValue::Integer).collect();
    let bytes =
        LLSDFactory::serialize_binary(&LLSDDocument::new(LLSDValue::Array(many))).unwrap();
    let tight = LLSDBinaryParser::new().with_max_elements(5);
    match tight.parse(&bytes) {
        Err(LLSDError::QuotaExceeded { kind }) => assert_eq!(kind, QuotaKind::Elements),
        other => panic!("expected an element quota failure, got {:?}", other.is_ok()),
    }
}

#[test]
fn test_json_type_preserving_round_trip() {
    let value = dict(vec![
        ("id", LLSDValue::UUID([0xAB; 16])),
        ("when", LLSDValue::Date(llsd::LLSDDate { secs: 1609459200, nanos: 123_000_000 })),
        ("site", LLSDValue::URI("https://example.com/a".to_string())),
        ("blob", LLSDValue::Binary(vec![1, 2, 3])),
        ("note", LLSDValue::String("plain text here".to_string())),
    ]);
    let doc = LLSDDocument::new(value.clone());

    let serializer = llsd::LLSDJsonSerializer::new().with_type_preservation(true);
    let json = serializer.serialize(&doc).unwrap();
    let parsed = llsd::LLSDJsonParser::new().parse(&json).unwrap();
    assert_eq!(*parsed.content(), value);
}

#[test]
fn test_xml_entities_and_cdata() {
    let xml = "<?xml version=\"1.0\" encoding=\"UTF-8\"?><llsd><string>a &amp; b \
               <![CDATA[<raw>]]> &lt;ok&gt;</string></llsd>";
    let parsed = LLSDFactory::parse_xml(xml).unwrap();
    assert_eq!(
        *parsed.content(),
        LLSDValue::String("a & b <raw> <ok>".to_string())
    );
}

#[test]
fn test_xml_key_without_value() {
    let xml = "<?xml version=\"1.0\" encoding=\"UTF-8\"?><llsd><map><key>lonely</key></map></llsd>";
    assert!(LLSDFactory::parse_xml(xml).is_err());
}

#[test]
fn test_json_tunnel_fallback() {
    // an unknown tunnel kind falls back to a plain map
    let parsed = LLSDFactory::parse_json("{\"__type\":\"color\",\"value\":\"red\"}").unwrap();
    assert!(matches!(parsed.content(), LLSDValue::Dict(_)));
}

#[test]
fn test_json_non_finite_real_is_refused() {
    let doc = LLSDDocument::new(LLSDValue::Real(f64::NAN.to_bits()));
    assert!(matches!(
        LLSDFactory::serialize_json(&doc, false),
        Err(LLSDError::InvalidNumber)
    ));
}

#[test]
fn test_uuid_text_round_trip() {
    let bytes: [u8; 16] = [
        0x55, 0x0e, 0x84, 0x00, 0xe2, 0x9b, 0x41, 0xd4, 0xa7, 0x16, 0x44, 0x66, 0x55, 0x44,
        0x00, 0x00,
    ];
    let doc = LLSDDocument::new(LLSDValue::UUID(bytes));
    let xml = LLSDFactory::serialize_xml(&doc, false).unwrap();
    assert!(xml.contains("<uuid>550e8400-e29b-41d4-a716-446655440000</uuid>"));
    let parsed = LLSDFactory::parse_xml(&xml).unwrap();
    assert_eq!(*parsed.content(), LLSDValue::UUID(bytes));
}

#[test]
fn test_base64_xml_binary() {
    // "Hello" is SGVsbG8= in base64
    let doc = LLSDDocument::new(LLSDValue::Binary(vec![0x48, 0x65, 0x6C, 0x6C, 0x6F]));
    let xml = LLSDFactory::serialize_xml(&doc, false).unwrap();
    assert!(xml.contains("<binary>SGVsbG8=</binary>"));
    let parsed = LLSDFactory::parse_xml(&xml).unwrap();
    assert_eq!(
        *parsed.content(),
        LLSDValue::Binary(vec![0x48, 0x65, 0x6C, 0x6C, 0x6F])
    );
}

#[test]
fn test_xml_error_variants() {
    let bad_uuid = "<?xml version=\"1.0\" encoding=\"UTF-8\"?><llsd><uuid>zz</uuid></llsd>";
    assert!(matches!(
        LLSDFactory::parse_xml(bad_uuid),
        Err(LLSDError::InvalidUuid { .. })
    ));

    let bad_date = "<?xml version=\"1.0\" encoding=\"UTF-8\"?><llsd><date>yesterday</date></llsd>";
    assert!(matches!(
        LLSDFactory::parse_xml(bad_date),
        Err(LLSDError::InvalidDate { .. })
    ));

    let bad_b64 = "<?xml version=\"1.0\" encoding=\"UTF-8\"?><llsd><binary>!!!</binary></llsd>";
    assert!(matches!(LLSDFactory::parse_xml(bad_b64), Err(LLSDError::Base64Error)));

    let no_root = "<?xml version=\"1.0\" encoding=\"UTF-8\"?><other/>";
    assert!(matches!(LLSDFactory::parse_xml(no_root), Err(LLSDError::MissingRoot)));

    let bad_int = "<?xml version=\"1.0\" encoding=\"UTF-8\"?><llsd><integer>4e2</integer></llsd>";
    assert!(LLSDFactory::parse_xml(bad_int).is_err());
}

#[test]
fn test_binary_bad_utf8() {
    // a one-byte string holding 0xFF, which no UTF-8 text contains
    let bytes = vec![0x6C, 0x6C, 0x73, 0x64, 0x04, 0x00, 0x00, 0x00, 0x01, 0xFF];
    assert!(matches!(
        LLSDFactory::parse_binary(&bytes),
        Err(LLSDError::Utf8Error)
    ));
}

#[test]
fn test_strict_uuid_mode() {
    // the simple (dashless) form reads as a UUID only in strict mode
    let simple = "\"550e8400e29b41d4a716446655440000\"";

    let lax = LLSDJsonParser::new().with_strict_uuid_parsing(false);
    assert!(matches!(
        lax.parse(simple).unwrap().content(),
        LLSDValue::String(_)
    ));

    let strict = LLSDJsonParser::new().with_strict_uuid_parsing(true);
    assert!(matches!(
        strict.parse(simple).unwrap().content(),
        LLSDValue::UUID(_)
    ));
}

#[test]
fn test_get_integer_truncates_real() {
    let data = dict(vec![("speed", LLSDValue::Real(7.9f64.to_bits()))]);
    assert_eq!(llsd::LLSDUtils::get_integer(&data, "speed", 0), 7);
}

#[test]
fn test_json_real_exact_round_trip() {
    let doc = LLSDDocument::new(LLSDValue::Real(2.5f64.to_bits()));
    let json = LLSDFactory::serialize_json(&doc, false).unwrap();
    let parsed = LLSDFactory::parse_json(&json).unwrap();
    assert_eq!(*parsed.content(), LLSDValue::Real(2.5f64.to_bits()));

    // an integral real keeps its realness through the JSON number text
    let doc = LLSDDocument::new(LLSDValue::Real(5.0f64.to_bits()));
    let json = LLSDFactory::serialize_json(&doc, false).unwrap();
    let parsed = LLSDFactory::parse_json(&json).unwrap();
    assert_eq!(*parsed.content(), LLSDValue::Real(5.0f64.to_bits()));

    let parsed = LLSDFactory::parse_json("1.5e2").unwrap();
    assert_eq!(*parsed.content(), LLSDValue::Real(150.0f64.to_bits()));
}

#[test]
fn test_json_string_escapes() {
    let parsed = LLSDFactory::parse_json("\"a\\u0041\\n\\t\\\\ b\"").unwrap();
    assert_eq!(*parsed.content(), LLSDValue::String("aA\n\t\\ b".to_string()));

    // a surrogate pair
    let parsed = LLSDFactory::parse_json("\"\\uD83D\\uDE00\"").unwrap();
    assert_eq!(
        *parsed.content(),
        LLSDValue::String("\u{1F600}".to_string())
    );

    let doc = LLSDDocument::new(LLSDValue::String("say \"hi\"\n".to_string()));
    let json = LLSDFactory::serialize_json(&doc, false).unwrap();
    assert_eq!(json, "\"say \\\"hi\\\"\\n\"");
    let back = LLSDFactory::parse_json(&json).unwrap();
    assert_eq!(*back.content(), LLSDValue::String("say \"hi\"\n".to_string()));
}

#[test]
fn test_filter_and_scrub() {
    let map: Vec<(String, LLSDValue)> = vec![
        ("keep".to_string(), LLSDValue::Integer(1)),
        ("drop".to_string(), LLSDValue::Integer(2)),
        ("hole".to_string(), LLSDValue::Undefined),
    ];

    let kept = llsd::LLSDUtils::filter_map(&map, &vec!["keep".to_string(), "hole".to_string()]);
    assert_eq!(kept.len(), 2);
    assert_eq!(kept[0].0, "keep");
    assert_eq!(kept[1].0, "hole");

    let mut scrubbed = map.clone();
    llsd::LLSDUtils::remove_nulls(&mut scrubbed);
    assert_eq!(scrubbed.len(), 2);
    assert!(scrubbed.iter().all(|(k, _)| k != "hole"));
}

#[test]
fn test_factory_containers() {
    let m = LLSDFactory::create_map();
    assert_eq!(m.get_type(), llsd::LLSDType::Dict);
    let a = LLSDFactory::create_array();
    assert_eq!(a.get_type(), llsd::LLSDType::Array);
}

#[test]
fn test_debug_leaf_forms() {
    assert_eq!(
        llsd::LLSDUtils::to_debug_string(&LLSDValue::Integer(-42), 0),
        "-42"
    );
    assert_eq!(
        llsd::LLSDUtils::to_debug_string(&LLSDValue::String("x".to_string()), 0),
        "\"x\""
    );
    assert_eq!(
        llsd::LLSDUtils::to_debug_string(&LLSDValue::UUID([0u8; 16]), 0),
        "00000000-0000-0000-0000-000000000000"
    );
}

#[test]
fn test_sl_uuid_text_from_random() {
    // fresh random UUIDs format as 36 hyphenated characters and read back
    let u = llsd::LLSDUtils::generate_uuid();
    let doc = LLSDDocument::new(LLSDValue::UUID(u));
    let xml = LLSDFactory::serialize_xml(&doc, false).unwrap();
    let back = LLSDFactory::parse_xml(&xml).unwrap();
    assert_eq!(*back.content(), LLSDValue::UUID(u));
}

#[test]
fn test_xml_date_round_trip_nanos() {
    let d = llsd::LLSDDate { secs: 1609459200, nanos: 123_456_789 };
    let doc = LLSDDocument::new(LLSDValue::Date(d));
    let xml = LLSDFactory::serialize_xml(&doc, false).unwrap();
    let back = LLSDFactory::parse_xml(&xml).unwrap();
    assert_eq!(*back.content(), LLSDValue::Date(d));
}

#[test]
fn test_is_valid_uuid() {
    assert!(llsd::LLSDUtils::is_valid_uuid("550e8400-e29b-41d4-a716-446655440000"));
    assert!(!llsd::LLSDUtils::is_valid_uuid("not-a-uuid"));
}

#[test]
fn test_pretty_output_parses_back() {
    let value = dict(vec![
        ("alpha", LLSDValue::Integer(1)),
        (
            "items",
            LLSDValue::Array(vec![
                LLSDValue::String("one".to_string()),
                LLSDValue::Boolean(false),
            ]),
        ),
    ]);
    let doc = LLSDDocument::new(value.clone());

    let pretty_json = LLSDFactory::serialize_json(&doc, true).unwrap();
    assert!(pretty_json.contains('\n'));
    let back = LLSDFactory::parse_json(&pretty_json).unwrap();
    assert_eq!(*back.content(), value);

    let pretty_xml = LLSDFactory::serialize_xml(&doc, true).unwrap();
    assert!(pretty_xml.contains('\n'));
    let back = LLSDFactory::parse_xml(&pretty_xml).unwrap();
    assert_eq!(*back.content(), value);
}

#[test]
fn test_binary_duplicate_keys_overwrite() {
    // two entries under one key: 4-byte count 2, key "k" twice
    let mut bytes = vec![0x6C, 0x6C, 0x73, 0x64, 0x0A, 0x00, 0x00, 0x00, 0x02];
    for v in [1i32, 2i32] {
        bytes.extend_from_slice(&[0x00, 0x00, 0x00, 0x01, b'k', 0x02]);
        bytes.extend_from_slice(&v.to_be_bytes());
    }
    let parsed = LLSDFactory::parse_binary(&bytes).unwrap();
    if let LLSDValue::Dict(entries) = parsed.content() {
        assert_eq!(entries.len(), 1);
        assert_eq!(entries[0].0, "k");
        assert_eq!(entries[0].1, LLSDValue::Integer(2));
    } else {
        panic!("expected a map");
    }
}

#[test]
fn test_binary_short_magic() {
    // fewer than four bytes cannot carry the magic
    assert!(matches!(
        LLSDFactory::parse_binary(&[0x6C, 0x6C]),
        Err(LLSDError::InvalidMagic)
    ));
    assert!(matches!(
        LLSDFactory::parse_binary(&[0xFF, 0xFF, 0xFF, 0xFF]),
        Err(LLSDError::InvalidMagic)
    ));
}
