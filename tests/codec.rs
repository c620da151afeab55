use vdfr::parser::{parse_app_info, parse_keyvalues, parse_keyvalues_with, parse_package_info};
use vdfr::writer::{collect_string_pools, write_app_info, write_keyvalues, write_package_info};
use vdfr::{App, AppInfo, AppInfoVersion, KeyValueOptions, KeyValues, Package, PackageInfo, Value, VdfrError, SHA1};

fn node(entries: Vec<(&str, Value)>) -> KeyValues {
    let mut kv = KeyValues::new();
    for (k, v) in entries {
        kv.insert(k.to_string(), v);
    }
    kv
}

fn string_of(v: Option<&Value>) -> String {
    match v {
        Some(Value::StringType(s)) => s.clone(),
        Some(Value::WideStringType(s)) => s.clone(),
        other => panic!("not a string: {:?}", other),
    }
}

fn int_of(v: &Value) -> i32 {
    match v {
        Value::Int32Type(i) => *i,
        other => panic!("not an int32: {:?}", other),
    }
}

#[test]
fn string_node_decodes_and_reencodes() {
    let bytes = vec![0x01, b'k', 0x00, b'v', 0x00, 0x08];
    let kv = parse_keyvalues(&bytes).unwrap();
    assert_eq!(kv.len(), 1);
    assert_eq!(kv.entries[0].0, "k");
    assert_eq!(string_of(kv.get("k")), "v");
    let mut out = Vec::new();
    write_keyvalues(&mut out, &kv);
    assert_eq!(out, bytes);
}

#[test]
fn two_decimal_keys_become_a_sequence_and_write_back() {
    // {"a": {"0": 10, "1": 20}}
    let bytes = vec![
        0x00, b'a', 0x00, //
        0x02, b'0', 0x00, 10, 0, 0, 0, //
        0x02, b'1', 0x00, 20, 0, 0, 0, //
        0x08, 0x08,
    ];
    let kv = parse_keyvalues(&bytes).unwrap();
    match kv.get("a") {
        Some(Value::ArrayType(items)) => {
            assert_eq!(items.len(), 2);
            assert_eq!(int_of(&items[0]), 10);
            assert_eq!(int_of(&items[1]), 20);
        }
        other => panic!("expected a sequence, got {:?}", other),
    }
    let mut out = Vec::new();
    write_keyvalues(&mut out, &kv);
    assert_eq!(out, bytes);
}

#[test]
fn sequence_follows_key_order_not_wire_order() {
    // {"a": {"1": "y", "0": "x"}}
    let bytes = vec![
        0x00, b'a', 0x00, //
        0x01, b'1', 0x00, b'y', 0x00, //
        0x01, b'0', 0x00, b'x', 0x00, //
        0x08, 0x08,
    ];
    let kv = parse_keyvalues(&bytes).unwrap();
    match kv.get("a") {
        Some(Value::ArrayType(items)) => {
            assert_eq!(items.len(), 2);
            assert_eq!(string_of(Some(&items[0])), "x");
            assert_eq!(string_of(Some(&items[1])), "y");
        }
        other => panic!("expected a sequence, got {:?}", other),
    }
}

#[test]
fn gaps_and_empty_nodes_stay_nodes() {
    // {"a": {"0": 1, "2": 2}, "b": {}}
    let bytes = vec![
        0x00, b'a', 0x00, //
        0x02, b'0', 0x00, 1, 0, 0, 0, //
        0x02, b'2', 0x00, 2, 0, 0, 0, //
        0x08, //
        0x00, b'b', 0x00, 0x08, //
        0x08,
    ];
    let kv = parse_keyvalues(&bytes).unwrap();
    match kv.get("a") {
        Some(Value::KeyValueType(inner)) => assert_eq!(inner.len(), 2),
        other => panic!("expected a node, got {:?}", other),
    }
    match kv.get("b") {
        Some(Value::KeyValueType(inner)) => assert_eq!(inner.len(), 0),
        other => panic!("expected a node, got {:?}", other),
    }
}

#[test]
fn leading_zero_keys_are_not_indices() {
    // {"a": {"0": 1, "01": 2}}
    let bytes = vec![
        0x00, b'a', 0x00, //
        0x02, b'0', 0x00, 1, 0, 0, 0, //
        0x02, b'0', b'1', 0x00, 2, 0, 0, 0, //
        0x08, 0x08,
    ];
    let kv = parse_keyvalues(&bytes).unwrap();
    assert!(matches!(kv.get("a"), Some(Value::KeyValueType(_))));
}

#[test]
fn top_level_node_is_never_a_sequence() {
    let bytes = vec![0x02, b'0', 0x00, 7, 0, 0, 0, 0x08];
    let kv = parse_keyvalues(&bytes).unwrap();
    assert_eq!(kv.len(), 1);
    assert_eq!(int_of(kv.get("0").unwrap()), 7);
}

#[test]
fn wide_string_with_little_endian_mark() {
    let bytes = vec![0x05, b'w', 0x00, 0xFF, 0xFE, 0x41, 0x00, 0x00, 0x00, 0x08];
    let kv = parse_keyvalues(&bytes).unwrap();
    assert_eq!(string_of(kv.get("w")), "A");
    assert!(matches!(kv.get("w"), Some(Value::WideStringType(_))));
}

#[test]
fn wide_string_without_mark_is_big_endian() {
    let bytes = vec![0x05, b'w', 0x00, 0x00, 0x41, 0x00, 0x00, 0x08];
    let kv = parse_keyvalues(&bytes).unwrap();
    assert_eq!(string_of(kv.get("w")), "A");
}

#[test]
fn wide_string_with_big_endian_mark_and_pair() {
    // U+1F600 as the surrogate pair D83D DE00, big-endian
    let bytes = vec![
        0x05, b'w', 0x00, 0xFE, 0xFF, 0xD8, 0x3D, 0xDE, 0x00, 0x00, 0x00, 0x08,
    ];
    let kv = parse_keyvalues(&bytes).unwrap();
    assert_eq!(string_of(kv.get("w")), "\u{1F600}");
}

#[test]
fn wide_string_unpaired_surrogate_fails() {
    let bytes = vec![0x05, b'w', 0x00, 0xFF, 0xFE, 0x00, 0xD8, 0x00, 0x00, 0x08];
    assert_eq!(parse_keyvalues(&bytes).unwrap_err(), VdfrError::InvalidUtf16);
}

#[test]
fn wide_string_is_written_little_endian_with_three_zero_bytes() {
    let kv = node(vec![("w", Value::WideStringType("A\u{1F600}".to_string()))]);
    let mut out = Vec::new();
    write_keyvalues(&mut out, &kv);
    assert_eq!(
        out,
        vec![0x05, b'w', 0x00, 0x41, 0x00, 0x3D, 0xD8, 0x00, 0xDE, 0x00, 0x00, 0x00, 0x08]
    );
}

#[test]
fn invalid_utf8_is_replaced() {
    let bytes = vec![0x01, b'k', 0x00, b'a', 0xFF, b'b', 0x00, 0x08];
    let kv = parse_keyvalues(&bytes).unwrap();
    assert_eq!(string_of(kv.get("k")), "a\u{FFFD}b");
}

#[test]
fn utf8_text_round_trips() {
    let kv = node(vec![("clé", Value::StringType("größe".to_string()))]);
    let mut out = Vec::new();
    write_keyvalues(&mut out, &kv);
    let back = parse_keyvalues(&out).unwrap();
    assert_eq!(string_of(back.get("clé")), "größe");
}

#[test]
fn integer_shapes_keep_their_tags() {
    // keys in byte order, as decoded nodes keep them
    let bytes = vec![
        0x06, b'c', 0x00, 2, 0, 0, 0, //
        0x03, b'f', 0x00, 0x00, 0x00, 0xC0, 0x3F, //
        0x02, b'i', 0x00, 0xFF, 0xFF, 0xFF, 0xFF, //
        0x0A, b'l', 0x00, 0xFE, 0xFF, 0xFF, 0xFF, 0xFF, 0xFF, 0xFF, 0xFF, //
        0x04, b'p', 0x00, 1, 0, 0, 0, //
        0x07, b'u', 0x00, 1, 2, 3, 4, 5, 6, 7, 8, //
        0x08,
    ];
    let kv = parse_keyvalues(&bytes).unwrap();
    assert!(matches!(kv.get("i"), Some(Value::Int32Type(-1))));
    assert!(matches!(kv.get("p"), Some(Value::PointerType(1))));
    assert!(matches!(kv.get("c"), Some(Value::ColorType(2))));
    assert!(matches!(kv.get("u"), Some(Value::UInt64Type(0x0807060504030201))));
    assert!(matches!(kv.get("l"), Some(Value::Int64Type(-2))));
    match kv.get("f") {
        Some(Value::Float32Type(bits)) => assert_eq!(f32::from_bits(*bits), 1.5f32),
        other => panic!("expected a float, got {:?}", other),
    }
    let mut out = Vec::new();
    write_keyvalues(&mut out, &kv);
    assert_eq!(out, bytes);
}

#[test]
fn duplicate_key_keeps_last_value() {
    let bytes = vec![
        0x02, b'k', 0x00, 1, 0, 0, 0, //
        0x02, b'k', 0x00, 2, 0, 0, 0, //
        0x08,
    ];
    let kv = parse_keyvalues(&bytes).unwrap();
    assert_eq!(kv.len(), 1);
    assert_eq!(int_of(kv.get("k").unwrap()), 2);
}

#[test]
fn unknown_tag_fails() {
    let bytes = vec![0x09, b'k', 0x00, 0x00, 0x08];
    assert_eq!(parse_keyvalues(&bytes).unwrap_err(), VdfrError::InvalidType(0x09));
}

#[test]
fn truncated_input_fails() {
    assert_eq!(parse_keyvalues(&[]).unwrap_err(), VdfrError::UnexpectedEof);
    assert_eq!(parse_keyvalues(&[0x02, b'k', 0x00, 1, 0]).unwrap_err(), VdfrError::UnexpectedEof);
    assert_eq!(parse_keyvalues(&[0x01, b'k', 0x00, b'v']).unwrap_err(), VdfrError::UnexpectedEof);
}

#[test]
fn alternate_end_marker() {
    let options = KeyValueOptions { string_pool: Vec::new(), alt_format: true, max_depth: 4 };
    let kv = parse_keyvalues_with(&[0x01, b'k', 0x00, b'v', 0x00, 0x0B], &options).unwrap();
    assert_eq!(string_of(kv.get("k")), "v");
    assert_eq!(
        parse_keyvalues_with(&[0x01, b'k', 0x00, b'v', 0x00, 0x08, b'x', 0x00], &options).unwrap_err(),
        VdfrError::InvalidType(0x08)
    );
}

#[test]
fn nesting_ceiling_fails_cleanly() {
    let bytes = vec![0x00, b'a', 0x00, 0x00, b'b', 0x00, 0x08, 0x08, 0x08];
    let shallow = KeyValueOptions { string_pool: Vec::new(), alt_format: false, max_depth: 1 };
    assert_eq!(parse_keyvalues_with(&bytes, &shallow).unwrap_err(), VdfrError::TooDeep);
    let deep = KeyValueOptions { string_pool: Vec::new(), alt_format: false, max_depth: 2 };
    assert!(parse_keyvalues_with(&bytes, &deep).is_ok());
}

#[test]
fn pool_index_in_and_out_of_range() {
    let options = KeyValueOptions {
        string_pool: vec!["name".to_string(), "other".to_string()],
        alt_format: false,
        max_depth: 8,
    };
    let ok = vec![0x01, 1, 0, 0, 0, b'v', 0x00, 0x08];
    let kv = parse_keyvalues_with(&ok, &options).unwrap();
    assert_eq!(string_of(kv.get("other")), "v");
    let bad = vec![0x01, 2, 0, 0, 0, b'v', 0x00, 0x08];
    assert_eq!(parse_keyvalues_with(&bad, &options).unwrap_err(), VdfrError::InvalidStringIndex(2, 2));
}

#[test]
fn default_options() {
    let options = KeyValueOptions::default();
    assert!(options.string_pool.is_empty());
    assert!(!options.alt_format);
    assert!(options.max_depth > 0);
}

#[test]
fn decimal_strings() {
    assert_eq!(vdfr::normalize::decimal(0), "0");
    assert_eq!(vdfr::normalize::decimal(9), "9");
    assert_eq!(vdfr::normalize::decimal(10), "10");
    assert_eq!(vdfr::normalize::decimal(1234567890), "1234567890");
}

#[test]
fn normalizing_a_value_directly() {
    let inner = node(vec![("1", Value::Int32Type(20)), ("0", Value::Int32Type(10))]);
    let v = vdfr::normalize::map_value_data(&Value::KeyValueType(inner));
    match v {
        Value::ArrayType(items) => {
            assert_eq!(int_of(&items[0]), 10);
            assert_eq!(int_of(&items[1]), 20);
        }
        other => panic!("expected a sequence, got {:?}", other),
    }
}

#[test]
fn key_pool_collection() {
    let kv = node(vec![
        ("a", Value::ArrayType(vec![Value::Int32Type(1), Value::Int32Type(2)])),
        ("b", Value::KeyValueType(node(vec![("a", Value::Int32Type(3))]))),
    ]);
    let mut pool = Vec::new();
    collect_string_pools(&mut pool, &kv);
    let mut sorted = pool.clone();
    sorted.sort();
    assert_eq!(sorted, vec!["0", "1", "a", "b"]);
    assert_eq!(vdfr::writer::find_key_index(&"b".to_string(), &pool).map(|i| pool[i as usize].clone()), Some("b".to_string()));
    assert_eq!(vdfr::writer::find_key_index(&"zz".to_string(), &pool), None);
}

fn sample_app(id: u32, with_bin: bool) -> App {
    App {
        id,
        size: 100 + id,
        state: 4,
        last_update: 1_700_000_000,
        access_token: 0x1122334455667788,
        checksum_txt: SHA1::new([7u8; 20]),
        checksum_bin: if with_bin { Some(SHA1::new([9u8; 20])) } else { None },
        change_number: 42,
        key_values: node(vec![
            ("common", Value::KeyValueType(node(vec![("name", Value::StringType(format!("app{}", id)))]))),
            ("depots", Value::ArrayType(vec![Value::UInt64Type(5), Value::UInt64Type(6)])),
        ]),
    }
}

fn app_name(app: &App) -> String {
    match app.key_values.get("common") {
        Some(Value::KeyValueType(c)) => string_of(c.get("name")),
        other => panic!("no common section: {:?}", other),
    }
}

#[test]
fn app_catalog_round_trip_every_version() {
    for (version, with_bin) in [(AppInfoVersion::V27, false), (AppInfoVersion::V28, true), (AppInfoVersion::V29, true)] {
        let info = AppInfo { version, universe: 1, apps: vec![sample_app(10, with_bin), sample_app(20, with_bin)] };
        let mut out = Vec::new();
        write_app_info(&mut out, &info).unwrap();
        let back = parse_app_info(&out).unwrap();
        assert_eq!(back.version, version);
        assert_eq!(back.universe, 1);
        assert_eq!(back.apps.len(), 2);
        assert_eq!(back.apps[0].id, 10);
        assert_eq!(back.apps[1].id, 20);
        assert_eq!(back.apps[1].size, 120);
        assert_eq!(back.apps[0].access_token, 0x1122334455667788);
        assert_eq!(back.apps[0].checksum_txt, SHA1::new([7u8; 20]));
        assert_eq!(back.apps[0].checksum_bin, if with_bin { Some(SHA1::new([9u8; 20])) } else { None });
        assert_eq!(app_name(&back.apps[1]), "app20");
        assert!(matches!(back.apps[0].key_values.get("depots"), Some(Value::ArrayType(d)) if d.len() == 2));
    }
}

#[test]
fn pooled_catalog_points_at_its_pool() {
    let info = AppInfo { version: AppInfoVersion::V29, universe: 1, apps: vec![sample_app(10, true)] };
    let mut out = Vec::new();
    write_app_info(&mut out, &info).unwrap();
    assert_eq!(&out[0..4], &[0x29, 0x44, 0x56, 0x07]);
    let offset = u64::from_le_bytes(out[8..16].try_into().unwrap()) as usize;
    let count = u32::from_le_bytes(out[offset..offset + 4].try_into().unwrap());
    // keys: common, name, depots, 0, 1
    assert_eq!(count, 5);
    assert_eq!(&out[offset - 4..offset], &[0, 0, 0, 0]);
}

#[test]
fn app_catalog_header_errors() {
    assert_eq!(parse_app_info(&[1, 2, 3]).unwrap_err(), VdfrError::UnexpectedEof);
    assert_eq!(parse_app_info(&[0x30, 0x44, 0x56, 0x07, 1, 0, 0, 0, 0, 0, 0, 0]).unwrap_err(), VdfrError::UnknownMagic(0x07564430));
}

#[test]
fn app_catalog_stops_at_zero_id() {
    let mut bytes = vec![0x28, 0x44, 0x56, 0x07, 1, 0, 0, 0, 0, 0, 0, 0];
    bytes.extend_from_slice(&[0xDE, 0xAD]);
    let info = parse_app_info(&bytes).unwrap();
    assert_eq!(info.version, AppInfoVersion::V28);
    assert!(info.apps.is_empty());
}

#[test]
fn oldest_layout_has_no_binary_checksum() {
    let info = AppInfo { version: AppInfoVersion::V27, universe: 1, apps: vec![sample_app(5, false)] };
    let mut v27 = Vec::new();
    write_app_info(&mut v27, &info).unwrap();
    let info28 = AppInfo { version: AppInfoVersion::V28, universe: 1, apps: vec![sample_app(5, true)] };
    let mut v28 = Vec::new();
    write_app_info(&mut v28, &info28).unwrap();
    assert_eq!(v28.len(), v27.len() + 20);
    assert!(parse_app_info(&v27).unwrap().apps[0].checksum_bin.is_none());
}

#[test]
fn records_are_ordered_by_id() {
    // two single-record catalogs, spliced so that id 30 comes before id 20
    let mut first = Vec::new();
    write_app_info(&mut first, &AppInfo { version: AppInfoVersion::V28, universe: 1, apps: vec![sample_app(30, true)] }).unwrap();
    let mut second = Vec::new();
    write_app_info(&mut second, &AppInfo { version: AppInfoVersion::V28, universe: 1, apps: vec![sample_app(20, true)] }).unwrap();
    let mut bytes = first[..first.len() - 4].to_vec();
    bytes.extend_from_slice(&second[8..]);
    let back = parse_app_info(&bytes).unwrap();
    assert_eq!(back.apps.len(), 2);
    assert_eq!(back.apps[0].id, 20);
    assert_eq!(back.apps[1].id, 30);
    let mut again = Vec::new();
    write_app_info(&mut again, &back).unwrap();
    assert_eq!(parse_app_info(&again).unwrap().apps[0].id, 20);
}

#[test]
fn oldest_layout_never_writes_a_binary_checksum() {
    let with = AppInfo { version: AppInfoVersion::V27, universe: 1, apps: vec![sample_app(5, true)] };
    let without = AppInfo { version: AppInfoVersion::V27, universe: 1, apps: vec![sample_app(5, false)] };
    let mut a = Vec::new();
    write_app_info(&mut a, &with).unwrap();
    let mut b = Vec::new();
    write_app_info(&mut b, &without).unwrap();
    assert_eq!(a, b);
    assert!(parse_app_info(&a).unwrap().apps[0].checksum_bin.is_none());
}

#[test]
fn nodes_are_written_in_key_order() {
    let kv = node(vec![("b", Value::Int32Type(1)), ("a", Value::Int32Type(2))]);
    let mut out = Vec::new();
    write_keyvalues(&mut out, &kv);
    assert_eq!(
        out,
        vec![0x02, b'a', 0x00, 2, 0, 0, 0, 0x02, b'b', 0x00, 1, 0, 0, 0, 0x08]
    );
}

#[test]
fn sequences_are_written_like_their_decimal_keyed_nodes() {
    let items: Vec<Value> = (0..12).map(Value::Int32Type).collect();
    let as_sequence = node(vec![("s", Value::ArrayType(items))]);
    let mut keyed = KeyValues::new();
    for i in 0..12 {
        keyed.insert(i.to_string(), Value::Int32Type(i));
    }
    let as_node = node(vec![("s", Value::KeyValueType(keyed))]);
    let mut a = Vec::new();
    write_keyvalues(&mut a, &as_sequence);
    let mut b = Vec::new();
    write_keyvalues(&mut b, &as_node);
    assert_eq!(a, b);
    // "10" and "11" come before "2"
    assert_eq!(&a[3..6], &[0x02, b'0', 0x00]);
    assert_eq!(&a[17..21], &[0x02, b'1', b'0', 0x00]);
}

fn sample_package(id: u32) -> Package {
    Package {
        id,
        checksum: SHA1::new([3u8; 20]),
        change_number: 8,
        pics: 0xAABB,
        key_values: node(vec![("packageid", Value::Int32Type(id as i32))]),
    }
}

#[test]
fn package_catalog_round_trip_and_terminator() {
    let info = PackageInfo { version: 0x06565528, universe: 1, packages: vec![sample_package(0), sample_package(7)] };
    let mut out = Vec::new();
    write_package_info(&mut out, &info);
    assert_eq!(&out[out.len() - 4..], &[0xFF, 0xFF, 0xFF, 0xFF]);
    let back = parse_package_info(&out).unwrap();
    assert_eq!(back.version, 0x06565528);
    assert_eq!(back.packages.len(), 2);
    assert_eq!(back.packages[0].id, 0);
    assert_eq!(back.packages[1].id, 7);
    assert_eq!(back.packages[1].pics, 0xAABB);
    assert_eq!(int_of(back.packages[1].key_values.get("packageid").unwrap()), 7);
}

#[test]
fn package_catalog_without_terminator_is_truncated() {
    let info = PackageInfo { version: 1, universe: 1, packages: vec![sample_package(1)] };
    let mut out = Vec::new();
    write_package_info(&mut out, &info);
    out.truncate(out.len() - 4);
    assert_eq!(parse_package_info(&out).unwrap_err(), VdfrError::UnexpectedEof);
}

#[test]
fn version_tags() {
    assert_eq!(AppInfoVersion::V27.magic(), 0x07564427);
    assert_eq!(AppInfoVersion::from_magic(0x07564429), Ok(AppInfoVersion::V29));
    assert_eq!(AppInfoVersion::from_magic(1), Err(VdfrError::UnknownMagic(1)));
}

#[test]
fn digest_bytes() {
    let d = SHA1::new([0xAB; 20]);
    assert_eq!(d.as_bytes(), &[0xAB; 20]);
}

#[test]
fn app_paths_reach_nested_values_and_elements() {
    let app = sample_app(10, true);
    assert_eq!(string_of(app.get(&["common", "name"])), "app10");
    assert!(matches!(app.get(&["depots", "1"]), Some(Value::UInt64Type(6))));
    assert!(matches!(app.get(&["depots"]), Some(Value::ArrayType(_))));
    assert!(app.get(&[]).is_none());
    assert!(app.get(&["depots", "01"]).is_none());
    assert!(app.get(&["depots", "2"]).is_none());
    assert!(app.get(&["common", "name", "more"]).is_none());
    assert!(app.get(&["missing"]).is_none());
}

#[test]
fn package_paths() {
    let package = sample_package(3);
    assert_eq!(int_of(package.get(&["packageid"]).unwrap()), 3);
    assert!(package.get(&["nothing"]).is_none());
}

#[test]
fn checksums_as_hex() {
    let mut app = sample_app(1, true);
    let mut digest = [0u8; 20];
    digest[0] = 0xAB;
    digest[19] = 0x0F;
    app.checksum_txt = SHA1::new(digest);
    assert_eq!(app.checksum_sha1_txt(), format!("ab{}0f", "00".repeat(18)));
    assert_eq!(app.checksum_sha1_bin(), Some("09".repeat(20)));
    app.checksum_bin = None;
    assert_eq!(app.checksum_sha1_bin(), None);
}

#[test]
fn nested_tree_round_trips() {
    let kv = node(vec![
        ("name", Value::StringType("x".to_string())),
        (
            "list",
            Value::ArrayType(vec![
                Value::KeyValueType(node(vec![("a", Value::Int32Type(1))])),
                Value::ArrayType(vec![Value::Int64Type(-5)]),
                Value::ColorType(3),
            ]),
        ),
        ("empty", Value::KeyValueType(KeyValues::new())),
    ]);
    let mut first = Vec::new();
    write_keyvalues(&mut first, &kv);
    let back = parse_keyvalues(&first).unwrap();
    let mut second = Vec::new();
    write_keyvalues(&mut second, &back);
    let again = parse_keyvalues(&second).unwrap();
    let mut third = Vec::new();
    write_keyvalues(&mut third, &again);
    assert_eq!(second, third);
    assert_eq!(first.len(), second.len());
    assert_eq!(back.entries.iter().map(|e| e.0.as_str()).collect::<Vec<_>>(), vec!["empty", "list", "name"]);
    match back.get("list") {
        Some(Value::ArrayType(items)) => {
            assert_eq!(items.len(), 3);
            assert!(matches!(&items[1], Value::ArrayType(inner) if inner.len() == 1));
        }
        other => panic!("expected a sequence, got {:?}", other),
    }
    assert!(matches!(back.get("empty"), Some(Value::KeyValueType(e)) if e.len() == 0));
}

#[test]
fn display_escaping() {
    assert_eq!(vdfr::value::fmt_string("a\"b\\c"), "a\\\"b\\\\c");
    assert_eq!(vdfr::value::fmt_string("plain ü"), "plain ü");
    assert_eq!(vdfr::value::fmt_string(""), "");
}

#[test]
fn decoded_keys_are_in_byte_order() {
    // {"b": 1, "B": 2, "a": {"z": 3, "10": 4, "9": 5}}
    let bytes = vec![
        0x02, b'b', 0x00, 1, 0, 0, 0, //
        0x02, b'B', 0x00, 2, 0, 0, 0, //
        0x00, b'a', 0x00, //
        0x02, b'z', 0x00, 3, 0, 0, 0, //
        0x02, b'1', b'0', 0x00, 4, 0, 0, 0, //
        0x02, b'9', 0x00, 5, 0, 0, 0, //
        0x08, 0x08,
    ];
    let kv = parse_keyvalues(&bytes).unwrap();
    let keys: Vec<&str> = kv.entries.iter().map(|e| e.0.as_str()).collect();
    assert_eq!(keys, vec!["B", "a", "b"]);
    match kv.get("a") {
        Some(Value::KeyValueType(inner)) => {
            let keys: Vec<&str> = inner.entries.iter().map(|e| e.0.as_str()).collect();
            assert_eq!(keys, vec!["10", "9", "z"]);
        }
        other => panic!("expected a node, got {:?}", other),
    }
}

#[test]
fn long_sequences_keep_index_order() {
    let items: Vec<Value> = (0..12).map(Value::Int32Type).collect();
    let kv = node(vec![("s", Value::ArrayType(items))]);
    let mut out = Vec::new();
    write_keyvalues(&mut out, &kv);
    let back = parse_keyvalues(&out).unwrap();
    match back.get("s") {
        Some(Value::ArrayType(items)) => {
            assert_eq!(items.len(), 12);
            for (i, item) in items.iter().enumerate() {
                assert_eq!(int_of(item), i as i32);
            }
        }
        other => panic!("expected a sequence, got {:?}", other),
    }
}

#[test]
fn catalog_nesting_ceiling_is_configurable() {
    let info = AppInfo { version: AppInfoVersion::V28, universe: 1, apps: vec![sample_app(1, true)] };
    let mut out = Vec::new();
    write_app_info(&mut out, &info).unwrap();
    assert_eq!(vdfr::parser::parse_app_info_with(&out, 0).unwrap_err(), VdfrError::TooDeep);
    assert!(vdfr::parser::parse_app_info_with(&out, 1).is_ok());
    let packages = PackageInfo { version: 1, universe: 1, packages: vec![sample_package(2)] };
    let mut bytes = Vec::new();
    write_package_info(&mut bytes, &packages);
    assert!(vdfr::parser::parse_package_info_with(&bytes, 0).is_ok());
}
