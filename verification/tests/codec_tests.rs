//! Codec-level behavior: round trips through every format, the exact
//! byte layouts, compatibility with the common serializers, and the
//! error cases of reading.

use sportball_sidecar::codec::{
    BinarySerializer, FormatManager, JsonSerializer, RkyvSerializer, SerializationError,
    SidecarFormat, SidecarSerializer,
};
use sportball_sidecar::jsonutil::{JsonUtils, SidecarOperations};
use sportball_sidecar::value::{JsonValue, NumberLit};

fn s(x: &str) -> String {
    x.to_string()
}

fn sample_value() -> JsonValue {
    JsonValue::Object(vec![
        (s("name"), JsonValue::Str(s("court \"A\"\\north"))),
        (s("count"), JsonValue::Int(3)),
        (s("score_min"), JsonValue::Int(i64::MIN)),
        (s("score_max"), JsonValue::Int(i64::MAX)),
        (s("ok"), JsonValue::Bool(true)),
        (s("missing"), JsonValue::Null),
        (
            s("faces"),
            JsonValue::Array(vec![
                JsonValue::Int(-7),
                JsonValue::Str(s("émoji ☃ \u{1F600}")),
                JsonValue::Array(vec![]),
                JsonValue::Object(vec![]),
            ]),
        ),
    ])
}

#[test]
fn test_round_trip_json() {
    let codec = JsonSerializer;
    let v = sample_value();
    let bytes = codec.serialize(&v).unwrap();
    let back = codec.deserialize(&bytes).unwrap();
    assert_eq!(back, v);
}

#[test]
fn test_round_trip_binary() {
    let codec = BinarySerializer;
    let v = sample_value();
    let bytes = codec.serialize(&v).unwrap();
    let back = codec.deserialize(&bytes).unwrap();
    assert_eq!(back, v);
}

#[test]
fn test_round_trip_rkyv_placeholder() {
    let codec = RkyvSerializer;
    let v = sample_value();
    let bytes = codec.serialize(&v).unwrap();
    let back = codec.deserialize(&bytes).unwrap();
    assert_eq!(back, v);
    // the placeholder shares the binary codec's bytes exactly
    let bin = BinarySerializer.serialize(&v).unwrap();
    assert_eq!(bytes, bin);
}

#[test]
fn test_json_bytes_exact() {
    let v = JsonValue::Object(vec![
        (s("a"), JsonValue::Int(-12)),
        (s("b"), JsonValue::Array(vec![JsonValue::Bool(false), JsonValue::Null])),
    ]);
    let bytes = JsonSerializer.serialize(&v).unwrap();
    assert_eq!(bytes, b"{\"a\":-12,\"b\":[false,null]}".to_vec());
}

#[test]
fn test_json_output_parses_with_serde() {
    let v = sample_value();
    let bytes = JsonSerializer.serialize(&v).unwrap();
    let parsed: serde_json::Value = serde_json::from_slice(&bytes).unwrap();
    assert_eq!(parsed.get("count").unwrap().as_i64(), Some(3));
    assert_eq!(parsed.get("ok").unwrap().as_bool(), Some(true));
    assert_eq!(
        parsed.get("name").unwrap().as_str(),
        Some("court \"A\"\\north")
    );
    assert_eq!(parsed.get("faces").unwrap().as_array().unwrap().len(), 4);
    assert_eq!(
        parsed.get("faces").unwrap().as_array().unwrap()[1].as_str(),
        Some("émoji ☃ \u{1F600}")
    );
}

#[test]
fn test_serde_output_parses_here() {
    // compact output of the common serializer, ASCII content
    let mut m = serde_json::Map::new();
    m.insert("x".to_string(), serde_json::Value::Array(vec![1.into(), 2.into(), 3.into()]));
    let mut inner = serde_json::Map::new();
    inner.insert("z".to_string(), serde_json::Value::String("w".to_string()));
    m.insert("y".to_string(), serde_json::Value::Object(inner));
    let text2 = serde_json::to_string(&serde_json::Value::Object(m)).unwrap();
    let back = JsonSerializer.deserialize(text2.as_bytes()).unwrap();
    let expected = JsonValue::Object(vec![
        (
            s("x"),
            JsonValue::Array(vec![JsonValue::Int(1), JsonValue::Int(2), JsonValue::Int(3)]),
        ),
        (
            s("y"),
            JsonValue::Object(vec![(s("z"), JsonValue::Str(s("w")))]),
        ),
    ]);
    assert_eq!(back, expected);
}

#[test]
fn test_binary_bytes_match_length_prefixed_string_encoding() {
    let v = JsonValue::Object(vec![(s("k"), JsonValue::Int(5))]);
    let text_bytes = JsonSerializer.serialize(&v).unwrap();
    let text = String::from_utf8(text_bytes).unwrap();
    let expected = bincode::serialize(&text).unwrap();
    let mine = BinarySerializer.serialize(&v).unwrap();
    assert_eq!(mine, expected);
    let decoded: String = bincode::deserialize(&mine).unwrap();
    assert_eq!(decoded, text);
}

#[test]
fn test_deserialize_rejects_malformed() {
    assert_eq!(
        JsonSerializer.deserialize(b"{\"a\":").unwrap_err(),
        SerializationError::Json
    );
    assert_eq!(
        JsonSerializer.deserialize(b"{\"a\":1} trailing").unwrap_err(),
        SerializationError::Json
    );
    assert_eq!(
        JsonSerializer.deserialize(b"1.5e").unwrap_err(),
        SerializationError::Json
    );
    assert_eq!(
        JsonSerializer.deserialize(b"1.").unwrap_err(),
        SerializationError::Json
    );
    assert_eq!(
        BinarySerializer.deserialize(b"too short").unwrap_err(),
        SerializationError::Binary
    );
}

#[test]
fn test_whitespace_and_escapes_accepted() {
    let text = b" { \"a\" : [ 1 , true , \"x\\ty\\u0041\" ] } ";
    let v = JsonSerializer.deserialize(text).unwrap();
    let expected = JsonValue::Object(vec![(
        s("a"),
        JsonValue::Array(vec![
            JsonValue::Int(1),
            JsonValue::Bool(true),
            JsonValue::Str(s("x\tyA")),
        ]),
    )]);
    assert_eq!(v, expected);
}

#[test]
fn test_integer_bounds() {
    let v = JsonValue::Array(vec![
        JsonValue::Int(i64::MIN),
        JsonValue::Int(i64::MAX),
        JsonValue::Int(0),
    ]);
    let bytes = JsonSerializer.serialize(&v).unwrap();
    assert_eq!(
        bytes,
        b"[-9223372036854775808,9223372036854775807,0]".to_vec()
    );
    assert_eq!(JsonSerializer.deserialize(&bytes).unwrap(), v);
    // one past the integer range survives in its verbatim form
    let wide = JsonSerializer.deserialize(b"9223372036854775808").unwrap();
    assert_eq!(
        JsonSerializer.serialize(&wide).unwrap(),
        b"9223372036854775808".to_vec()
    );
}

fn num(text: &str) -> JsonValue {
    JsonValue::Num(NumberLit::new(text.as_bytes().to_vec()).unwrap())
}

#[test]
fn test_fractional_numbers_round_trip() {
    let v = JsonValue::Object(vec![
        (s("confidence"), num("0.95")),
        (s("scale"), num("-1.25e-3")),
        (s("big"), num("18446744073709551616")),
        (s("count"), JsonValue::Int(2)),
    ]);
    let jb = JsonSerializer.serialize(&v).unwrap();
    assert_eq!(JsonSerializer.deserialize(&jb).unwrap(), v);
    let bb = BinarySerializer.serialize(&v).unwrap();
    assert_eq!(BinarySerializer.deserialize(&bb).unwrap(), v);
    let rb = RkyvSerializer.serialize(&v).unwrap();
    assert_eq!(RkyvSerializer.deserialize(&rb).unwrap(), v);
}

#[test]
fn test_fractional_numbers_serde_compat() {
    // a payload another producer wrote, confidence and all, reads here
    let mut inner = serde_json::Map::new();
    inner.insert(
        "confidence".to_string(),
        serde_json::Value::Number(serde_json::Number::from_f64(0.95).unwrap()),
    );
    let text = serde_json::to_string(&serde_json::Value::Object(inner)).unwrap();
    let v = JsonSerializer.deserialize(text.as_bytes()).unwrap();
    assert_eq!(v, JsonValue::Object(vec![(s("confidence"), num("0.95"))]));
    // and what this library writes reads back there, bit for bit
    let bytes = JsonSerializer.serialize(&v).unwrap();
    let reparsed: serde_json::Value = serde_json::from_slice(&bytes).unwrap();
    assert_eq!(reparsed.get("confidence").unwrap().as_f64(), Some(0.95));
}

#[test]
fn test_raw_utf8_from_other_producers() {
    // another producer writes non-ASCII strings as raw UTF-8 bytes
    let mut m = serde_json::Map::new();
    m.insert(
        "venue".to_string(),
        serde_json::Value::String("\u{41c}\u{430}\u{43b}\u{430}\u{44f} \u{2603} \u{1F3DF}".to_string()),
    );
    let text = serde_json::to_string(&serde_json::Value::Object(m)).unwrap();
    let v = JsonSerializer.deserialize(text.as_bytes()).unwrap();
    assert_eq!(
        v,
        JsonValue::Object(vec![(
            s("venue"),
            JsonValue::Str(s("\u{41c}\u{430}\u{43b}\u{430}\u{44f} \u{2603} \u{1F3DF}"))
        )])
    );
    // and the writer's escaped output means the same text to serde
    let bytes = JsonSerializer.serialize(&v).unwrap();
    let reparsed: serde_json::Value = serde_json::from_slice(&bytes).unwrap();
    assert_eq!(
        reparsed.get("venue").unwrap().as_str(),
        Some("\u{41c}\u{430}\u{43b}\u{430}\u{44f} \u{2603} \u{1F3DF}")
    );
    // overlong forms and lone surrogates stay malformed
    assert!(JsonSerializer.deserialize(b"\"\xc0\xaf\"").is_err());
    assert!(JsonSerializer.deserialize(b"\"\xed\xa0\x80\"").is_err());
}

#[test]
fn test_number_literal_checking() {
    assert!(NumberLit::new(b"0.95".to_vec()).is_some());
    assert!(NumberLit::new(b"-2e10".to_vec()).is_some());
    assert!(NumberLit::new(b"99999999999999999999".to_vec()).is_some());
    // a plain in-range integer reads as an integer, not a verbatim form
    assert!(NumberLit::new(b"12".to_vec()).is_none());
    assert!(NumberLit::new(b"abc".to_vec()).is_none());
    assert!(NumberLit::new(b"1.".to_vec()).is_none());
    assert!(NumberLit::new(b"".to_vec()).is_none());
}

#[test]
fn test_detect_format_from_content() {
    let fm = FormatManager::new();
    let v = sample_value();
    let json_bytes = JsonSerializer.serialize(&v).unwrap();
    let bin_bytes = BinarySerializer.serialize(&v).unwrap();
    assert_eq!(fm.detect_format_from_content(&json_bytes).unwrap(), SidecarFormat::Json);
    assert_eq!(fm.detect_format_from_content(&bin_bytes).unwrap(), SidecarFormat::Binary);
    assert_eq!(
        fm.detect_format_from_content(b"\xff\xfe\x00garbage").unwrap_err(),
        SerializationError::FormatDetectionFailed
    );
}

#[test]
fn test_convert_format() {
    let fm = FormatManager::new();
    let v = sample_value();
    let as_bin = fm.convert_format(&v, SidecarFormat::Json, SidecarFormat::Binary).unwrap();
    assert_eq!(as_bin, BinarySerializer.serialize(&v).unwrap());
    let same = fm.convert_format(&v, SidecarFormat::Json, SidecarFormat::Json).unwrap();
    assert_eq!(same, JsonSerializer.serialize(&v).unwrap());
}

#[test]
fn test_binary_rejects_length_mismatch() {
    let v = JsonValue::Int(7);
    let mut bytes = BinarySerializer.serialize(&v).unwrap();
    // corrupt the length prefix: the envelope no longer matches
    bytes[0] = bytes[0].wrapping_add(1);
    assert_eq!(
        BinarySerializer.deserialize(&bytes).unwrap_err(),
        SerializationError::Binary
    );
}

#[test]
fn test_pretty_print() {
    let v = JsonValue::Object(vec![
        (s("a"), JsonValue::Int(1)),
        (s("b"), JsonValue::Array(vec![JsonValue::Bool(true), JsonValue::Null])),
        (s("c"), JsonValue::Object(vec![])),
    ]);
    let pretty = JsonUtils::pretty_print(&v);
    let expected = "{\n  \"a\": 1,\n  \"b\": [\n    true,\n    null\n  ],\n  \"c\": {}\n}";
    assert_eq!(String::from_utf8(pretty.clone()).unwrap(), expected);
    // pretty output reads back to the same value
    assert_eq!(JsonSerializer.deserialize(&pretty).unwrap(), v);
    assert_eq!(JsonUtils::compact_print(&v), JsonSerializer.serialize(&v).unwrap());
}

#[test]
fn test_merge_values() {
    let base = JsonValue::Object(vec![
        (s("keep"), JsonValue::Int(1)),
        (
            s("nested"),
            JsonValue::Object(vec![(s("x"), JsonValue::Int(2)), (s("y"), JsonValue::Int(3))]),
        ),
    ]);
    let overlay = JsonValue::Object(vec![
        (
            s("nested"),
            JsonValue::Object(vec![(s("y"), JsonValue::Int(9)), (s("z"), JsonValue::Int(4))]),
        ),
        (s("extra"), JsonValue::Bool(true)),
    ]);
    let merged = JsonUtils::merge_values(&base, &overlay);
    let expected = JsonValue::Object(vec![
        (s("keep"), JsonValue::Int(1)),
        (
            s("nested"),
            JsonValue::Object(vec![
                (s("x"), JsonValue::Int(2)),
                (s("y"), JsonValue::Int(9)),
                (s("z"), JsonValue::Int(4)),
            ]),
        ),
        (s("extra"), JsonValue::Bool(true)),
    ]);
    assert_eq!(merged, expected);
    // a non-object overlay replaces the base outright
    assert_eq!(
        JsonUtils::merge_values(&base, &JsonValue::Int(7)),
        JsonValue::Int(7)
    );
}

#[test]
fn test_merge_data_text_format() {
    let d1 = JsonValue::Object(vec![(s("ok"), JsonValue::Bool(true))]);
    let first = SidecarOperations::merge_data(
        None,
        sportball_sidecar::types::OperationType::FaceDetection,
        d1,
    );
    let d2 = JsonValue::Object(vec![(s("n"), JsonValue::Int(3))]);
    let second = SidecarOperations::merge_data(
        Some(&first),
        sportball_sidecar::types::OperationType::BallDetection,
        d2,
    );
    let merged = SidecarOperations::load_data(&second).unwrap();
    assert!(merged.get("face_detection").is_some());
    assert!(merged.get("ball_detection").is_some());
    let si = merged.get("sidecar_info").unwrap();
    match si.get("last_operation").unwrap() {
        JsonValue::Str(t) => assert_eq!(t, "ball_detection"),
        other => panic!("unexpected member {:?}", other),
    }
}

#[test]
fn test_json_utils_and_operations() {
    let v = JsonValue::Object(vec![
        ("faces".to_string(), JsonValue::Array(vec![])),
        ("metadata".to_string(), JsonValue::Str("m".to_string())),
    ]);
    assert!(JsonUtils::validate_sidecar_structure(&v).is_ok());
    assert!(JsonUtils::validate_sidecar_structure(&JsonValue::Int(1)).is_err());
    assert_eq!(
        JsonUtils::extract_metadata(&v),
        Some(&JsonValue::Str("m".to_string()))
    );
    assert!(JsonUtils::extract_sidecar_info(&v).is_none());
    assert!(JsonUtils::has_detection_data(&v));
    let bytes = SidecarOperations::save_data(&v);
    assert_eq!(JsonUtils::estimate_size(&v), bytes.len());
    let back = SidecarOperations::load_data(&bytes).unwrap();
    assert_eq!(back, v);
}

#[test]
fn test_format_properties() {
    assert_eq!(SidecarFormat::Json.extension(), "json");
    assert_eq!(SidecarFormat::Binary.extension(), "bin");
    assert_eq!(SidecarFormat::Rkyv.extension(), "rkyv");
    assert_eq!(SidecarFormat::from_extension("JSON"), Some(SidecarFormat::Json));
    assert_eq!(SidecarFormat::from_extension("Bin"), Some(SidecarFormat::Binary));
    assert_eq!(SidecarFormat::from_extension("tiff"), None);
    assert_eq!(SidecarFormat::from_path("a/b/c.rkyv"), Some(SidecarFormat::Rkyv));
    assert_eq!(SidecarFormat::from_path("a/b/noext"), None);
    assert_eq!(SidecarFormat::default(), SidecarFormat::Binary);
    assert!(SidecarFormat::Binary.is_binary());
    assert!(SidecarFormat::Rkyv.is_binary());
    assert!(!SidecarFormat::Json.is_binary());
    assert!(!SidecarFormat::Json.description().is_empty());
}
