use modbus_registers::json::{
    decode, encode, parse, registers_to_object, JsonDocument, JsonError, JsonMember, JsonValue,
};
use std::collections::HashMap;

fn object(members: &[(&str, i128)]) -> JsonDocument {
    JsonDocument::Object(
        members.iter().map(|(k, v)| JsonMember::new(k, JsonValue::Integer(*v))).collect(),
    )
}

fn value_at(document: &JsonDocument, key: &str) -> Option<JsonValue> {
    match document {
        JsonDocument::Object(members) => members.iter().find(|m| m.key == key).map(|m| m.value),
        JsonDocument::Other => None,
    }
}

fn number_text(document: &JsonDocument, key: &str) -> String {
    match value_at(document, key) {
        Some(JsonValue::Integer(n)) => format!("{}", n),
        other => panic!("no integer at {}: {:?}", key, other),
    }
}

#[test]
pub fn test_parse() {
    let data = object(&[
        ("1", 1),
        ("100", 1),
        ("40001", 0),
        ("40002", 0),
        ("40003/h", 124),
        ("40004", 124),
        ("40005", 0),
        ("40006", 0),
        ("40007", 0),
        ("40008", 32),
        ("40100/h", -1),
        ("40200/i", -10),
        ("40300/q", -1),
    ]);

    let (registers, keys): (HashMap<u16, u16>, Vec<String>) =
        parse(data).map_err(|e| e.message()).unwrap();
    assert!(registers.get(&40003).unwrap() == &(124i16 as u16));
    assert!(registers.get(&40004).unwrap() == &(124i16 as u16));
    assert!(registers.get(&40100).unwrap() == &(-1i16 as u16));
    assert!(registers.get(&40008).unwrap() == &(32u16));
    assert_eq!(
        [*registers.get(&40200).unwrap(), *registers.get(&40201).unwrap()],
        [0xFFFF as u16, 0xFFF6 as u16]
    );
    assert_eq!(
        [
            *registers.get(&40300).unwrap(),
            *registers.get(&40301).unwrap(),
            *registers.get(&40302).unwrap(),
            *registers.get(&40303).unwrap(),
        ],
        [0xFFFF as u16, 0xFFFF as u16, 0xFFFF as u16, 0xFFFF as u16]
    );
    assert_eq!(keys.len(), 13);
    assert_eq!(keys[0], "1");
    assert_eq!(keys[12], "40300/q");
    assert_eq!(registers.len(), 17);
}

#[test]
pub fn test_register_to_object() {
    let registers: HashMap<u16, u16> = HashMap::from([
        (1, -1i16 as u16),
        (2, 1),
        (3, 1),
        (9, 9),
        (40001, 0xFFFF),
        (40002, 0xFF9C),
        (40200, 0x0000),
        (40201, 0x0000),
        (40202, 0x0000),
        (40203, 0xFFFF),
    ]);

    let keys: Vec<String> = vec![
        "1/h".into(),
        "2".into(),
        "3".into(),
        "9".into(),
        "40001/i".into(),
        "40200/Q".into(),
    ];

    let document = registers_to_object(&registers, keys).map_err(|e| e.message()).unwrap();
    assert!(matches!(document, JsonDocument::Object(_)));
    assert_eq!(number_text(&document, "1/h"), "-1");
    assert_eq!(number_text(&document, "40001/i"), "-100");
    assert_eq!(number_text(&document, "40200/Q"), "65535");
    match &document {
        JsonDocument::Object(members) => {
            let keys: Vec<&str> = members.iter().map(|m| m.key.as_str()).collect();
            assert_eq!(keys, vec!["1/h", "2", "3", "9", "40001/i", "40200/Q"]);
        }
        JsonDocument::Other => unreachable!(),
    }
}

#[test]
pub fn test_write() {
    let registers: HashMap<u16, u16> = HashMap::from([
        (1, -1i16 as u16),
        (2, 1),
        (3, 1),
        (9, 9),
        (40001, 0xFFFF),
        (40002, 0xFF9C),
        (40200, 0x0000),
        (40201, 0x0000),
        (40202, 0x0000),
        (40203, 0xFFFF),
    ]);
    let keys: Vec<String> = vec![
        "1/h".into(),
        "2".into(),
        "3".into(),
        "9".into(),
        "40001/i".into(),
        "40200/Q".into(),
    ];

    let value = registers_to_object(&registers, keys).unwrap();
    let text = encode(&value).unwrap();
    let expected = "{\n  \"1/h\": -1,\n  \"2\": 1,\n  \"3\": 1,\n  \"9\": 9,\n  \"40001/i\": -100,\n  \"40200/Q\": 65535\n}";
    assert_eq!(text, expected);
    let parsed: serde_json::Value = serde_json::from_str(&text).unwrap();
    assert_eq!(serde_json::to_string_pretty(&parsed).unwrap(), text);
}

#[test]
fn unsigned_sign_check() {
    assert!(matches!(parse(object(&[("40001/Q", -1)])), Err(JsonError::Invalid(_))));
    assert!(matches!(parse(object(&[("40001/I", -1)])), Err(JsonError::Invalid(_))));
    assert!(matches!(parse(object(&[("40001", -1)])), Err(JsonError::Invalid(_))));
    assert!(matches!(parse(object(&[("40001/H", -1)])), Err(JsonError::Invalid(_))));
}

#[test]
fn coil_domain() {
    assert!(matches!(parse(object(&[("1", 2)])), Err(JsonError::Invalid(_))));
    assert!(matches!(parse(object(&[("10001", -1)])), Err(JsonError::Invalid(_))));
    let (registers, _) = parse(object(&[("1", 0), ("9999", 1), ("10001", 1), ("19999", 0)])).unwrap();
    assert_eq!(registers.get(&1), Some(&0));
    assert_eq!(registers.get(&9999), Some(&1));
    assert_eq!(registers.get(&10001), Some(&1));
    assert_eq!(registers.get(&19999), Some(&0));
}

#[test]
fn coils_accept_booleans() {
    let document = JsonDocument::Object(vec![
        JsonMember::new("1", JsonValue::Bool(true)),
        JsonMember::new("10001", JsonValue::Bool(false)),
    ]);
    let (registers, keys) = parse(document).unwrap();
    assert_eq!(registers.get(&1), Some(&1));
    assert_eq!(registers.get(&10001), Some(&0));
    assert_eq!(keys, vec!["1".to_string(), "10001".to_string()]);
    let registers_refuse = JsonDocument::Object(vec![JsonMember::new("40001", JsonValue::Bool(true))]);
    assert!(matches!(parse(registers_refuse), Err(JsonError::Invalid(_))));
}

#[test]
fn address_domain() {
    for key in ["60000", "0", "10000", "20000", "30000", "40000", "50000", "65535"] {
        assert!(matches!(parse(object(&[(key, 0)])), Err(JsonError::Invalid(_))), "{}", key);
    }
}

#[test]
fn span_collision() {
    assert!(matches!(parse(object(&[("40001/Q", 0), ("40004", 0)])), Err(JsonError::Invalid(_))));
    assert!(matches!(parse(object(&[("40004", 0), ("40001/Q", 0)])), Err(JsonError::Invalid(_))));
    assert!(matches!(parse(object(&[("40001/i", 0), ("40002/i", 0)])), Err(JsonError::Invalid(_))));
    assert!(matches!(parse(object(&[("40001", 0), ("40001/h", 0)])), Err(JsonError::Invalid(_))));
    assert!(parse(object(&[("40001/Q", 0), ("40005", 0)])).is_ok());
}

#[test]
fn bit_keys_collide_too() {
    assert!(matches!(parse(object(&[("1", 0), ("1/H", 1)])), Err(JsonError::Invalid(_))));
    assert!(matches!(parse(object(&[("1", 0), ("1/h", 0)])), Err(JsonError::Invalid(_))));
    assert!(matches!(parse(object(&[("1", 1), ("+1", 1)])), Err(JsonError::Invalid(_))));
    assert!(matches!(parse(object(&[("1", 1), ("1", 1)])), Err(JsonError::Invalid(_))));
    assert!(matches!(parse(object(&[("10001", 1), ("2", 0), ("10001/H", 1)])), Err(JsonError::Invalid(_))));
    let document = JsonDocument::Object(vec![
        JsonMember::new("7", JsonValue::Bool(true)),
        JsonMember::new("7/h", JsonValue::Integer(1)),
    ]);
    assert!(matches!(parse(document), Err(JsonError::Invalid(_))));
    assert!(parse(object(&[("1", 0), ("2/H", 1)])).is_ok());
}

#[test]
fn spans_stay_in_one_class() {
    for key in ["49999/Q", "49997/q", "49999/i", "39999/I", "39997/Q", "1/q", "1/i", "9999/I", "10001/Q", "19999/i"] {
        assert!(matches!(parse(object(&[(key, 1)])), Err(JsonError::Invalid(_))), "{}", key);
    }
    for key in ["49996/Q", "49998/i", "49999/h", "39996/q", "39998/I", "39999", "9999/h", "19999/H"] {
        assert!(parse(object(&[(key, 1)])).is_ok(), "{}", key);
    }
    let (registers, keys) = parse(object(&[("49996/Q", 1), ("39998/i", -1)])).unwrap();
    assert_eq!(keys.len(), 2);
    assert_eq!(registers.len(), 6);
    assert!(registers.keys().all(|a| (30001..=39999).contains(a) || (40001..=49999).contains(a)));
}

#[test]
fn parsed_registers_are_the_spans_of_the_keys() {
    let (registers, keys) = parse(object(&[("1", 1), ("10001/h", 0), ("30001/i", 5), ("40001/Q", 6), ("40005", 7)])).unwrap();
    assert_eq!(keys, vec!["1", "10001/h", "30001/i", "40001/Q", "40005"]);
    let mut addresses: Vec<u16> = registers.keys().copied().collect();
    addresses.sort();
    assert_eq!(addresses, vec![1, 10001, 30001, 30002, 40001, 40002, 40003, 40004, 40005]);
    assert!(registers[&1] <= 1 && registers[&10001] <= 1);
}

#[test]
fn parse_rejects_other_shapes() {
    assert!(matches!(parse(JsonDocument::Other), Err(JsonError::Invalid(_))));
    let other = JsonDocument::Object(vec![JsonMember::new("40001", JsonValue::Other)]);
    assert!(matches!(parse(other), Err(JsonError::Invalid(_))));
    let coil = JsonDocument::Object(vec![JsonMember::new("1", JsonValue::Other)]);
    assert!(matches!(parse(coil), Err(JsonError::Invalid(_))));
    assert!(matches!(parse(object(&[("40001/x", 0)])), Err(JsonError::Invalid(_))));
    assert!(matches!(parse(object(&[("40001/h", 32768)])), Err(JsonError::Invalid(_))));
    assert!(matches!(parse(object(&[("40001/i", 1 << 31)])), Err(JsonError::Invalid(_))));
}

#[test]
fn parse_of_empty_object() {
    let (registers, keys) = parse(JsonDocument::Object(vec![])).unwrap();
    assert!(registers.is_empty());
    assert!(keys.is_empty());
}

#[test]
fn big_endian_layout_of_64_bit_keys() {
    let v: u64 = 0xFEDC_BA98_7654_3210;
    let (registers, _) = parse(object(&[("40010/Q", v as i128)])).unwrap();
    for i in 0..4u16 {
        assert_eq!(*registers.get(&(40010 + i)).unwrap() as u64, (v >> (48 - 16 * i)) & 0xFFFF);
    }
    let s: i64 = -0x0123_4567_89AB_CDF0;
    let (registers, _) = parse(object(&[("30010/q", s as i128)])).unwrap();
    for i in 0..4u16 {
        assert_eq!(*registers.get(&(30010 + i)).unwrap() as i64, (s >> (48 - 16 * i)) & 0xFFFF);
    }
}

#[test]
fn round_trip_of_numbers() {
    let cases: [(&str, i128); 12] = [
        ("40001", 65535),
        ("40001/H", 0),
        ("40001/h", -32768),
        ("40001/h", 32767),
        ("30001/I", 0xFFFF_FFFF),
        ("30001/i", -0x8000_0000),
        ("49996/Q", u64::MAX as i128),
        ("49996/q", i64::MIN as i128),
        ("49996/q", i64::MAX as i128),
        ("1", 1),
        ("10001/h", 0),
        ("+40001", 7),
    ];
    for (key, value) in cases {
        let (registers, keys) = parse(object(&[(key, value)])).unwrap();
        let document = registers_to_object(&registers, vec![key.to_string()]).unwrap();
        assert_eq!(keys, vec![key.to_string()]);
        match document {
            JsonDocument::Object(members) => {
                assert_eq!(members.len(), 1);
                assert_eq!(members[0].key, key);
                assert_eq!(members[0].value, JsonValue::Integer(value));
            }
            JsonDocument::Other => panic!("no object"),
        }
    }
}

#[test]
fn serialize_faults() {
    let registers: HashMap<u16, u16> = HashMap::from([(40001, 1), (40002, 2), (40003, 3)]);
    let missing = registers_to_object(&registers, vec!["40001/Q".to_string()]);
    assert!(matches!(missing, Err(JsonError::Other(_))));
    let absent = registers_to_object(&registers, vec!["40009".to_string()]);
    assert!(matches!(absent, Err(JsonError::Other(_))));
    let grammar = registers_to_object(&registers, vec!["40001/z".to_string()]);
    assert!(matches!(grammar, Err(JsonError::Other(_))));
    let duplicate = registers_to_object(&registers, vec!["40001".to_string(), "40002".to_string(), "40001".to_string()]);
    assert!(matches!(duplicate, Err(JsonError::Invalid(_))));
    let first_fault_wins = registers_to_object(&registers, vec!["40001".to_string(), "40009".to_string(), "40001".to_string()]);
    assert!(matches!(first_fault_wins, Err(JsonError::Other(_))));
    let end_of_space = HashMap::from([(65535u16, 1u16)]);
    assert!(matches!(registers_to_object(&end_of_space, vec!["65535/i".to_string()]), Err(JsonError::Other(_))));
    let same_address = registers_to_object(&registers, vec!["40001".to_string(), "40001/h".to_string()]).unwrap();
    assert_eq!(value_at(&same_address, "40001/h"), Some(JsonValue::Integer(1)));
    let empty = registers_to_object(&registers, vec![]).unwrap();
    assert!(matches!(empty, JsonDocument::Object(ref m) if m.is_empty()));
}

#[test]
fn decode_reads_members_in_order() {
    let document = decode("{\"40007/Q\": 42, \"1\": true, \"40001\": 1.5, \"2\": \"x\", \"3\": null, \"40020/q\": -7}").unwrap();
    match document {
        JsonDocument::Object(members) => {
            let read: Vec<(String, JsonValue)> = members.into_iter().map(|m| (m.key, m.value)).collect();
            assert_eq!(
                read,
                vec![
                    ("40007/Q".to_string(), JsonValue::Integer(42)),
                    ("1".to_string(), JsonValue::Bool(true)),
                    ("40001".to_string(), JsonValue::Other),
                    ("2".to_string(), JsonValue::Other),
                    ("3".to_string(), JsonValue::Other),
                    ("40020/q".to_string(), JsonValue::Integer(-7)),
                ]
            );
        }
        JsonDocument::Other => panic!("no object"),
    }
    assert!(matches!(decode("[1, 2]"), Ok(JsonDocument::Other)));
    assert!(matches!(decode("42"), Ok(JsonDocument::Other)));
    assert!(matches!(decode("{\"1\": "), Err(JsonError::Other(_))));
    assert!(matches!(decode(""), Err(JsonError::Other(_))));
    let large = decode("{\"40001/Q\": 18446744073709551615}").unwrap();
    assert_eq!(value_at(&large, "40001/Q"), Some(JsonValue::Integer(u64::MAX as i128)));
}

#[test]
fn encode_refuses_what_is_no_json() {
    assert!(matches!(encode(&JsonDocument::Other), Err(JsonError::Other(_))));
    let other = JsonDocument::Object(vec![JsonMember::new("1", JsonValue::Other)]);
    assert!(matches!(encode(&other), Err(JsonError::Other(_))));
    let wide = JsonDocument::Object(vec![JsonMember::new("1", JsonValue::Integer(1 << 64))]);
    assert!(matches!(encode(&wide), Err(JsonError::Other(_))));
    let low = JsonDocument::Object(vec![JsonMember::new("1", JsonValue::Integer(-(1 << 63) - 1))]);
    assert!(matches!(encode(&low), Err(JsonError::Other(_))));
    let edge = JsonDocument::Object(vec![
        JsonMember::new("a", JsonValue::Integer(u64::MAX as i128)),
        JsonMember::new("b", JsonValue::Integer(i64::MIN as i128)),
        JsonMember::new("c", JsonValue::Bool(false)),
    ]);
    assert_eq!(
        encode(&edge).unwrap(),
        "{\n  \"a\": 18446744073709551615,\n  \"b\": -9223372036854775808,\n  \"c\": false\n}"
    );
    assert_eq!(encode(&JsonDocument::Object(vec![])).unwrap(), "{}");
}

#[test]
fn text_round_trip() {
    let text = "{\n  \"1\": 1,\n  \"100\": 1,\n  \"40001/Q\": 42\n}";
    let document = decode(text).unwrap();
    let (registers, keys) = parse(document).unwrap();
    let written = encode(&registers_to_object(&registers, keys).unwrap()).unwrap();
    assert_eq!(written, text);
}

#[test]
fn error_messages() {
    assert_eq!(JsonError::NoFile.message(), "No file");
    assert_eq!(JsonError::Invalid("a".to_string()).message(), "a");
    assert_eq!(JsonError::Incomplete("b".to_string()).message(), "b");
    assert_eq!(JsonError::Other("c".to_string()).message(), "c");
    assert_eq!(JsonError::Io("d".to_string()).message(), "d");
    match parse(object(&[("40001/x", 0)])) {
        Err(error) => assert_eq!(error.message(), "Error parsing key '40001/x'"),
        Ok(_) => panic!("accepted"),
    }
}
