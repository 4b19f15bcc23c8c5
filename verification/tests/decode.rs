use fly_into_the_maelstrom::broadcast::BroadcastPayload;
use fly_into_the_maelstrom::decode::decode_record;
use fly_into_the_maelstrom::init::parse_init;
use fly_into_the_maelstrom::json::parse_json;
use fly_into_the_maelstrom::json::JsonValue;
use fly_into_the_maelstrom::message::Message;
use fly_into_the_maelstrom::message::MessageHeader;
use fly_into_the_maelstrom::message::MessageId;
use fly_into_the_maelstrom::node_id::NodeId;
use fly_into_the_maelstrom::wire::serialize_message;

#[test]
fn deserialize_init_message() {
    let json_string = r#"{
            "src": "c1",
            "dest": "n3",
            "body": {
                "type": "init",
                "msg_id": 1,
                "node_id": "n3",
                "node_ids": ["n1", "n2", "n3"]
            }
        }"#;
    let (header, body) = decode_record(json_string).unwrap();
    assert_eq!(header.src.text(), "c1".to_owned());
    let payload = parse_init(&body).unwrap();
    assert_eq!(
        payload
            .node_ids
            .iter()
            .map(|id| id.text())
            .collect::<Vec<_>>(),
        vec!["n1".to_owned(), "n2".to_owned(), "n3".to_owned()]
    );
}

#[test]
fn deserialize_init_message_failure() {
    let json_string = r#"{
            "src": "c1",
            "dest": "n3",
            "body": {
                "type": "no-init",
                "msg_id": 1,
                "node_id": "n3",
                "node_ids": ["n1", "n2", "n3"]
            }
        }"#;
    let (_, body) = decode_record(json_string).unwrap();
    let message = parse_init(&body);
    assert!(matches!(message, Result::Err(_)), "{message:?}");
}

#[test]
fn deserialize_custom_body() {
    let json_string = r#"{
            "src": "c1",
            "dest": "n3",
            "body": {
                "type": "echo",
                "msg_id": 1,
                "echo": "Please echo 35"
            }
        }"#;
    let (header, body) = decode_record(json_string).unwrap();
    assert_eq!(header.msg_id, Some(MessageId(1)));
    let echo = body.get("echo").and_then(|e| e.as_str()).unwrap();
    assert_eq!(echo.as_str(), "Please echo 35");
}

#[test]
fn decode_reads_correlation_ids_and_null() {
    let record = "{\"src\":\"n1\",\"dest\":\"c1\",\
                  \"body\":{\"msg_id\":2,\"in_reply_to\":null,\"type\":\"x\"}}";
    let (header, _) = decode_record(record).unwrap();
    assert_eq!(header.msg_id, Some(MessageId(2)));
    assert_eq!(header.in_reply_to, None);
}

#[test]
fn decode_rejects_malformed_records() {
    // Not JSON at all.
    assert!(decode_record("nonsense").is_err());
    // Not an object.
    assert!(decode_record("[1,2]").is_err());
    // Missing fields.
    assert!(decode_record("{\"src\":\"n1\"}").is_err());
    // src is not a valid node identifier.
    assert!(decode_record("{\"src\":\"toolong!!\",\"dest\":\"c1\",\"body\":{}}").is_err());
    // A correlation id of the wrong shape.
    assert!(
        decode_record("{\"src\":\"n1\",\"dest\":\"c1\",\"body\":{\"msg_id\":\"x\"}}").is_err()
    );
    // Trailing text after the record.
    assert!(decode_record("{\"src\":\"n1\",\"dest\":\"c1\",\"body\":{}} tail").is_err());
}

#[test]
fn parser_reads_the_protocol_grammar() {
    let v = parse_json(" {\"a\": [1, 20, 0], \"b\": {\"c\": \"x\\n\\\"y\"}, \"d\": true} ")
        .unwrap();
    let a = v.get("a").unwrap();
    match a {
        JsonValue::Array(items) => {
            assert_eq!(items.len(), 3);
            assert_eq!(items[0].as_u64(), Some(1));
            assert_eq!(items[1].as_u64(), Some(20));
            assert_eq!(items[2].as_u64(), Some(0));
        }
        _ => panic!("expected an array"),
    }
    let c = v.get("b").unwrap().get("c").unwrap().as_str().unwrap();
    assert_eq!(c.as_str(), "x\n\"y");
    assert_eq!(v.get("d"), Some(&JsonValue::Bool(true)));
    assert_eq!(v.get("missing"), None);
}

#[test]
fn serialized_records_decode_back_to_the_same_envelope() {
    let header = MessageHeader {
        src: NodeId::from_str("n1").unwrap(),
        dest: NodeId::from_str("c1").unwrap(),
        msg_id: Some(MessageId(3)),
        in_reply_to: None,
    };
    let message = Message {
        header,
        payload: BroadcastPayload {
            values: vec![1, 2, 10],
        },
    };
    let record = serialize_message(&message);
    let (decoded, body) = decode_record(&record).unwrap();
    assert_eq!(decoded.src, header.src);
    assert_eq!(decoded.dest, header.dest);
    assert_eq!(decoded.msg_id, header.msg_id);
    assert_eq!(decoded.in_reply_to, header.in_reply_to);
    assert_eq!(
        body.get("type").and_then(|t| t.as_str()).unwrap().as_str(),
        "broadcast"
    );
    match body.get("message").unwrap() {
        JsonValue::Array(items) => {
            let values: Vec<u64> = items.iter().filter_map(|v| v.as_u64()).collect();
            assert_eq!(values, vec![1, 2, 10]);
        }
        _ => panic!("expected an array"),
    }
}

#[test]
fn parser_passes_raw_unicode_text_through() {
    let v = parse_json("\"no\u{e4}scii\"").unwrap();
    assert_eq!(v.as_str().unwrap().as_str(), "noäscii");
}

#[test]
fn parser_rejects_what_the_grammar_refuses() {
    // Negative and fractional numbers are outside the protocol.
    assert!(parse_json("-1").is_none());
    assert!(parse_json("1.5").is_none());
    // Leading zeros.
    assert!(parse_json("01").is_none());
    // Unterminated structures.
    assert!(parse_json("{\"a\":1").is_none());
    assert!(parse_json("[1,2").is_none());
    assert!(parse_json("\"abc").is_none());
    // Numeric escapes are outside the protocol's grammar.
    assert!(parse_json("\"\\u0041\"").is_none());
    // Numbers beyond the u64 range.
    assert!(parse_json("18446744073709551616").is_none());
    // But the largest representable value parses.
    assert_eq!(
        parse_json("18446744073709551615"),
        Some(JsonValue::UInt(u64::MAX))
    );
}
