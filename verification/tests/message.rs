use fly_into_the_maelstrom::init::InitOkPayload;
use fly_into_the_maelstrom::message::MessageHeader;
use fly_into_the_maelstrom::message::MessageId;
use fly_into_the_maelstrom::message::MessageTransmitter;
use fly_into_the_maelstrom::node_id::NodeId;
use fly_into_the_maelstrom::wire::encode_record;

fn node(text: &str) -> NodeId {
    NodeId::from_str(text).unwrap()
}

#[test]
fn message_ids_strictly_increase() {
    let mut tx: MessageTransmitter<InitOkPayload> = MessageTransmitter::new(node("n1"));
    let mut previous: Option<u64> = None;
    for _ in 0..5 {
        let message = tx.prepare(node("n2"), None, InitOkPayload);
        let id = message.header.msg_id.unwrap().value();
        if let Some(p) = previous {
            assert!(id > p, "ids must strictly increase");
        }
        previous = Some(id);
    }
}

#[test]
fn send_assigns_fresh_ids_in_order() {
    let mut tx: MessageTransmitter<InitOkPayload> = MessageTransmitter::new(node("n1"));
    let first = tx.send(node("n2"), InitOkPayload);
    let second = tx.send(node("n3"), InitOkPayload);
    assert_eq!(first.value(), 0);
    assert_eq!(second.value(), 1);
    let records = tx.take_outgoing();
    assert_eq!(records.len(), 2);
    assert!(records[0].contains("\"dest\":\"n2\""));
    assert!(records[1].contains("\"dest\":\"n3\""));
}

#[test]
fn reply_echoes_correlation_id() {
    let mut tx: MessageTransmitter<InitOkPayload> = MessageTransmitter::new(node("n1"));
    let request_header = MessageHeader {
        src: node("c1"),
        dest: node("n1"),
        msg_id: Some(MessageId(7)),
        in_reply_to: None,
    };
    tx.reply(&request_header, InitOkPayload);
    let records = tx.take_outgoing();
    assert_eq!(records.len(), 1);
    let value: serde_json::Value = serde_json::from_str(&records[0]).unwrap();
    assert_eq!(value["src"], "n1");
    assert_eq!(value["dest"], "c1");
    assert_eq!(value["body"]["in_reply_to"], 7);
    assert_eq!(value["body"]["msg_id"], 0);
    assert_eq!(value["body"]["type"], "init_ok");
}

#[test]
fn encode_record_produces_exact_wire_shape() {
    let header = MessageHeader {
        src: node("n1"),
        dest: node("c1"),
        msg_id: Some(MessageId(2)),
        in_reply_to: Some(MessageId(1)),
    };
    let record = encode_record(&header, "\"type\":\"echo_ok\",\"echo\":\"hi\"");
    assert_eq!(
        record,
        "{\"src\":\"n1\",\"dest\":\"c1\",\"body\":{\"msg_id\":2,\"in_reply_to\":1,\
         \"type\":\"echo_ok\",\"echo\":\"hi\"}}"
    );
}

#[test]
fn encode_record_renders_missing_ids_as_null() {
    let header = MessageHeader {
        src: node("n1"),
        dest: node("c1"),
        msg_id: None,
        in_reply_to: None,
    };
    let record = encode_record(&header, "");
    assert_eq!(
        record,
        "{\"src\":\"n1\",\"dest\":\"c1\",\"body\":{\"msg_id\":null,\"in_reply_to\":null}}"
    );
}

#[test]
fn encode_record_escapes_quotes_and_backslashes() {
    // '"' and '\\' are ASCII punctuation, so they are legal in identifiers.
    let header = MessageHeader {
        src: node("a\"b"),
        dest: node("c\\d"),
        msg_id: None,
        in_reply_to: None,
    };
    let record = encode_record(&header, "");
    let value: serde_json::Value = serde_json::from_str(&record).unwrap();
    assert_eq!(value["src"], "a\"b");
    assert_eq!(value["dest"], "c\\d");
}

#[derive(Debug, PartialEq)]
struct Narrow(u8);

#[derive(Debug, PartialEq)]
struct Wide(u16);

impl From<Narrow> for Wide {
    fn from(source: Narrow) -> Self {
        Wide(source.0 as u16)
    }
}

#[test]
fn mapped_converts_the_payload_and_keeps_the_header() {
    let message = fly_into_the_maelstrom::message::Message {
        header: MessageHeader {
            src: node("n1"),
            dest: node("c1"),
            msg_id: Some(MessageId(4)),
            in_reply_to: None,
        },
        payload: Narrow(9),
    };
    let mapped: fly_into_the_maelstrom::message::Message<Wide> = message.mapped();
    assert_eq!(mapped.header.msg_id, Some(MessageId(4)));
    assert_eq!(mapped.payload, Wide(9));
}

#[test]
fn encoding_matches_serde_json_number_rendering() {
    let header = MessageHeader {
        src: node("n1"),
        dest: node("c1"),
        msg_id: Some(MessageId(18446744073709551615)),
        in_reply_to: Some(MessageId(0)),
    };
    let record = encode_record(&header, "");
    let value: serde_json::Value = serde_json::from_str(&record).unwrap();
    assert_eq!(value["body"]["msg_id"], 18446744073709551615u64);
    assert_eq!(value["body"]["in_reply_to"], 0);
}
