use fly_into_the_maelstrom::broadcast::BroadcastPayload;
use fly_into_the_maelstrom::message::Message;
use fly_into_the_maelstrom::message::MessageHeader;
use fly_into_the_maelstrom::message::MessageId;
use fly_into_the_maelstrom::node_id::NodeId;
use fly_into_the_maelstrom::wire::serialize_message;

fn node(text: &str) -> NodeId {
    NodeId::from_str(text).unwrap()
}

#[test]
fn broadcast_message_serializes_to_the_wire_shape() {
    let message = Message {
        header: MessageHeader {
            src: node("n1"),
            dest: node("n2"),
            msg_id: Some(MessageId(3)),
            in_reply_to: None,
        },
        payload: BroadcastPayload {
            values: vec![1, 2, 10],
        },
    };
    let record = serialize_message(&message);
    assert_eq!(
        record,
        "{\"src\":\"n1\",\"dest\":\"n2\",\"body\":{\"msg_id\":3,\"in_reply_to\":null,\
         \"type\":\"broadcast\",\"message\":[1,2,10]}}"
    );
    // The record round-trips through an independent JSON parser.
    let value: serde_json::Value = serde_json::from_str(&record).unwrap();
    assert_eq!(value["body"]["message"], serde_json::Value::from(vec![1u64, 2, 10]));
}

#[test]
fn single_value_list_serializes_without_separator() {
    let message = Message {
        header: MessageHeader {
            src: node("n1"),
            dest: node("n2"),
            msg_id: None,
            in_reply_to: None,
        },
        payload: BroadcastPayload { values: vec![42] },
    };
    let record = serialize_message(&message);
    assert!(record.ends_with("\"message\":[42]}}"), "got {record}");
}
