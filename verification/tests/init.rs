use fly_into_the_maelstrom::decode::decode_record;
use fly_into_the_maelstrom::init::handle_init;
use fly_into_the_maelstrom::init::parse_init;
use fly_into_the_maelstrom::init::InitPayload;
use fly_into_the_maelstrom::message::MessageHeader;
use fly_into_the_maelstrom::message::MessageId;
use fly_into_the_maelstrom::node_id::NodeId;

fn node(text: &str) -> NodeId {
    NodeId::from_str(text).unwrap()
}

#[test]
fn handshake_emits_exactly_one_correlated_acknowledgment() {
    // The node receives {src:"c1", dest:"n1",
    // body:{type:"init", msg_id:1, node_id:"n1", node_ids:["n1"]}}.
    let header = MessageHeader {
        src: node("c1"),
        dest: node("n1"),
        msg_id: Some(MessageId(1)),
        in_reply_to: None,
    };
    let payload = InitPayload {
        node_id: node("n1"),
        node_ids: vec![node("n1")],
    };
    let (mut tx, data) = handle_init(&header, payload);
    assert_eq!(data.node_id, node("n1"));
    assert_eq!(data.node_ids, vec![node("n1")]);

    let records = tx.take_outgoing();
    assert_eq!(records.len(), 1, "exactly one acknowledgment");
    assert_eq!(
        records[0],
        "{\"src\":\"n1\",\"dest\":\"c1\",\"body\":{\"msg_id\":0,\"in_reply_to\":1,\
         \"type\":\"init_ok\"}}"
    );
    let value: serde_json::Value = serde_json::from_str(&records[0]).unwrap();
    assert_eq!(value["body"]["in_reply_to"], 1);
    assert_eq!(value["body"]["type"], "init_ok");

    // The transmitter is ready for the protocol implementation: the next
    // message id is fresh.
    let next = tx.send(node("c1"), fly_into_the_maelstrom::init::InitOkPayload);
    assert_eq!(next.value(), 1);
}

#[test]
fn handshake_end_to_end_from_the_wire() {
    // The raw record arrives, is decoded, recognized as the handshake, and
    // answered with exactly one acknowledgment correlated to msg_id 1 —
    // before any other output exists.
    let line = "{\"src\":\"c1\",\"dest\":\"n1\",\"body\":{\"type\":\"init\",\
                \"msg_id\":1,\"node_id\":\"n1\",\"node_ids\":[\"n1\"]}}";
    let (header, body) = decode_record(line).unwrap();
    let payload = parse_init(&body).unwrap();
    let (mut tx, _) = handle_init(&header, payload);
    let records = tx.take_outgoing();
    assert_eq!(records.len(), 1);
    let ack: serde_json::Value = serde_json::from_str(&records[0]).unwrap();
    assert_eq!(ack["src"], "n1");
    assert_eq!(ack["dest"], "c1");
    assert_eq!(ack["body"]["type"], "init_ok");
    assert_eq!(ack["body"]["in_reply_to"], 1);
}
