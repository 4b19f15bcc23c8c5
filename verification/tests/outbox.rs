use fly_into_the_maelstrom::broadcast::BroadcastPayload;
use fly_into_the_maelstrom::message::Message;
use fly_into_the_maelstrom::message::MessageHeader;
use fly_into_the_maelstrom::node_id::NodeId;
use fly_into_the_maelstrom::outbox::Outbox;

fn node(text: &str) -> NodeId {
    NodeId::from_str(text).unwrap()
}

fn broadcast_to(dest: &str, values: Vec<u64>) -> Message<BroadcastPayload> {
    Message {
        header: MessageHeader {
            src: node("n1"),
            dest: node(dest),
            msg_id: None,
            in_reply_to: None,
        },
        payload: BroadcastPayload { values },
    }
}

#[test]
fn merging_same_destination_yields_one_message_with_the_union() {
    let mut outbox: Outbox<BroadcastPayload> = Outbox::new(10);
    outbox.merge_or_push(broadcast_to("n2", vec![1]), 0);
    outbox.merge_or_push(broadcast_to("n2", vec![2]), 3);
    // Before the delay elapses nothing is ready.
    assert!(outbox.pop_messages_need_sending(9).is_empty());
    // Once elapsed: exactly one message carrying both values.
    let drained = outbox.pop_messages_need_sending(10);
    assert_eq!(drained.len(), 1);
    assert_eq!(drained[0].header.dest, node("n2"));
    assert_eq!(drained[0].payload.values, vec![1, 2]);
}

#[test]
fn merging_does_not_duplicate_values() {
    let mut outbox: Outbox<BroadcastPayload> = Outbox::new(0);
    outbox.merge_or_push(broadcast_to("n2", vec![1, 2]), 0);
    outbox.merge_or_push(broadcast_to("n2", vec![2, 3, 2]), 0);
    let drained = outbox.pop_messages_need_sending(0);
    assert_eq!(drained.len(), 1);
    assert_eq!(drained[0].payload.values, vec![1, 2, 3]);
}

#[test]
fn distinct_destinations_do_not_merge() {
    let mut outbox: Outbox<BroadcastPayload> = Outbox::new(5);
    outbox.merge_or_push(broadcast_to("n2", vec![1]), 0);
    outbox.merge_or_push(broadcast_to("n3", vec![2]), 0);
    let drained = outbox.pop_messages_need_sending(5);
    assert_eq!(drained.len(), 2);
    assert_eq!(drained[0].header.dest, node("n2"));
    assert_eq!(drained[1].header.dest, node("n3"));
}

#[test]
fn drain_returns_elapsed_prefix_in_insertion_order() {
    let mut outbox: Outbox<BroadcastPayload> = Outbox::new(10);
    outbox.merge_or_push(broadcast_to("n2", vec![1]), 0); // ready at 10
    outbox.merge_or_push(broadcast_to("n3", vec![2]), 5); // ready at 15
    outbox.merge_or_push(broadcast_to("n4", vec![3]), 20); // ready at 30
    assert_eq!(outbox.send_after(), Some(10));
    let drained = outbox.pop_messages_need_sending(15);
    assert_eq!(drained.len(), 2);
    assert_eq!(drained[0].header.dest, node("n2"));
    assert_eq!(drained[1].header.dest, node("n3"));
    // The unelapsed entry stays.
    assert_eq!(outbox.send_after(), Some(30));
    assert!(outbox.pop_messages_need_sending(29).is_empty());
    let rest = outbox.pop_messages_need_sending(30);
    assert_eq!(rest.len(), 1);
    assert_eq!(rest[0].header.dest, node("n4"));
    assert_eq!(outbox.send_after(), None);
}
