use fly_into_the_maelstrom::broadcast::BroadcastPayload;
use fly_into_the_maelstrom::message::Message;
use fly_into_the_maelstrom::message::MessageHeader;
use fly_into_the_maelstrom::message::MessageId;
use fly_into_the_maelstrom::node_id::NodeId;
use fly_into_the_maelstrom::retry_queue::RetryQueue;

fn node(text: &str) -> NodeId {
    NodeId::from_str(text).unwrap()
}

fn message(msg_id: u64, values: Vec<u64>) -> Message<BroadcastPayload> {
    Message {
        header: MessageHeader {
            src: node("n1"),
            dest: node("n2"),
            msg_id: Some(MessageId(msg_id)),
            in_reply_to: None,
        },
        payload: BroadcastPayload { values },
    }
}

#[test]
fn unacknowledged_message_reappears_with_capped_growing_gaps() {
    // Base interval 100ms, multiplier capped at 5: the gaps between
    // successive re-emissions are 100, 200, 300, 400, 500, 500, 500, ...
    let mut queue: RetryQueue<BroadcastPayload> = RetryQueue::new(100);
    queue.insert(message(1, vec![7]), 0);
    let expected_gaps = [100u64, 200, 300, 400, 500, 500, 500];
    let mut due = 0u64;
    let mut previous_gap = 0u64;
    for expected_gap in expected_gaps {
        assert!(expected_gap >= previous_gap, "gaps must not shrink");
        assert!(expected_gap <= 500, "gaps must stay within the cap");
        due += expected_gap;
        assert_eq!(queue.send_after(), Some(due));
        // Not due yet just before the deadline.
        assert!(queue.retry_messages(due - 1).is_empty());
        // Due exactly at the deadline, and re-queued afterwards.
        let drained = queue.retry_messages(due);
        assert_eq!(drained.len(), 1);
        assert_eq!(drained[0].header.msg_id, Some(MessageId(1)));
        assert_eq!(drained[0].payload.values, vec![7]);
        previous_gap = expected_gap;
    }
}

#[test]
fn remove_cancels_exactly_one_entry_for_good() {
    let mut queue: RetryQueue<BroadcastPayload> = RetryQueue::new(100);
    queue.insert(message(1, vec![1]), 0);
    queue.insert(message(2, vec![2]), 0);
    // Acknowledge message 1 by its correlation id.
    queue.remove(|m| m.header.msg_id == Some(MessageId(1)));
    // Message 1 never reappears, message 2 keeps retrying.
    for round in 1..4u64 {
        let drained = queue.retry_messages(round * 1000);
        assert_eq!(drained.len(), 1);
        assert_eq!(drained[0].header.msg_id, Some(MessageId(2)));
    }
}

#[test]
fn remove_without_match_changes_nothing() {
    let mut queue: RetryQueue<BroadcastPayload> = RetryQueue::new(100);
    queue.insert(message(1, vec![1]), 0);
    queue.remove(|m| m.header.msg_id == Some(MessageId(9)));
    assert_eq!(queue.send_after(), Some(100));
}

#[test]
fn entries_drain_in_ascending_send_time_order() {
    let mut queue: RetryQueue<BroadcastPayload> = RetryQueue::new(50);
    queue.insert(message(1, vec![1]), 100); // due at 150
    queue.insert(message(2, vec![2]), 0); // due at 50
    assert_eq!(queue.send_after(), Some(50));
    let drained = queue.retry_messages(150);
    assert_eq!(drained.len(), 2);
    assert_eq!(drained[0].header.msg_id, Some(MessageId(2)));
    assert_eq!(drained[1].header.msg_id, Some(MessageId(1)));
}
