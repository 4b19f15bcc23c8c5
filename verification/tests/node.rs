use fly_into_the_maelstrom::node::drive;
use fly_into_the_maelstrom::node::NodeInput;
use fly_into_the_maelstrom::node::NodeState;
use fly_into_the_maelstrom::node::ProtocolError;

/// A minimal protocol implementation: repeats every record back, counts
/// wake-ups, and asks to be woken 100ms after every event.
struct ParrotNode {
    wake_ups: u64,
}

impl NodeState for ParrotNode {
    fn handle(self, request: &str, _now: u64) -> Result<(Self, Vec<String>), ProtocolError> {
        if request.is_empty() {
            return Err(ProtocolError {
                message: "empty record".to_string(),
            });
        }
        Ok((self, vec![request.to_string()]))
    }

    fn wake_up(mut self, _now: u64) -> Result<(Self, Vec<String>), ProtocolError> {
        self.wake_ups += 1;
        Ok((self, vec![]))
    }

    fn next_wake_up(&self, now: u64) -> Option<u64> {
        Some(now + 100)
    }
}

#[test]
fn drive_dispatches_messages_and_requeries_the_timer() {
    let node = ParrotNode { wake_ups: 0 };
    let (node, records, next) = drive(
        node,
        NodeInput::Message("{\"src\":\"c1\"}".to_string()),
        1000,
    )
    .unwrap();
    assert_eq!(records, vec!["{\"src\":\"c1\"}".to_string()]);
    assert_eq!(next, Some(1100));
    assert_eq!(node.wake_ups, 0);
}

#[test]
fn drive_dispatches_wake_ups() {
    let node = ParrotNode { wake_ups: 0 };
    let (node, records, next) = drive(node, NodeInput::WakeUp, 500).unwrap();
    assert!(records.is_empty());
    assert_eq!(next, Some(600));
    assert_eq!(node.wake_ups, 1);
}

#[test]
fn drive_propagates_fatal_errors() {
    let node = ParrotNode { wake_ups: 0 };
    let result = drive(node, NodeInput::Message(String::new()), 0);
    assert!(result.is_err());
}
