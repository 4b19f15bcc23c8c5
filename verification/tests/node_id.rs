use fly_into_the_maelstrom::node_id::NodeId;
use fly_into_the_maelstrom::node_id::ParseNodeIdError;

#[test]
fn deserialize_node_id() {
    for valid_node_id in ["n1", "12345678"] {
        let id = NodeId::from_str(valid_node_id).unwrap();
        assert_eq!(id.text(), valid_node_id);
    }
}

#[test]
fn deserialize_node_id_failures() {
    for invalid_node_id in ["toolong!!", "noäscii"] {
        let id = NodeId::from_str(invalid_node_id);
        assert!(
            id.is_err(),
            "deserialization of \"{}\" should fail",
            invalid_node_id
        );
    }
}

#[test]
fn too_long_input_reports_too_long() {
    assert_eq!(NodeId::from_str("toolong!!"), Err(ParseNodeIdError::TooLong));
    assert_eq!(
        NodeId::from_str("123456789"),
        Err(ParseNodeIdError::TooLong)
    );
}

#[test]
fn first_disallowed_byte_is_reported() {
    // A space is not a letter, digit or punctuation character.
    assert_eq!(
        NodeId::from_str("a b"),
        Err(ParseNodeIdError::InvalidByte(b' '))
    );
    // The first byte of the two-byte encoding of 'ä'.
    assert_eq!(
        NodeId::from_str("noäscii"),
        Err(ParseNodeIdError::InvalidByte(0xc3))
    );
}

#[test]
fn round_trip_is_identity_on_valid_inputs() {
    for text in ["", "n1", "c42", "seq-kv", "A!z9~#_/", "12345678"] {
        let id = NodeId::from_str(text).unwrap();
        assert_eq!(id.text(), text);
    }
}

#[test]
fn equality_is_by_text() {
    let a = NodeId::from_str("n1").unwrap();
    let b = NodeId::from_str("n1").unwrap();
    let c = NodeId::from_str("n2").unwrap();
    assert!(a == b);
    assert!(a != c);
}

#[test]
fn eight_byte_capacity_is_exact() {
    assert!(NodeId::from_str("12345678").is_ok());
    assert!(NodeId::from_str("123456789").is_err());
}
