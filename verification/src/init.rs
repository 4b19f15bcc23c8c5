use vstd::prelude::*;

verus! {

use vstd::string::StringExecFns;

use crate::json::JsonValue;
use crate::json::SpecJson;
use crate::json::spec_object_get;
use crate::json::str_eq;
use crate::json::views_of_items;
use crate::message::MessageHeader;
use crate::message::MessageId;
use crate::message::MessageTransmitter;
use crate::node::ProtocolError;
use crate::node_id::NodeId;
use crate::node_id::lemma_parse_format_identity;
use crate::node_id::lemma_valid_bytes_valid_text;
use crate::node_id::lemma_valid_text_valid_bytes;
use crate::node_id::valid_node_id_text;
use crate::wire::WirePayload;
use crate::wire::line_free;
use crate::wire::wire_record;

/// The payload a node receives with the handshake request: its own identity
/// and the full set of participating nodes.
#[derive(PartialEq, Eq, Clone, Debug)]
pub struct InitPayload {
    pub node_id: NodeId,
    pub node_ids: Vec<NodeId>,
}

/// The handshake acknowledgment payload; on the wire, `"type":"init_ok"`.
#[derive(PartialEq, Eq, Structural, Clone, Copy, Debug)]
pub struct InitOkPayload;

impl WirePayload for InitOkPayload {
    open spec fn fragment(&self) -> Seq<char> {
        "\"type\":\"init_ok\""@
    }

    open spec fn fragment_members(&self) -> Seq<(Seq<char>, SpecJson)> {
        seq![("type"@, SpecJson::Str("init_ok"@))]
    }

    fn render_fragment(&self) -> (r: String) {
        let r = String::from_str("\"type\":\"init_ok\"");
        proof {
            reveal_strlit("\"type\":\"init_ok\"");
            assert(line_free(r@));
            crate::roundtrip::lemma_init_ok_fragment();
        }
        r
    }
}

/// The handshake request read from a record's body: the node's identifier
/// text and the identifier texts of all participating nodes — provided the
/// body is an object of type `init` whose `node_id` is a valid identifier
/// string and whose `node_ids` is an array of valid identifier strings.
pub open spec fn spec_parse_init(body: SpecJson) -> Option<(Seq<char>, Seq<Seq<char>>)> {
    match body {
        SpecJson::Object(bs) => {
            if spec_object_get(bs, "type"@) == Some(SpecJson::Str("init"@)) {
                match (spec_object_get(bs, "node_id"@), spec_object_get(bs, "node_ids"@)) {
                    (Some(SpecJson::Str(t)), Some(SpecJson::Array(items))) => {
                        if valid_node_id_text(t) && (forall|i: int|
                            0 <= i < items.len() ==> ((#[trigger] items[i]) matches SpecJson::Str(
                                u,
                            ) && valid_node_id_text(u))) {
                            Some(
                                (
                                    t,
                                    Seq::new(
                                        items.len(),
                                        |i: int|
                                            match items[i] {
                                                SpecJson::Str(u) => u,
                                                _ => Seq::empty(),
                                            },
                                    ),
                                ),
                            )
                        } else {
                            None
                        }
                    },
                    _ => None,
                }
            } else {
                None
            }
        },
        _ => None,
    }
}

/// Read the handshake request from a record's body.
///
/// Succeeds exactly on bodies [`spec_parse_init`] accepts; anything else is
/// a protocol violation, fatal to the process.
pub fn parse_init(body: &JsonValue) -> (r: Result<InitPayload, ProtocolError>)
    ensures
        r is Ok <==> spec_parse_init(body@) is Some,
        r matches Ok(p) ==> spec_parse_init(body@) matches Some((t, ids)) && {
            &&& p.node_id.wf() && p.node_id.text_of() == t
            &&& p.node_ids@.len() == ids.len()
            &&& forall|i: int|
                0 <= i < ids.len() ==> (#[trigger] p.node_ids@[i]).wf()
                    && p.node_ids@[i].text_of() == ids[i]
        },
{
    let type_ok = match body.get("type") {
        Some(v) => match v.as_str() {
            Some(text) => str_eq(text.as_str(), "init"),
            None => false,
        },
        None => false,
    };
    if !type_ok {
        return Err(ProtocolError { message: String::from_str("expected an init request") });
    }
    let node_id = match body.get("node_id") {
        Some(v) => match v.as_str() {
            Some(text) => match NodeId::from_str(text.as_str()) {
                Ok(id) => {
                    proof {
                        lemma_valid_bytes_valid_text(text@);
                        lemma_parse_format_identity(text@, id);
                    }
                    id
                },
                Err(_) => {
                    proof {
                        if valid_node_id_text(text@) {
                            lemma_valid_text_valid_bytes(text@);
                        }
                    }
                    return Err(
                        ProtocolError { message: String::from_str("node_id is not a valid id") },
                    );
                },
            },
            None => {
                return Err(ProtocolError { message: String::from_str("node_id must be a string") });
            },
        },
        None => {
            return Err(ProtocolError { message: String::from_str("init without node_id") });
        },
    };
    let items = match body.get("node_ids") {
        Some(v) => match v {
            JsonValue::Array(items) => items,
            _ => {
                return Err(
                    ProtocolError { message: String::from_str("node_ids must be an array") },
                );
            },
        },
        None => {
            return Err(ProtocolError { message: String::from_str("init without node_ids") });
        },
    };
    let ghost item_views = views_of_items(items@);
    let n = items.len();
    let mut node_ids: Vec<NodeId> = Vec::new();
    let mut i: usize = 0;
    while i < n
        invariant
            body@ is Object,
            spec_object_get(body@->Object_0, "type"@) == Some(SpecJson::Str("init"@)),
            spec_object_get(body@->Object_0, "node_id"@) == Some(
                SpecJson::Str(node_id.text_of()),
            ),
            valid_node_id_text(node_id.text_of()),
            node_id.wf(),
            spec_object_get(body@->Object_0, "node_ids"@) == Some(SpecJson::Array(item_views)),
            n == items@.len(),
            item_views == views_of_items(items@),
            i <= n,
            node_ids@.len() == i,
            forall|j: int|
                0 <= j < i ==> ((#[trigger] item_views[j]) matches SpecJson::Str(u)
                    && valid_node_id_text(u)),
            forall|j: int|
                0 <= j < i ==> (#[trigger] node_ids@[j]).wf() && node_ids@[j].text_of()
                    == item_views[j]->Str_0,
        decreases n - i,
    {
        proof {
            assert(item_views[i as int] == items@[i as int].view());
        }
        let text = match items[i].as_str() {
            Some(text) => text,
            None => {
                return Err(
                    ProtocolError { message: String::from_str("node_ids must hold strings") },
                );
            },
        };
        match NodeId::from_str(text.as_str()) {
            Ok(id) => {
                proof {
                    lemma_valid_bytes_valid_text(text@);
                    lemma_parse_format_identity(text@, id);
                }
                node_ids.push(id);
            },
            Err(_) => {
                proof {
                    if valid_node_id_text(text@) {
                        lemma_valid_text_valid_bytes(text@);
                    }
                }
                return Err(
                    ProtocolError { message: String::from_str("node_ids holds an invalid id") },
                );
            },
        }
        i += 1;
    }
    Ok(InitPayload { node_id, node_ids })
}

/// Perform the node's side of the handshake: the first record every node
/// receives must be an initialization request; the node answers with exactly
/// one acknowledgment correlated to it before anything else, and only then
/// does protocol-specific state exist.
///
/// Returns the node's transmitter — carrying identifier `0` already spent on
/// the acknowledgment, which sits in its queue — together with the payload
/// for the protocol implementation's constructor.
pub fn handle_init(header: &MessageHeader, payload: InitPayload) -> (r: (
    MessageTransmitter<InitOkPayload>,
    InitPayload,
))
    requires
        header.msg_id is Some,
    ensures
        r.1 == payload,
        r.0.src_id() == payload.node_id,
        r.0.next_msg_id() == 1,
        r.0.queued() == seq![
            wire_record(
                MessageHeader {
                    src: payload.node_id,
                    dest: header.src,
                    msg_id: Some(MessageId(0)),
                    in_reply_to: header.msg_id,
                },
                "\"type\":\"init_ok\""@,
            ),
        ],
{
    let mut tx: MessageTransmitter<InitOkPayload> = MessageTransmitter::new(payload.node_id);
    tx.reply(header, InitOkPayload);
    proof {
        assert(tx.queued() =~= seq![
            wire_record(
                MessageHeader {
                    src: payload.node_id,
                    dest: header.src,
                    msg_id: Some(MessageId(0)),
                    in_reply_to: header.msg_id,
                },
                "\"type\":\"init_ok\""@,
            ),
        ]);
    }
    (tx, payload)
}

} // verus!
