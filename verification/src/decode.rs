use vstd::prelude::*;

verus! {

use vstd::string::StrSliceExecFns;
use vstd::string::StringExecFns;

use crate::json::JsonValue;
use crate::json::SpecJson;
use crate::json::parse_json;
use crate::json::parse_json_text;
use crate::json::object_get_index;
use crate::json::spec_object_get;
use crate::json::views_of_members;
use crate::message::MessageHeader;
use crate::message::MessageId;
use crate::node::ProtocolError;
use crate::node_id::NodeId;
use crate::node_id::valid_node_id_text;

/// An optional correlation field read from a body: absent or `null` means
/// no identifier, a number is one, anything else breaks the record.
pub open spec fn spec_opt_id(field: Option<SpecJson>) -> Option<Option<u64>> {
    match field {
        None => Some(None),
        Some(SpecJson::Null) => Some(None),
        Some(SpecJson::UInt(n)) => Some(Some(n)),
        Some(_) => None,
    }
}

/// The envelope read from one decoded record: the source and destination
/// identifier texts (both valid), the two optional correlation identifiers,
/// and the body, which must be an object. Any other shape is a transport
/// framing error.
pub open spec fn spec_decode_record(s: Seq<char>) -> Option<
    (Seq<char>, Seq<char>, Option<u64>, Option<u64>, SpecJson),
> {
    match parse_json_text(s) {
        Some(SpecJson::Object(ms)) => {
            match (spec_object_get(ms, "src"@), spec_object_get(ms, "dest"@), spec_object_get(
                ms,
                "body"@,
            )) {
                (Some(SpecJson::Str(src)), Some(SpecJson::Str(dest)), Some(body)) => {
                    if valid_node_id_text(src) && valid_node_id_text(dest) && (
                    body matches SpecJson::Object(_)) {
                        match (
                            spec_opt_id(spec_object_get(body->Object_0, "msg_id"@)),
                            spec_opt_id(spec_object_get(body->Object_0, "in_reply_to"@)),
                        ) {
                            (Some(mid), Some(irt)) => Some((src, dest, mid, irt, body)),
                            _ => None,
                        }
                    } else {
                        None
                    }
                },
                _ => None,
            }
        },
        _ => None,
    }
}

/// A fatal decoding failure carrying a diagnostic text.
fn fail(message: &str) -> (r: ProtocolError) {
    ProtocolError { message: String::from_str(message) }
}

/// Read an optional correlation identifier from a body.
fn get_opt_id(members: &Vec<(String, JsonValue)>, key: &str) -> (r: Result<
    Option<MessageId>,
    ProtocolError,
>)
    ensures
        match r {
            Ok(opt) => spec_opt_id(spec_object_get(views_of_members(members@), key@)) == Some(
                match opt {
                    Option::Some(id) => Some(id@),
                    Option::None => None,
                },
            ),
            Err(_) => spec_opt_id(spec_object_get(views_of_members(members@), key@)) is None,
        },
{
    match object_get_index(members, key) {
        None => Ok(None),
        Some(k) => {
            proof {
                assert(views_of_members(members@)[k as int].1 == members@[k as int].1.view());
            }
            match &members[k].1 {
                JsonValue::Null => Ok(None),
                JsonValue::UInt(n) => Ok(Some(MessageId(*n))),
                _ => Err(fail("a correlation id must be a number or null")),
            }
        },
    }
}

/// Decode one wire record into its envelope header and its body.
///
/// Succeeds exactly on texts the wire grammar accepts whose top level is an
/// object with string `src` and `dest` fields naming valid node
/// identifiers, an object `body` field, and correlation fields (if present)
/// that are numbers or `null`. Everything else is a protocol violation,
/// fatal to the process.
pub fn decode_record(line: &str) -> (r: Result<(MessageHeader, JsonValue), ProtocolError>)
    ensures
        r is Ok <==> spec_decode_record(line@) is Some,
        r matches Ok((header, body)) ==> spec_decode_record(line@) matches Some(
            (src, dest, mid, irt, b),
        ) && {
            &&& header.src.wf() && header.src.text_of() == src
            &&& header.dest.wf() && header.dest.text_of() == dest
            &&& (match mid {
                Some(n) => header.msg_id matches Some(id) && id@ == n,
                None => header.msg_id is None,
            })
            &&& (match irt {
                Some(n) => header.in_reply_to matches Some(id) && id@ == n,
                None => header.in_reply_to is None,
            })
            &&& body@ == b
        },
{
    let parsed = match parse_json(line) {
        Some(v) => v,
        None => {
            return Err(fail("record does not parse"));
        },
    };
    let mut members: Vec<(String, JsonValue)> = match parsed {
        JsonValue::Object(members) => members,
        _ => {
            return Err(fail("record is not an object"));
        },
    };
    let src = match object_get_index(&members, "src") {
        Some(k) => match &members[k].1 {
            JsonValue::Str(text) => match NodeId::from_str(text.as_str()) {
                Ok(id) => {
                    proof {
                        node_id_text_facts(*text, id);
                    }
                    id
                },
                Err(_) => {
                    proof {
                        if valid_node_id_text(text@) {
                            crate::node_id::lemma_valid_text_valid_bytes(text@);
                        }
                    }
                    return Err(fail("src is not a valid node id"));
                },
            },
            _ => {
                return Err(fail("src must be a string"));
            },
        },
        None => {
            return Err(fail("record without src"));
        },
    };
    let dest = match object_get_index(&members, "dest") {
        Some(k) => match &members[k].1 {
            JsonValue::Str(text) => match NodeId::from_str(text.as_str()) {
                Ok(id) => {
                    proof {
                        node_id_text_facts(*text, id);
                    }
                    id
                },
                Err(_) => {
                    proof {
                        if valid_node_id_text(text@) {
                            crate::node_id::lemma_valid_text_valid_bytes(text@);
                        }
                    }
                    return Err(fail("dest is not a valid node id"));
                },
            },
            _ => {
                return Err(fail("dest must be a string"));
            },
        },
        None => {
            return Err(fail("record without dest"));
        },
    };
    let body_index = match object_get_index(&members, "body") {
        Some(k) => k,
        None => {
            return Err(fail("record without body"));
        },
    };
    let ghost ms = views_of_members(members@);
    let body = members.remove(body_index).1;
    proof {
        assert(body@ == ms[body_index as int].1);
    }
    let body_members = match &body {
        JsonValue::Object(body_members) => body_members,
        _ => {
            return Err(fail("body must be an object"));
        },
    };
    let msg_id = match get_opt_id(body_members, "msg_id") {
        Ok(opt) => opt,
        Err(e) => {
            return Err(e);
        },
    };
    let in_reply_to = match get_opt_id(body_members, "in_reply_to") {
        Ok(opt) => opt,
        Err(e) => {
            return Err(e);
        },
    };
    Ok((MessageHeader { src, dest, msg_id, in_reply_to }, body))
}

/// Bridge a parsed identifier back to the text it came from.
proof fn node_id_text_facts(text: String, id: NodeId)
    requires
        id.wf(),
        id@ == vstd::utf8::encode_utf8(text@),
        crate::node_id::valid_node_id_bytes(vstd::utf8::encode_utf8(text@)),
    ensures
        valid_node_id_text(text@),
        id.text_of() == text@,
{
    crate::node_id::lemma_valid_bytes_valid_text(text@);
    crate::node_id::lemma_parse_format_identity(text@, id);
}

} // verus!
