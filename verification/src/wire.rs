use vstd::prelude::*;

verus! {

use vstd::string::StrSliceExecFns;
use vstd::string::StringExecFns;

use crate::json::SpecJson;
use crate::message::MessageHeader;
use crate::message::MessageId;
use crate::node_id::NodeId;
use crate::roundtrip::members_text;

/// `s` holds no newline, so it can stand as one record of a line-delimited
/// stream.
pub open spec fn line_free(s: Seq<char>) -> bool {
    forall|i: int| 0 <= i < s.len() ==> s[i] != '\n'
}

/// A payload that knows its own rendering as the fields of a JSON object
/// (the part of a message body after `msg_id` and `in_reply_to`, without the
/// surrounding braces, for example `"type":"init_ok"`).
pub trait WirePayload: Sized {
    /// The payload's field text.
    spec fn fragment(&self) -> Seq<char>;

    /// The object members the payload's field text parses back to.
    spec fn fragment_members(&self) -> Seq<(Seq<char>, SpecJson)>;

    /// Render the payload's field text. The text must be newline-free, with
    /// any quoting its fields need already applied, and a non-empty text
    /// must parse back as the payload's object members — so every encoded
    /// record round-trips through the decoder.
    fn render_fragment(&self) -> (r: String)
        ensures
            r@ == self.fragment(),
            line_free(r@),
            self.fragment().len() > 0 ==> members_text(self.fragment(), self.fragment_members()),
    ;
}

/// Relies on `String::push`: appends the given character to the end of the
/// string.
#[verifier::external_body]
pub fn push_char(s: &mut String, c: char)
    ensures
        final(s)@ == old(s)@.push(c),
{
    s.push(c)
}

/// The character for decimal digit `d`.
pub open spec fn digit_char(d: nat) -> char
    recommends
        d < 10,
{
    ((0x30 + d) as u8) as char
}

/// The decimal digits of `n`, most significant first, without leading zeros
/// (`0` is rendered as "0").
pub open spec fn dec_digits(n: nat) -> Seq<char>
    decreases n,
{
    if n < 10 {
        seq![digit_char(n)]
    } else {
        dec_digits(n / 10).push(digit_char(n % 10))
    }
}

/// Append the decimal rendering of `n` to `out`.
pub(crate) fn append_u64(out: &mut String, n: u64)
    ensures
        final(out)@ == old(out)@ + dec_digits(n as nat),
    decreases n,
{
    if n < 10 {
        push_char(out, (0x30u8 + (n as u8)) as char);
        proof {
            assert(old(out)@ + dec_digits(n as nat) =~= old(out)@.push(digit_char(n as nat)));
        }
    } else {
        append_u64(out, n / 10);
        push_char(out, (0x30u8 + ((n % 10) as u8)) as char);
        proof {
            assert(old(out)@ + dec_digits(n as nat) =~= (old(out)@ + dec_digits(
                (n / 10) as nat,
            )).push(digit_char((n % 10) as nat)));
        }
    }
}

/// Decimal digits are never a newline.
pub proof fn lemma_dec_digits_line_free(n: nat)
    ensures
        line_free(dec_digits(n)),
        dec_digits(n).len() >= 1,
    decreases n,
{
    if n < 10 {
    } else {
        lemma_dec_digits_line_free(n / 10);
        assert forall|i: int| 0 <= i < dec_digits(n).len() implies dec_digits(n)[i] != '\n' by {
            if i < dec_digits(n / 10).len() {
                assert(dec_digits(n)[i] == dec_digits(n / 10)[i]);
            }
        }
    }
}

/// A character's JSON rendering inside a quoted string: quotes and
/// backslashes take an escape, every other character stands as itself.
/// (Control characters would need a numeric escape; node identifier text
/// never holds one.)
pub open spec fn escape_char(c: char) -> Seq<char> {
    if c == '"' || c == '\\' {
        seq!['\\', c]
    } else {
        seq![c]
    }
}

/// The JSON rendering of `s` inside a quoted string.
pub open spec fn json_escaped(s: Seq<char>) -> Seq<char>
    decreases s.len(),
{
    if s.len() == 0 {
        Seq::empty()
    } else {
        escape_char(s[0]) + json_escaped(s.drop_first())
    }
}

/// The JSON string literal for `s`: quoted and escaped.
pub open spec fn json_string(s: Seq<char>) -> Seq<char> {
    seq!['"'] + json_escaped(s) + seq!['"']
}

/// Escaping distributes over concatenation.
pub proof fn lemma_json_escaped_concat(a: Seq<char>, b: Seq<char>)
    ensures
        json_escaped(a + b) == json_escaped(a) + json_escaped(b),
    decreases a.len(),
{
    if a.len() == 0 {
        assert(a + b =~= b);
        assert(json_escaped(a) + json_escaped(b) =~= json_escaped(b));
    } else {
        assert((a + b).drop_first() =~= a.drop_first() + b);
        lemma_json_escaped_concat(a.drop_first(), b);
        assert(json_escaped(a + b) =~= escape_char(a[0]) + (json_escaped(a.drop_first())
            + json_escaped(b)));
        assert(escape_char(a[0]) + json_escaped(a.drop_first()) + json_escaped(b) =~= escape_char(
            a[0],
        ) + (json_escaped(a.drop_first()) + json_escaped(b)));
    }
}

/// Escaped text of a newline-free string stays newline-free.
pub proof fn lemma_json_escaped_line_free(s: Seq<char>)
    requires
        line_free(s),
    ensures
        line_free(json_escaped(s)),
    decreases s.len(),
{
    if s.len() == 0 {
    } else {
        assert(line_free(s.drop_first())) by {
            assert forall|i: int| 0 <= i < s.drop_first().len() implies s.drop_first()[i] != '\n'
            by {
                assert(s.drop_first()[i] == s[i + 1]);
            }
        }
        lemma_json_escaped_line_free(s.drop_first());
        assert forall|i: int| 0 <= i < json_escaped(s).len() implies json_escaped(s)[i] != '\n' by {
            let e = escape_char(s[0]);
            if i >= e.len() {
                assert(json_escaped(s)[i] == json_escaped(s.drop_first())[i - e.len()]);
            }
        }
    }
}

/// Append the JSON string literal for `id`'s text to `out`.
fn append_json_node_id(out: &mut String, id: &NodeId)
    ensures
        final(out)@ == old(out)@ + json_string(id.text_of()),
{
    push_char(out, '"');
    let t = id.text();
    let ts: &str = t.as_str();
    let n = ts.unicode_len();
    let mut i: usize = 0;
    while i < n
        invariant
            n == ts@.len(),
            ts@ == id.text_of(),
            i <= n,
            out@ == old(out)@ + seq!['"'] + json_escaped(ts@.take(i as int)),
        decreases n - i,
    {
        let c = ts.get_char(i);
        if c == '"' || c == '\\' {
            push_char(out, '\\');
        }
        push_char(out, c);
        proof {
            assert(ts@.take(i + 1) =~= ts@.take(i as int) + seq![ts@[i as int]]);
            lemma_json_escaped_concat(ts@.take(i as int), seq![ts@[i as int]]);
            assert(json_escaped(Seq::<char>::empty()) =~= Seq::<char>::empty());
            assert(seq![ts@[i as int]].drop_first() =~= Seq::<char>::empty());
            assert(json_escaped(seq![ts@[i as int]]) =~= escape_char(ts@[i as int]));
            assert(out@ =~= old(out)@ + seq!['"'] + json_escaped(ts@.take(i + 1)));
        }
        i += 1;
    }
    push_char(out, '"');
    proof {
        assert(ts@.take(n as int) =~= ts@);
        assert(out@ =~= old(out)@ + json_string(id.text_of()));
    }
}

/// The JSON rendering of an optional message identifier: the number itself,
/// or `null`.
pub open spec fn opt_id_json(o: Option<MessageId>) -> Seq<char> {
    match o {
        Option::None => seq!['n', 'u', 'l', 'l'],
        Option::Some(id) => dec_digits(id@ as nat),
    }
}

/// Append the JSON rendering of an optional message identifier to `out`.
fn append_opt_id(out: &mut String, o: &Option<MessageId>)
    ensures
        final(out)@ == old(out)@ + opt_id_json(*o),
{
    match o {
        Option::None => {
            push_char(out, 'n');
            push_char(out, 'u');
            push_char(out, 'l');
            push_char(out, 'l');
            proof {
                assert(out@ =~= old(out)@ + opt_id_json(Option::None));
            }
        },
        Option::Some(id) => {
            append_u64(out, id.value());
        },
    }
}

/// The complete wire record for a message: the envelope
/// `{"src":…,"dest":…,"body":{…}}` whose body holds the correlation header
/// and then the payload's own fields.
pub open spec fn wire_record(header: MessageHeader, fragment: Seq<char>) -> Seq<char> {
    "{\"src\":"@ + json_string(header.src.text_of()) + ",\"dest\":"@ + json_string(
        header.dest.text_of(),
    ) + ",\"body\":{\"msg_id\":"@ + opt_id_json(header.msg_id) + ",\"in_reply_to\":"@ + opt_id_json(
        header.in_reply_to,
    ) + (if fragment.len() == 0 {
        Seq::<char>::empty()
    } else {
        ","@ + fragment
    }) + "}}"@
}

/// Concatenation keeps newline-freedom.
pub proof fn lemma_line_free_concat(a: Seq<char>, b: Seq<char>)
    requires
        line_free(a),
        line_free(b),
    ensures
        line_free(a + b),
{
    assert forall|i: int| 0 <= i < (a + b).len() implies (a + b)[i] != '\n' by {
        if i < a.len() {
            assert((a + b)[i] == a[i]);
        } else {
            assert((a + b)[i] == b[i - a.len()]);
        }
    }
}

/// A whole wire record is newline-free — so one record always stands as one
/// line of the stream — provided the two identifiers are well-formed and the
/// payload fragment is itself newline-free.
pub proof fn lemma_wire_record_line_free(header: MessageHeader, fragment: Seq<char>)
    requires
        header.src.wf(),
        header.dest.wf(),
        line_free(fragment),
    ensures
        line_free(wire_record(header, fragment)),
{
    reveal_strlit("{\"src\":");
    reveal_strlit(",\"dest\":");
    reveal_strlit(",\"body\":{\"msg_id\":");
    reveal_strlit(",\"in_reply_to\":");
    reveal_strlit(",");
    reveal_strlit("}}");
    assert(line_free("{\"src\":"@));
    assert(line_free(",\"dest\":"@));
    assert(line_free(",\"body\":{\"msg_id\":"@));
    assert(line_free(",\"in_reply_to\":"@));
    assert(line_free(","@));
    assert(line_free("}}"@));
    lemma_json_string_line_free(header.src);
    lemma_json_string_line_free(header.dest);
    lemma_opt_id_line_free(header.msg_id);
    lemma_opt_id_line_free(header.in_reply_to);
    let tail = if fragment.len() == 0 {
        Seq::<char>::empty()
    } else {
        ","@ + fragment
    };
    assert(line_free(tail)) by {
        if fragment.len() != 0 {
            lemma_line_free_concat(","@, fragment);
        }
    }
    let p1 = "{\"src\":"@ + json_string(header.src.text_of());
    lemma_line_free_concat("{\"src\":"@, json_string(header.src.text_of()));
    let p2 = p1 + ",\"dest\":"@;
    lemma_line_free_concat(p1, ",\"dest\":"@);
    let p3 = p2 + json_string(header.dest.text_of());
    lemma_line_free_concat(p2, json_string(header.dest.text_of()));
    let p4 = p3 + ",\"body\":{\"msg_id\":"@;
    lemma_line_free_concat(p3, ",\"body\":{\"msg_id\":"@);
    let p5 = p4 + opt_id_json(header.msg_id);
    lemma_line_free_concat(p4, opt_id_json(header.msg_id));
    let p6 = p5 + ",\"in_reply_to\":"@;
    lemma_line_free_concat(p5, ",\"in_reply_to\":"@);
    let p7 = p6 + opt_id_json(header.in_reply_to);
    lemma_line_free_concat(p6, opt_id_json(header.in_reply_to));
    let p8 = p7 + tail;
    lemma_line_free_concat(p7, tail);
    lemma_line_free_concat(p8, "}}"@);
    assert(wire_record(header, fragment) == p8 + "}}"@);
}

/// A well-formed identifier's quoted JSON string is newline-free.
proof fn lemma_json_string_line_free(id: NodeId)
    requires
        id.wf(),
    ensures
        line_free(json_string(id.text_of())),
{
    crate::node_id::lemma_wf_text_line_free(id);
    lemma_json_escaped_line_free(id.text_of());
    lemma_line_free_concat(seq!['"'], json_escaped(id.text_of()));
    lemma_line_free_concat(seq!['"'] + json_escaped(id.text_of()), seq!['"']);
}

/// The rendering of an optional identifier is newline-free.
proof fn lemma_opt_id_line_free(o: Option<MessageId>)
    ensures
        line_free(opt_id_json(o)),
{
    match o {
        Option::None => {},
        Option::Some(id) => {
            lemma_dec_digits_line_free(id@ as nat);
        },
    }
}

/// Serialize a message to its wire record, rendering the payload through
/// its own [`WirePayload`] implementation. When both identifiers are
/// well-formed the record is newline-free: it frames as exactly one line.
pub fn serialize_message<P: WirePayload>(message: &crate::message::Message<P>) -> (r: String)
    ensures
        r@ == wire_record(message.header, message.payload.fragment()),
        message.header.src.wf() && message.header.dest.wf() ==> line_free(r@),
        message.payload.fragment().len() > 0 ==> members_text(
            message.payload.fragment(),
            message.payload.fragment_members(),
        ),
{
    let fragment = message.payload.render_fragment();
    let r = encode_record(&message.header, fragment.as_str());
    proof {
        if message.header.src.wf() && message.header.dest.wf() {
            lemma_wire_record_line_free(message.header, message.payload.fragment());
        }
    }
    r
}

/// Encode `header` with the body fields `fragment` as one wire record.
pub fn encode_record(header: &MessageHeader, fragment: &str) -> (r: String)
    ensures
        r@ == wire_record(*header, fragment@),
        header.src.wf() && header.dest.wf() && line_free(fragment@) ==> line_free(r@),
{
    proof {
        if header.src.wf() && header.dest.wf() && line_free(fragment@) {
            lemma_wire_record_line_free(*header, fragment@);
        }
    }
    let mut out = String::new();
    out.append("{\"src\":");
    append_json_node_id(&mut out, &header.src);
    out.append(",\"dest\":");
    append_json_node_id(&mut out, &header.dest);
    out.append(",\"body\":{\"msg_id\":");
    append_opt_id(&mut out, &header.msg_id);
    out.append(",\"in_reply_to\":");
    append_opt_id(&mut out, &header.in_reply_to);
    if !fragment.is_empty() {
        out.append(",");
        out.append(fragment);
    }
    out.append("}}");
    proof {
        assert(out@ =~= wire_record(*header, fragment@));
    }
    out
}

} // verus!
