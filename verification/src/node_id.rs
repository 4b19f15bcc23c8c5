use vstd::prelude::*;

verus! {

use vstd::string::StringSliceAdditionalSpecFns;
use vstd::utf8::encode_utf8;
use vstd::utf8::is_ascii_chars;
use vstd::utf8::is_ascii_chars_encode_utf8;

use crate::wire::push_char;

/// Capacity of a node identifier, in bytes.
pub const NODE_ID_LENGTH: usize = 8;

/// A validated textual identifier used as both process identity and protocol
/// address: at most [`NODE_ID_LENGTH`] bytes, each an ASCII letter, digit or
/// punctuation character. Copyable by value; no heap ownership.
///
/// Internally the text sits in a fixed zero-padded byte array; the
/// identifier's text is `self@` (a byte sequence), or as characters
/// [`NodeId::text_of`]. Equality is by text.
#[derive(Clone, Copy, Hash, Debug, Eq)]
pub struct NodeId {
    bytes: [u8; NODE_ID_LENGTH],
}

/// Why a string was rejected as a node identifier.
#[derive(PartialEq, Eq, Structural, Clone, Copy, Debug)]
pub enum ParseNodeIdError {
    /// The encoded input is longer than [`NODE_ID_LENGTH`] bytes.
    TooLong,
    /// The input holds a byte that is not an ASCII letter, digit or
    /// punctuation character; the payload is the first such byte.
    InvalidByte(u8),
}

/// Bytes a node identifier may hold: ASCII letters, digits and punctuation.
pub open spec fn allowed_byte(b: u8) -> bool {
    ||| 0x41 <= b <= 0x5a  // 'A'..='Z'
    ||| 0x61 <= b <= 0x7a  // 'a'..='z'
    ||| 0x30 <= b <= 0x39  // '0'..='9'
    ||| 0x21 <= b <= 0x2f  // punctuation

    ||| 0x3a <= b <= 0x40
    ||| 0x5b <= b <= 0x60
    ||| 0x7b <= b <= 0x7e
}

/// A byte sequence that parses as a node identifier.
pub open spec fn valid_node_id_bytes(bytes: Seq<u8>) -> bool {
    &&& bytes.len() <= NODE_ID_LENGTH
    &&& forall|i: int| 0 <= i < bytes.len() ==> allowed_byte(#[trigger] bytes[i])
}

/// Characters a node identifier may hold (the ASCII range of [`allowed_byte`]).
pub open spec fn allowed_char(c: char) -> bool {
    c <= '\u{7f}' && allowed_byte(c as u8)
}

/// Text that parses as a node identifier.
pub open spec fn valid_node_id_text(s: Seq<char>) -> bool {
    &&& s.len() <= NODE_ID_LENGTH
    &&& forall|i: int| 0 <= i < s.len() ==> allowed_char(#[trigger] s[i])
}

/// Index `i` is the first disallowed byte of `bytes`.
pub open spec fn first_disallowed(bytes: Seq<u8>, i: int) -> bool {
    &&& 0 <= i < bytes.len()
    &&& !allowed_byte(bytes[i])
    &&& forall|j: int| 0 <= j < i ==> allowed_byte(#[trigger] bytes[j])
}

/// Length of the prefix of `bytes` before its first zero byte (the whole
/// sequence when no byte is zero).
pub open spec fn zero_trim_len(bytes: Seq<u8>) -> int
    decreases bytes.len(),
{
    if bytes.len() == 0 || bytes[0] == 0 {
        0
    } else {
        1 + zero_trim_len(bytes.drop_first())
    }
}

/// What [`zero_trim_len`] picks out: the first zero byte, or the end.
pub proof fn lemma_zero_trim_len(bytes: Seq<u8>)
    ensures
        0 <= zero_trim_len(bytes) <= bytes.len(),
        forall|i: int| 0 <= i < zero_trim_len(bytes) ==> #[trigger] bytes[i] != 0,
        zero_trim_len(bytes) < bytes.len() ==> bytes[zero_trim_len(bytes)] == 0,
    decreases bytes.len(),
{
    if bytes.len() == 0 || bytes[0] == 0 {
    } else {
        lemma_zero_trim_len(bytes.drop_first());
        assert forall|i: int| 0 <= i < zero_trim_len(bytes) implies #[trigger] bytes[i] != 0 by {
            if i > 0 {
                assert(bytes.drop_first()[i - 1] != 0);
            }
        }
    }
}

impl View for NodeId {
    type V = Seq<u8>;

    /// The identifier's text: the stored bytes up to the first zero.
    closed spec fn view(&self) -> Seq<u8> {
        self.bytes@.take(zero_trim_len(self.bytes@))
    }
}

impl NodeId {
    /// Internal shape: allowed bytes up to the first zero, zero padding after.
    pub closed spec fn wf(self) -> bool {
        &&& forall|i: int|
            0 <= i < zero_trim_len(self.bytes@) ==> allowed_byte(#[trigger] self.bytes@[i])
        &&& forall|i: int|
            zero_trim_len(self.bytes@) <= i < NODE_ID_LENGTH ==> self.bytes@[i] == 0
    }

    /// The identifier's text as characters.
    pub open spec fn text_of(self) -> Seq<char> {
        self@.map_values(|b: u8| b as char)
    }

    /// Parse `s` as a node identifier.
    ///
    /// Succeeds exactly on inputs whose UTF-8 encoding is at most
    /// [`NODE_ID_LENGTH`] bytes, all of them ASCII letters, digits or
    /// punctuation. Rejects longer inputs with [`ParseNodeIdError::TooLong`],
    /// and otherwise reports the first disallowed byte.
    pub fn from_str(s: &str) -> (r: Result<NodeId, ParseNodeIdError>)
        ensures
            r is Ok <==> valid_node_id_bytes(s.spec_bytes()),
            r matches Ok(id) ==> id.wf() && id@ == s.spec_bytes(),
            r matches Err(e) ==> ((e is TooLong) <==> s.spec_bytes().len() > NODE_ID_LENGTH),
            r matches Err(e) ==> (e matches ParseNodeIdError::InvalidByte(b) ==> exists|i: int|
                #[trigger] first_disallowed(s.spec_bytes(), i) && s.spec_bytes()[i] == b),
    {
        let bytes: &[u8] = s.as_bytes();
        if bytes.len() > NODE_ID_LENGTH {
            return Err(ParseNodeIdError::TooLong);
        }
        let mut arr: [u8; NODE_ID_LENGTH] = [0; NODE_ID_LENGTH];
        let mut idx: usize = 0;
        while idx < bytes.len()
            invariant
                bytes@ == s.spec_bytes(),
                idx <= bytes@.len() <= NODE_ID_LENGTH,
                forall|j: int| 0 <= j < idx ==> allowed_byte(#[trigger] bytes@[j]),
                forall|j: int| 0 <= j < idx ==> arr@[j] == bytes@[j],
                forall|j: int| idx <= j < NODE_ID_LENGTH ==> arr@[j] == 0,
            decreases bytes@.len() - idx,
        {
            let b = bytes[idx];
            if is_allowed_byte(b) {
                arr[idx] = b;
            } else {
                proof {
                    assert(first_disallowed(s.spec_bytes(), idx as int));
                }
                return Err(ParseNodeIdError::InvalidByte(b));
            }
            idx += 1;
        }
        let id = NodeId { bytes: arr };
        proof {
            lemma_zero_trim_len(arr@);
            let n = bytes@.len() as int;
            let z = zero_trim_len(arr@);
            if z < n {
                assert(arr@[z] == bytes@[z]);
                assert(allowed_byte(bytes@[z]));
                assert(arr@[z] == 0);
                assert(false);
            }
            if z > n {
                assert(arr@[n] == 0);
                assert(arr@[n] != 0);
                assert(false);
            }
            assert(id@ =~= bytes@);
        }
        Ok(id)
    }

    /// The identifier's text, as it appears on the wire.
    pub fn text(&self) -> (r: String)
        ensures
            r@ == self.text_of(),
    {
        proof {
            lemma_zero_trim_len(self.bytes@);
        }
        let mut r = String::new();
        let mut i: usize = 0;
        while i < NODE_ID_LENGTH
            invariant
                i <= NODE_ID_LENGTH,
                i <= zero_trim_len(self.bytes@),
                r@ == self.bytes@.take(i as int).map_values(|b: u8| b as char),
            decreases NODE_ID_LENGTH - i,
        {
            let b = self.bytes[i];
            if b == 0 {
                proof {
                    lemma_zero_trim_len(self.bytes@);
                    let z = zero_trim_len(self.bytes@);
                    if z > i {
                        assert(self.bytes@[i as int] != 0);
                    }
                    assert(z == i);
                }
                return r;
            }
            push_char(&mut r, b as char);
            proof {
                lemma_zero_trim_len(self.bytes@);
                assert(self.bytes@.take(i + 1).map_values(|b: u8| b as char)
                    =~= self.bytes@.take(i as int).map_values(|b: u8| b as char).push(
                    self.bytes@[i as int] as char,
                ));
                let z = zero_trim_len(self.bytes@);
                if z <= i {
                    // The invariant puts z at or past i, and the byte at i
                    // is not zero, so z cannot stop at i.
                    assert(self.bytes@[z] == 0);
                }
                assert(z > i);
            }
            i += 1;
        }
        proof {
            lemma_zero_trim_len(self.bytes@);
            assert(zero_trim_len(self.bytes@) == NODE_ID_LENGTH);
        }
        r
    }
}

/// Whether `b` may appear in a node identifier.
fn is_allowed_byte(b: u8) -> (r: bool)
    ensures
        r == allowed_byte(b),
{
    (0x41 <= b && b <= 0x5a) || (0x61 <= b && b <= 0x7a) || (0x30 <= b && b <= 0x39) || (0x21 <= b
        && b <= 0x2f) || (0x3a <= b && b <= 0x40) || (0x5b <= b && b <= 0x60) || (0x7b <= b && b
        <= 0x7e)
}

impl PartialEq for NodeId {
    /// Equality is by text: the stored bytes up to the first zero.
    fn eq(&self, other: &Self) -> (r: bool) {
        proof {
            lemma_zero_trim_len(self.bytes@);
            lemma_zero_trim_len(other.bytes@);
        }
        let mut i: usize = 0;
        while i < NODE_ID_LENGTH
            invariant
                i <= NODE_ID_LENGTH,
                forall|j: int| 0 <= j < i ==> self.bytes@[j] == other.bytes@[j],
                i <= zero_trim_len(self.bytes@),
                i <= zero_trim_len(other.bytes@),
            decreases NODE_ID_LENGTH - i,
        {
            let a = self.bytes[i];
            let b = other.bytes[i];
            if a != b {
                proof {
                    lemma_zero_trim_len(self.bytes@);
                    lemma_zero_trim_len(other.bytes@);
                    let n1 = zero_trim_len(self.bytes@);
                    let n2 = zero_trim_len(other.bytes@);
                    if self@ == other@ {
                        assert(self@.len() == other@.len());
                        if n1 > i && n2 > i {
                            assert(self@[i as int] == self.bytes@[i as int]);
                            assert(other@[i as int] == other.bytes@[i as int]);
                            assert(false);
                        } else if n1 == i {
                            // `other` ends at `i` too (views have equal length),
                            // so both bytes are zero, yet they differ.
                            assert(n2 == i);
                            assert(i < NODE_ID_LENGTH);
                            assert(self.bytes@[i as int] == 0);
                            assert(other.bytes@[i as int] == 0);
                            assert(false);
                        } else {
                            assert(n2 == i && n1 > i);
                            assert(n1 == i);
                            assert(false);
                        }
                    }
                }
                return false;
            }
            if a == 0 {
                proof {
                    lemma_zero_trim_len(self.bytes@);
                    lemma_zero_trim_len(other.bytes@);
                    let n1 = zero_trim_len(self.bytes@);
                    let n2 = zero_trim_len(other.bytes@);
                    if n1 > i {
                        assert(self.bytes@[i as int] != 0);
                    }
                    if n2 > i {
                        assert(other.bytes@[i as int] != 0);
                    }
                    assert(n1 == i && n2 == i);
                    assert(self@ =~= other@);
                }
                return true;
            }
            proof {
                lemma_zero_trim_len(self.bytes@);
                lemma_zero_trim_len(other.bytes@);
                if zero_trim_len(self.bytes@) == i {
                    assert(self.bytes@[i as int] == 0);
                }
                if zero_trim_len(other.bytes@) == i {
                    assert(other.bytes@[i as int] == 0);
                }
            }
            i += 1;
        }
        proof {
            lemma_zero_trim_len(self.bytes@);
            lemma_zero_trim_len(other.bytes@);
            assert(self@ =~= other@);
        }
        true
    }
}

impl vstd::std_specs::cmp::PartialEqSpecImpl for NodeId {
    open spec fn obeys_eq_spec() -> bool {
        true
    }

    open spec fn eq_spec(&self, other: &NodeId) -> bool {
        self@ == other@
    }
}

/// A well-formed identifier's text never holds a newline (or any other
/// control character): every allowed byte is printable.
pub proof fn lemma_wf_text_line_free(id: NodeId)
    requires
        id.wf(),
    ensures
        forall|i: int| 0 <= i < id.text_of().len() ==> (#[trigger] id.text_of()[i]) != '\n',
{
    assert forall|i: int| 0 <= i < id.text_of().len() implies (#[trigger] id.text_of()[i])
        != '\n' by {
        lemma_zero_trim_len(id.bytes@);
        let b = id@[i];
        assert(b == id.bytes@[i]);
        assert(allowed_byte(b));
        lemma_byte_char_cast(b);
    }
}

/// A well-formed identifier's text is valid identifier text, made of
/// printable characters (codepoints at least 0x21).
pub proof fn lemma_wf_text_valid(id: NodeId)
    requires
        id.wf(),
    ensures
        valid_node_id_text(id.text_of()),
        forall|k: int| 0 <= k < id.text_of().len() ==> (#[trigger] id.text_of()[k]) as u32 >= 0x21,
{
    lemma_zero_trim_len(id.bytes@);
    assert forall|k: int| 0 <= k < id.text_of().len() implies allowed_char(
        #[trigger] id.text_of()[k],
    ) && (id.text_of()[k] as u32) >= 0x21 by {
        let b = id@[k];
        assert(b == id.bytes@[k]);
        assert(allowed_byte(b));
        lemma_byte_char_cast(b);
        let c = b as char;
        assert(c as u32 == b) by {
            lemma_byte_char_u32(b);
        }
        lemma_char_byte_facts(c);
    }
}

/// Casting a byte to a character preserves its value.
proof fn lemma_byte_char_u32(b: u8)
    ensures
        (b as char) as u32 == b,
{
}

/// Casting a byte to a character and back is the identity.
proof fn lemma_byte_char_cast(b: u8)
    ensures
        (b as char) as u8 == b,
        ((b as char) == '\n') == (b == 0x0a),
{
}

/// Parsing the encoding of valid identifier text succeeds, and formatting the
/// parsed identifier returns the original text: parse then format is the
/// identity on valid inputs.
pub proof fn lemma_parse_format_identity(s: Seq<char>, id: NodeId)
    requires
        valid_node_id_text(s),
        id@ == encode_utf8(s),
    ensures
        valid_node_id_bytes(encode_utf8(s)),
        id.text_of() == s,
{
    lemma_valid_text_valid_bytes(s);
    is_ascii_chars_encode_utf8(s);
    assert forall|i: int| 0 <= i < s.len() implies id.text_of()[i] == s[i] by {
        assert(id@[i] == s[i] as u8);
        assert(allowed_char(s[i]));
        lemma_char_byte_facts(s[i]);
    }
    assert(id.text_of() =~= s);
}

/// Character-level validity implies byte-level validity: valid text
/// encodes, one byte per character, to bytes that parsing accepts.
pub proof fn lemma_valid_text_valid_bytes(s: Seq<char>)
    requires
        valid_node_id_text(s),
    ensures
        is_ascii_chars(s),
        valid_node_id_bytes(encode_utf8(s)),
{
    assert(is_ascii_chars(s)) by {
        assert forall|i: int| 0 <= i < s.len() implies '\0' <= #[trigger] s[i] <= '\u{7f}' by {
            assert(allowed_char(s[i]));
            lemma_char_byte_facts(s[i]);
        }
    }
    is_ascii_chars_encode_utf8(s);
    assert forall|i: int| 0 <= i < encode_utf8(s).len() implies allowed_byte(
        #[trigger] encode_utf8(s)[i],
    ) by {
        assert(encode_utf8(s)[i] == s[i] as u8);
        assert(allowed_char(s[i]));
        lemma_char_byte_facts(s[i]);
    }
}

/// Facts relating a character to its codepoint and, in the ASCII range, to
/// its single encoded byte.
proof fn lemma_char_byte_facts(c: char)
    ensures
        '\0' <= c,
        (c <= '\u{7f}') <==> (c as u32 <= 0x7f),
        c <= '\u{7f}' ==> (c as u8) as char == c,
        c <= '\u{7f}' ==> (c as u8) == (c as u32) as u8,
        c <= '\u{7f}' ==> allowed_byte(c as u8) == allowed_char(c),
{
}

/// Text that is not a valid identifier encodes to bytes that parsing rejects.
pub proof fn lemma_invalid_text_rejected(s: Seq<char>)
    requires
        !valid_node_id_text(s),
    ensures
        !valid_node_id_bytes(encode_utf8(s)),
{
    if valid_node_id_bytes(encode_utf8(s)) {
        lemma_valid_bytes_valid_text(s);
    }
}

/// Byte-level validity implies character-level validity.
pub proof fn lemma_valid_bytes_valid_text(s: Seq<char>)
    requires
        valid_node_id_bytes(encode_utf8(s)),
    ensures
        valid_node_id_text(s),
    decreases s.len(),
{
    if s.len() == 0 {
    } else {
        let c = s[0];
        let rest = s.drop_first();
        let v = c as u32;
        lemma_char_byte_facts(c);
        assert(encode_utf8(s) == vstd::utf8::encode_scalar(v) + encode_utf8(rest));
        if c > '\u{7f}' {
            // A non-ASCII character's leading byte is at least 0xc0,
            // which is not an allowed byte.
            assert(v > 0x7f);
            let first = vstd::utf8::encode_scalar(v)[0];
            assert(vstd::utf8::encode_scalar(v).len() >= 1);
            assert(encode_utf8(s)[0] == first);
            assert(first >= 0xc0) by {
                if vstd::utf8::has_width_2_encoding(v) {
                    assert(0xc0u8 | (((v >> 6) & 0x1f) as u8) >= 0xc0) by (bit_vector);
                } else if vstd::utf8::has_width_3_encoding(v) {
                    assert(0xe0u8 | (((v >> 12) & 0xf) as u8) >= 0xc0) by (bit_vector);
                } else {
                    assert(0xf0u8 | (((v >> 18) & 0x7) as u8) >= 0xc0) by (bit_vector);
                }
            }
            assert(!allowed_byte(first));
            assert(allowed_byte(encode_utf8(s)[0]));
            assert(false);
        } else {
            assert(v <= 0x7f);
            assert((v & 0x7f) == v) by (bit_vector)
                requires
                    v <= 0x7fu32,
            ;
            assert(vstd::utf8::encode_scalar(v) =~= seq![c as u8]);
            assert(encode_utf8(s) =~= seq![c as u8] + encode_utf8(rest));
            assert(valid_node_id_bytes(encode_utf8(rest))) by {
                assert forall|i: int| 0 <= i < encode_utf8(rest).len() implies allowed_byte(
                    #[trigger] encode_utf8(rest)[i],
                ) by {
                    assert(encode_utf8(rest)[i] == encode_utf8(s)[i + 1]);
                }
            }
            lemma_valid_bytes_valid_text(rest);
            // The characters are all ASCII, so the encoding is one byte per
            // character and the length bound carries over.
            assert(is_ascii_chars(rest)) by {
                assert forall|i: int| 0 <= i < rest.len() implies '\0' <= #[trigger] rest[i]
                    <= '\u{7f}' by {
                    assert(allowed_char(rest[i]));
                    lemma_char_byte_facts(rest[i]);
                }
            }
            is_ascii_chars_encode_utf8(rest);
            assert(s.len() == encode_utf8(s).len());
            assert(encode_utf8(s)[0] == (seq![c as u8] + encode_utf8(rest))[0]);
            assert(encode_utf8(s)[0] == c as u8);
            assert(allowed_byte(encode_utf8(s)[0]));
            assert(allowed_byte(c as u8));
            assert(allowed_char(c));
            assert forall|i: int| 0 <= i < s.len() implies allowed_char(#[trigger] s[i]) by {
                if i > 0 {
                    assert(s[i] == rest[i - 1]);
                }
            }
        }
    }
}

} // verus!
