use vstd::prelude::*;

verus! {

use vstd::string::StrSliceExecFns;

use crate::wire::push_char;

/// A JSON value as the wire protocol uses it: records hold objects, arrays,
/// strings, unsigned integers, booleans and `null`. The protocol never
/// carries negative or fractional numbers, so a parser meeting one rejects
/// the record.
#[derive(PartialEq, Eq, Debug)]
pub enum JsonValue {
    Null,
    Bool(bool),
    UInt(u64),
    Str(String),
    Array(Vec<JsonValue>),
    Object(Vec<(String, JsonValue)>),
}

/// The mathematical shape of a [`JsonValue`]: text as character sequences,
/// collections as sequences.
pub enum SpecJson {
    Null,
    Bool(bool),
    UInt(u64),
    Str(Seq<char>),
    Array(Seq<SpecJson>),
    Object(Seq<(Seq<char>, SpecJson)>),
}

/// The shapes of a sequence of values.
pub open spec fn views_of_items(items: Seq<JsonValue>) -> Seq<SpecJson>
    decreases items,
    via views_of_items_decreases
{
    Seq::new(
        items.len(),
        |i: int|
            if 0 <= i < items.len() {
                items[i].view()
            } else {
                SpecJson::Null
            },
    )
}

#[via_fn]
proof fn views_of_items_decreases(items: Seq<JsonValue>) {
    broadcast use vstd::seq::axiom_seq_index_decreases;

    assert forall|i: int| 0 <= i < items.len() implies decreases_to!(items => items[i]) by {}
}

/// The shapes of a sequence of object members.
pub open spec fn views_of_members(members: Seq<(String, JsonValue)>) -> Seq<(Seq<char>, SpecJson)>
    decreases members,
    via views_of_members_decreases
{
    Seq::new(
        members.len(),
        |i: int|
            if 0 <= i < members.len() {
                (members[i].0@, members[i].1.view())
            } else {
                (Seq::empty(), SpecJson::Null)
            },
    )
}

#[via_fn]
proof fn views_of_members_decreases(members: Seq<(String, JsonValue)>) {
    broadcast use vstd::seq::axiom_seq_index_decreases;

    assert forall|i: int| 0 <= i < members.len() implies decreases_to!(
        members => members[i].1
    ) by {
        assert(decreases_to!(members => members[i]));
        assert(decreases_to!(members[i] => members[i].1));
    }
}

impl JsonValue {
    /// The value's mathematical shape.
    pub open spec fn view(self) -> SpecJson
        decreases self,
        via Self::view_decreases
    {
        match self {
            JsonValue::Null => SpecJson::Null,
            JsonValue::Bool(b) => SpecJson::Bool(b),
            JsonValue::UInt(n) => SpecJson::UInt(n),
            JsonValue::Str(s) => SpecJson::Str(s@),
            JsonValue::Array(items) => SpecJson::Array(views_of_items(items@)),
            JsonValue::Object(members) => SpecJson::Object(views_of_members(members@)),
        }
    }

    #[via_fn]
    proof fn view_decreases(self) {
        match self {
            JsonValue::Array(items) => {
                assert(decreases_to!(self => items));
                assert(decreases_to!(items => items@));
            },
            JsonValue::Object(members) => {
                assert(decreases_to!(self => members));
                assert(decreases_to!(members => members@));
            },
            _ => {},
        }
    }
}

/// The value under the first member named `key`, or nothing.
pub open spec fn spec_object_get(members: Seq<(Seq<char>, SpecJson)>, key: Seq<char>) -> Option<
    SpecJson,
>
    decreases members.len(),
{
    if members.len() == 0 {
        None
    } else if members[0].0 == key {
        Some(members[0].1)
    } else {
        spec_object_get(members.drop_first(), key)
    }
}

/// What [`spec_object_get`] picks out: the first member under the name.
proof fn lemma_spec_object_get(members: Seq<(Seq<char>, SpecJson)>, key: Seq<char>, k: int)
    requires
        0 <= k <= members.len(),
        forall|j: int| 0 <= j < k ==> (#[trigger] members[j]).0 != key,
        k < members.len() ==> members[k].0 == key,
    ensures
        spec_object_get(members, key) == (if k < members.len() {
            Some(members[k].1)
        } else {
            Option::<SpecJson>::None
        }),
    decreases members.len(),
{
    if members.len() == 0 {
    } else if members[0].0 == key {
        assert(k == 0);
    } else {
        assert(k >= 1);
        assert forall|j: int| 0 <= j < k - 1 implies (#[trigger] members.drop_first()[j]).0
            != key by {
            assert(members.drop_first()[j] == members[j + 1]);
        }
        if k - 1 < members.drop_first().len() {
            assert(members.drop_first()[k - 1] == members[k]);
        }
        lemma_spec_object_get(members.drop_first(), key, k - 1);
    }
}

/// Character-for-character string equality.
pub(crate) fn str_eq(a: &str, b: &str) -> (r: bool)
    ensures
        r == (a@ == b@),
{
    let na = a.unicode_len();
    let nb = b.unicode_len();
    if na != nb {
        proof {
            assert(a@ != b@);
        }
        return false;
    }
    let mut i: usize = 0;
    while i < na
        invariant
            na == a@.len() && na == b@.len(),
            i <= na,
            forall|j: int| 0 <= j < i ==> a@[j] == b@[j],
        decreases na - i,
    {
        if a.get_char(i) != b.get_char(i) {
            return false;
        }
        i += 1;
    }
    proof {
        assert(a@ =~= b@);
    }
    true
}

/// The first member named `key`, as its index, or nothing.
pub(crate) fn object_get_index(members: &Vec<(String, JsonValue)>, key: &str) -> (r: Option<usize>)
    ensures
        match r {
            Option::Some(k) => k < members@.len() && views_of_members(members@)[k as int].0 == key@
                && spec_object_get(views_of_members(members@), key@) == Some(
                views_of_members(members@)[k as int].1,
            ),
            Option::None => spec_object_get(views_of_members(members@), key@) is None,
        },
{
    let n = members.len();
    let ghost ms = views_of_members(members@);
    let mut i: usize = 0;
    while i < n
        invariant
            n == members@.len(),
            ms == views_of_members(members@),
            i <= n,
            forall|j: int| 0 <= j < i ==> (#[trigger] ms[j]).0 != key@,
        decreases n - i,
    {
        if str_eq(members[i].0.as_str(), key) {
            proof {
                lemma_spec_object_get(ms, key@, i as int);
            }
            return Some(i);
        }
        i += 1;
    }
    proof {
        lemma_spec_object_get(ms, key@, n as int);
    }
    None
}

impl JsonValue {
    /// The value under `key`, when this value is an object that has one.
    pub fn get<'a>(&'a self, key: &str) -> (r: Option<&'a JsonValue>)
        ensures
            match r {
                Option::Some(v) => (self@ matches SpecJson::Object(ms) && spec_object_get(ms, key@)
                    == Some(v@)),
                Option::None => (self@ matches SpecJson::Object(ms) ==> spec_object_get(
                    ms,
                    key@,
                ) is None),
            },
    {
        match self {
            JsonValue::Object(members) => match object_get_index(members, key) {
                Some(k) => {
                    proof {
                        assert(views_of_members(members@)[k as int].1 == members@[k as
                            int].1.view());
                    }
                    Some(&members[k].1)
                },
                None => None,
            },
            _ => None,
        }
    }

    /// The text of a string value.
    pub fn as_str<'a>(&'a self) -> (r: Option<&'a String>)
        ensures
            match r {
                Option::Some(text) => self@ == SpecJson::Str(text@),
                Option::None => !(self@ matches SpecJson::Str(_)),
            },
    {
        match self {
            JsonValue::Str(text) => Some(text),
            _ => None,
        }
    }

    /// The number held by an unsigned integer value.
    pub fn as_u64(&self) -> (r: Option<u64>)
        ensures
            match r {
                Option::Some(n) => self@ == SpecJson::UInt(n),
                Option::None => !(self@ matches SpecJson::UInt(_)),
            },
    {
        match self {
            JsonValue::UInt(n) => Some(*n),
            _ => None,
        }
    }
}

/// JSON whitespace.
pub open spec fn is_ws(c: char) -> bool {
    c == ' ' || c == '\t' || c == '\n' || c == '\r'
}

/// A decimal digit.
pub open spec fn is_digit(c: char) -> bool {
    0x30 <= c as u32 <= 0x39
}

/// A digit's numeric value.
pub open spec fn digit_val(c: char) -> int {
    c as u32 - 0x30
}

/// The first index at or after `i` holding no whitespace.
pub open spec fn skip_ws(s: Seq<char>, i: int) -> int
    decreases s.len() - i,
{
    if i < s.len() && is_ws(s[i]) {
        skip_ws(s, i + 1)
    } else {
        i
    }
}

/// Parse the remainder of a quoted string starting inside the quotes at
/// `i`, with `acc` the characters read so far. Recognizes the escapes
/// `\"`, `\\`, `\/`, `\n`, `\t` and `\r`; any other escape, an unterminated
/// string, or a raw control character rejects the record.
pub open spec fn parse_str_chars(s: Seq<char>, i: int, acc: Seq<char>) -> Option<(Seq<char>, int)>
    decreases s.len() - i,
{
    if i >= s.len() {
        None
    } else if s[i] == '"' {
        Some((acc, i + 1))
    } else if s[i] == '\\' {
        if i + 1 < s.len() {
            let e = s[i + 1];
            if e == '"' || e == '\\' || e == '/' {
                parse_str_chars(s, i + 2, acc.push(e))
            } else if e == 'n' {
                parse_str_chars(s, i + 2, acc.push('\n'))
            } else if e == 't' {
                parse_str_chars(s, i + 2, acc.push('\t'))
            } else if e == 'r' {
                parse_str_chars(s, i + 2, acc.push('\r'))
            } else {
                None
            }
        } else {
            None
        }
    } else if (s[i] as u32) < 0x20 {
        None
    } else {
        parse_str_chars(s, i + 1, acc.push(s[i]))
    }
}

/// Parse a run of digits starting at `i` into `acc`; a value beyond the
/// `u64` range rejects the record.
pub open spec fn parse_digits(s: Seq<char>, i: int, acc: u64) -> Option<(u64, int)>
    decreases s.len() - i,
{
    if i < s.len() && is_digit(s[i]) {
        let d = digit_val(s[i]);
        if acc > (u64::MAX - d) / 10 {
            None
        } else {
            parse_digits(s, i + 1, (acc * 10 + d) as u64)
        }
    } else {
        Some((acc, i))
    }
}

/// Parse one value starting at `i` (leading whitespace allowed), spending
/// one unit of `fuel` per step of nesting or list growth. `fuel` is chosen
/// by [`parse_json_text`] so that it never runs out on a record the
/// grammar accepts.
pub open spec fn parse_value(s: Seq<char>, i: int, fuel: nat) -> Option<(SpecJson, int)>
    decreases fuel,
{
    if fuel == 0 {
        None
    } else {
        let j = skip_ws(s, i);
        if j >= s.len() {
            None
        } else if s[j] == 'n' {
            if j + 4 <= s.len() && s[j + 1] == 'u' && s[j + 2] == 'l' && s[j + 3] == 'l' {
                Some((SpecJson::Null, j + 4))
            } else {
                None
            }
        } else if s[j] == 't' {
            if j + 4 <= s.len() && s[j + 1] == 'r' && s[j + 2] == 'u' && s[j + 3] == 'e' {
                Some((SpecJson::Bool(true), j + 4))
            } else {
                None
            }
        } else if s[j] == 'f' {
            if j + 5 <= s.len() && s[j + 1] == 'a' && s[j + 2] == 'l' && s[j + 3] == 's' && s[j + 4]
                == 'e' {
                Some((SpecJson::Bool(false), j + 5))
            } else {
                None
            }
        } else if s[j] == '"' {
            match parse_str_chars(s, j + 1, Seq::empty()) {
                None => None,
                Some((text, k)) => Some((SpecJson::Str(text), k)),
            }
        } else if s[j] == '0' {
            // Strict JSON: no leading zeros, so a leading 0 stands alone.
            Some((SpecJson::UInt(0), j + 1))
        } else if is_digit(s[j]) {
            match parse_digits(s, j, 0) {
                None => None,
                Some((n, k)) => Some((SpecJson::UInt(n), k)),
            }
        } else if s[j] == '[' {
            let k = skip_ws(s, j + 1);
            if k < s.len() && s[k] == ']' {
                Some((SpecJson::Array(Seq::empty()), k + 1))
            } else {
                match parse_items(s, j + 1, (fuel - 1) as nat, Seq::empty()) {
                    None => None,
                    Some((items, m)) => Some((SpecJson::Array(items), m)),
                }
            }
        } else if s[j] == '{' {
            let k = skip_ws(s, j + 1);
            if k < s.len() && s[k] == '}' {
                Some((SpecJson::Object(Seq::empty()), k + 1))
            } else {
                match parse_members(s, j + 1, (fuel - 1) as nat, Seq::empty()) {
                    None => None,
                    Some((members, m)) => Some((SpecJson::Object(members), m)),
                }
            }
        } else {
            None
        }
    }
}

/// Parse the elements of a non-empty array from `i` (after the `[` or a
/// `,`), with `acc` the elements read so far.
pub open spec fn parse_items(s: Seq<char>, i: int, fuel: nat, acc: Seq<SpecJson>) -> Option<
    (Seq<SpecJson>, int),
>
    decreases fuel,
{
    if fuel == 0 {
        None
    } else {
        match parse_value(s, i, (fuel - 1) as nat) {
            None => None,
            Some((v, j)) => {
                let k = skip_ws(s, j);
                if k < s.len() && s[k] == ',' {
                    parse_items(s, k + 1, (fuel - 1) as nat, acc.push(v))
                } else if k < s.len() && s[k] == ']' {
                    Some((acc.push(v), k + 1))
                } else {
                    None
                }
            },
        }
    }
}

/// Parse the members of a non-empty object from `i` (after the `{` or a
/// `,`), with `acc` the members read so far.
pub open spec fn parse_members(
    s: Seq<char>,
    i: int,
    fuel: nat,
    acc: Seq<(Seq<char>, SpecJson)>,
) -> Option<(Seq<(Seq<char>, SpecJson)>, int)>
    decreases fuel,
{
    if fuel == 0 {
        None
    } else {
        let k0 = skip_ws(s, i);
        if k0 < s.len() && s[k0] == '"' {
            match parse_str_chars(s, k0 + 1, Seq::empty()) {
                None => None,
                Some((key, j)) => {
                    let c = skip_ws(s, j);
                    if c < s.len() && s[c] == ':' {
                        match parse_value(s, c + 1, (fuel - 1) as nat) {
                            None => None,
                            Some((v, m)) => {
                                let k = skip_ws(s, m);
                                if k < s.len() && s[k] == ',' {
                                    parse_members(s, k + 1, (fuel - 1) as nat, acc.push((key, v)))
                                } else if k < s.len() && s[k] == '}' {
                                    Some((acc.push((key, v)), k + 1))
                                } else {
                                    None
                                }
                            },
                        }
                    } else {
                        None
                    }
                },
            }
        } else {
            None
        }
    }
}

/// The record length ceiling: longer texts are rejected outright, which
/// keeps the parsing budget representable on every machine.
pub const MAX_RECORD_CHARS: usize = 0x4000_0000;

/// Parse a complete JSON text: one value with nothing but whitespace
/// around it.
pub open spec fn parse_json_text(s: Seq<char>) -> Option<SpecJson> {
    if s.len() >= MAX_RECORD_CHARS {
        None
    } else {
        match parse_value(s, 0, (2 * s.len() + 2) as nat) {
            None => None,
            Some((v, j)) => if skip_ws(s, j) == s.len() {
                Some(v)
            } else {
                None
            },
        }
    }
}

/// Whether `c` is JSON whitespace.
fn is_ws_exec(c: char) -> (r: bool)
    ensures
        r == is_ws(c),
{
    c == ' ' || c == '\t' || c == '\n' || c == '\r'
}

/// The first index at or after `i` holding no whitespace.
fn skip_ws_exec(s: &str, i: usize, n: usize) -> (r: usize)
    requires
        n == s@.len(),
        i <= n,
    ensures
        r == skip_ws(s@, i as int),
        i <= r <= n,
    decreases n - i,
{
    if i < n && is_ws_exec(s.get_char(i)) {
        skip_ws_exec(s, i + 1, n)
    } else {
        i
    }
}

/// Parse the remainder of a quoted string (see [`parse_str_chars`]).
fn parse_str_chars_exec(s: &str, i: usize, n: usize, acc: String) -> (r: Option<(String, usize)>)
    requires
        n == s@.len(),
        i <= n,
    ensures
        match r {
            Option::None => parse_str_chars(s@, i as int, acc@) is None,
            Option::Some((text, j)) => parse_str_chars(s@, i as int, acc@) == Some((text@, j as int))
                && i < j <= n,
        },
    decreases n - i,
{
    if i >= n {
        None
    } else {
        let c = s.get_char(i);
        if c == '"' {
            Some((acc, i + 1))
        } else if c == '\\' {
            if i + 1 < n {
                let e = s.get_char(i + 1);
                let unescaped: char = if e == '"' || e == '\\' || e == '/' {
                    e
                } else if e == 'n' {
                    '\n'
                } else if e == 't' {
                    '\t'
                } else if e == 'r' {
                    '\r'
                } else {
                    return None;
                };
                let mut acc = acc;
                push_char(&mut acc, unescaped);
                parse_str_chars_exec(s, i + 2, n, acc)
            } else {
                None
            }
        } else if (c as u32) < 0x20 {
            None
        } else {
            let mut acc = acc;
            push_char(&mut acc, c);
            parse_str_chars_exec(s, i + 1, n, acc)
        }
    }
}

/// `acc` stays within range while another digit fits.
proof fn lemma_digit_step(acc: u64, d: int)
    requires
        0 <= d <= 9,
        acc <= (u64::MAX - d) / 10,
    ensures
        acc * 10 + d <= u64::MAX,
{
    assert(acc * 10 + d <= u64::MAX) by (nonlinear_arith)
        requires
            0 <= d <= 9,
            acc <= (u64::MAX - d) / 10,
    ;
}

/// Parse a run of digits (see [`parse_digits`]).
fn parse_digits_exec(s: &str, i: usize, n: usize, acc: u64) -> (r: Option<(u64, usize)>)
    requires
        n == s@.len(),
        i <= n,
    ensures
        match r {
            Option::None => parse_digits(s@, i as int, acc) is None,
            Option::Some((v, j)) => parse_digits(s@, i as int, acc) == Some((v, j as int)) && i <= j
                <= n,
        },
    decreases n - i,
{
    if i < n {
        let c = s.get_char(i);
        let u = c as u32;
        if 0x30 <= u && u <= 0x39 {
            let d = (u - 0x30) as u64;
            if acc > (u64::MAX - d) / 10 {
                return None;
            }
            proof {
                lemma_digit_step(acc, d as int);
            }
            return parse_digits_exec(s, i + 1, n, acc * 10 + d);
        }
        Some((acc, i))
    } else {
        Some((acc, i))
    }
}

/// Require the four characters of a keyword such as `null` at `j`.
fn expect_chars(s: &str, j: usize, n: usize, a: char, b: char, c: char) -> (r: bool)
    requires
        n == s@.len(),
        j + 4 <= n,
    ensures
        r == (s@[j + 1] == a && s@[j + 2] == b && s@[j + 3] == c),
{
    s.get_char(j + 1) == a && s.get_char(j + 2) == b && s.get_char(j + 3) == c
}

/// Parse one value (see [`parse_value`]).
fn parse_value_exec(s: &str, i: usize, n: usize, fuel: usize) -> (r: Option<(JsonValue, usize)>)
    requires
        n == s@.len(),
        i <= n,
    ensures
        match r {
            Option::None => parse_value(s@, i as int, fuel as nat) is None,
            Option::Some((v, j)) => parse_value(s@, i as int, fuel as nat) == Some(
                (v@, j as int),
            ) && j <= n,
        },
    decreases fuel,
{
    if fuel == 0 {
        return None;
    }
    let j = skip_ws_exec(s, i, n);
    if j >= n {
        return None;
    }
    let c = s.get_char(j);
    if c == 'n' {
        if n - j >= 4 && expect_chars(s, j, n, 'u', 'l', 'l') {
            Some((JsonValue::Null, j + 4))
        } else {
            None
        }
    } else if c == 't' {
        if n - j >= 4 && expect_chars(s, j, n, 'r', 'u', 'e') {
            Some((JsonValue::Bool(true), j + 4))
        } else {
            None
        }
    } else if c == 'f' {
        if n - j >= 5 && expect_chars(s, j, n, 'a', 'l', 's') && s.get_char(j + 4) == 'e' {
            Some((JsonValue::Bool(false), j + 5))
        } else {
            None
        }
    } else if c == '"' {
        match parse_str_chars_exec(s, j + 1, n, String::new()) {
            None => None,
            Some((text, k)) => Some((JsonValue::Str(text), k)),
        }
    } else if c == '0' {
        Some((JsonValue::UInt(0), j + 1))
    } else if 0x30 <= (c as u32) && (c as u32) <= 0x39 {
        match parse_digits_exec(s, j, n, 0) {
            None => None,
            Some((v, k)) => Some((JsonValue::UInt(v), k)),
        }
    } else if c == '[' {
        let k = skip_ws_exec(s, j + 1, n);
        if k < n && s.get_char(k) == ']' {
            let r = (JsonValue::Array(Vec::new()), k + 1);
            proof {
                assert(views_of_items(Seq::<JsonValue>::empty()) =~= Seq::<SpecJson>::empty());
            }
            Some(r)
        } else {
            proof {
                assert(views_of_items(Seq::<JsonValue>::empty()) =~= Seq::<SpecJson>::empty());
            }
            match parse_items_exec(s, j + 1, n, fuel - 1, Vec::new()) {
                None => None,
                Some((items, m)) => Some((JsonValue::Array(items), m)),
            }
        }
    } else if c == '{' {
        let k = skip_ws_exec(s, j + 1, n);
        if k < n && s.get_char(k) == '}' {
            let r = (JsonValue::Object(Vec::new()), k + 1);
            proof {
                assert(views_of_members(Seq::<(String, JsonValue)>::empty()) =~= Seq::<
                    (Seq<char>, SpecJson),
                >::empty());
            }
            Some(r)
        } else {
            proof {
                assert(views_of_members(Seq::<(String, JsonValue)>::empty()) =~= Seq::<
                    (Seq<char>, SpecJson),
                >::empty());
            }
            match parse_members_exec(s, j + 1, n, fuel - 1, Vec::new()) {
                None => None,
                Some((members, m)) => Some((JsonValue::Object(members), m)),
            }
        }
    } else {
        None
    }
}

/// Parse the elements of a non-empty array (see [`parse_items`]).
fn parse_items_exec(s: &str, i: usize, n: usize, fuel: usize, acc: Vec<JsonValue>) -> (r: Option<
    (Vec<JsonValue>, usize),
>)
    requires
        n == s@.len(),
        i <= n,
    ensures
        match r {
            Option::None => parse_items(s@, i as int, fuel as nat, views_of_items(acc@)) is None,
            Option::Some((items, j)) => parse_items(s@, i as int, fuel as nat, views_of_items(acc@))
                == Some((views_of_items(items@), j as int)) && j <= n,
        },
    decreases fuel,
{
    if fuel == 0 {
        return None;
    }
    match parse_value_exec(s, i, n, fuel - 1) {
        None => None,
        Some((v, j)) => {
            let k = skip_ws_exec(s, j, n);
            let ghost old_views = views_of_items(acc@);
            let ghost v_view = v@;
            if k < n && s.get_char(k) == ',' {
                let mut acc = acc;
                acc.push(v);
                proof {
                    assert(views_of_items(acc@) =~= old_views.push(v_view));
                }
                parse_items_exec(s, k + 1, n, fuel - 1, acc)
            } else if k < n && s.get_char(k) == ']' {
                let mut acc = acc;
                acc.push(v);
                proof {
                    assert(views_of_items(acc@) =~= old_views.push(v_view));
                }
                Some((acc, k + 1))
            } else {
                None
            }
        },
    }
}

/// Parse the members of a non-empty object (see [`parse_members`]).
fn parse_members_exec(s: &str, i: usize, n: usize, fuel: usize, acc: Vec<(String, JsonValue)>) -> (r:
    Option<(Vec<(String, JsonValue)>, usize)>)
    requires
        n == s@.len(),
        i <= n,
    ensures
        match r {
            Option::None => parse_members(
                s@,
                i as int,
                fuel as nat,
                views_of_members(acc@),
            ) is None,
            Option::Some((members, j)) => parse_members(
                s@,
                i as int,
                fuel as nat,
                views_of_members(acc@),
            ) == Some((views_of_members(members@), j as int)) && j <= n,
        },
    decreases fuel,
{
    if fuel == 0 {
        return None;
    }
    let k0 = skip_ws_exec(s, i, n);
    if k0 < n && s.get_char(k0) == '"' {
        match parse_str_chars_exec(s, k0 + 1, n, String::new()) {
            None => None,
            Some((key, j)) => {
                let c = skip_ws_exec(s, j, n);
                if c < n && s.get_char(c) == ':' {
                    match parse_value_exec(s, c + 1, n, fuel - 1) {
                        None => None,
                        Some((v, m)) => {
                            let k = skip_ws_exec(s, m, n);
                            let ghost old_views = views_of_members(acc@);
                            let ghost key_view = key@;
                            let ghost v_view = v@;
                            if k < n && s.get_char(k) == ',' {
                                let mut acc = acc;
                                acc.push((key, v));
                                proof {
                                    assert(views_of_members(acc@) =~= old_views.push(
                                        (key_view, v_view),
                                    ));
                                }
                                parse_members_exec(s, k + 1, n, fuel - 1, acc)
                            } else if k < n && s.get_char(k) == '}' {
                                let mut acc = acc;
                                acc.push((key, v));
                                proof {
                                    assert(views_of_members(acc@) =~= old_views.push(
                                        (key_view, v_view),
                                    ));
                                }
                                Some((acc, k + 1))
                            } else {
                                None
                            }
                        },
                    }
                } else {
                    None
                }
            },
        }
    } else {
        None
    }
}

/// Parse a complete JSON text: one value with nothing but whitespace
/// around it, or nothing if the text is not a record of the protocol's
/// grammar.
pub fn parse_json(s: &str) -> (r: Option<JsonValue>)
    ensures
        match r {
            Option::None => parse_json_text(s@) is None,
            Option::Some(v) => parse_json_text(s@) == Some(v@),
        },
{
    let n = s.unicode_len();
    if n >= MAX_RECORD_CHARS {
        return None;
    }
    match parse_value_exec(s, 0, n, 2 * n + 2) {
        None => None,
        Some((v, j)) => {
            if skip_ws_exec(s, j, n) == n {
                Some(v)
            } else {
                None
            }
        },
    }
}

} // verus!
