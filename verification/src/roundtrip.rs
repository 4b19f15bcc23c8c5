//! The wire codec round-trip: a record the encoder produced parses back,
//! through the decoder, to exactly the header and body members it was built
//! from. The proof runs from character-level inversions (digit runs, escaped
//! strings) through compositional parse facts for values, array elements and
//! object members, up to the whole envelope.

use vstd::prelude::*;

verus! {

use crate::json::SpecJson;
use crate::json::digit_val;
use crate::json::is_digit;
use crate::json::is_ws;
use crate::json::parse_digits;
use crate::json::parse_items;
use crate::json::parse_members;
use crate::json::parse_str_chars;
use crate::json::parse_value;
use crate::json::skip_ws;
use crate::wire::dec_digits;
use crate::wire::digit_char;
use crate::wire::escape_char;
use crate::decode::spec_decode_record;
use crate::decode::spec_opt_id;
use crate::json::MAX_RECORD_CHARS;
use crate::json::parse_json_text;
use crate::json::spec_object_get;
use crate::message::MessageHeader;
use crate::message::MessageId;
use crate::node_id::lemma_wf_text_valid;
use crate::wire::json_escaped;
use crate::wire::json_string;
use crate::wire::opt_id_json;
use crate::wire::wire_record;

/// Facts about a rendered digit character.
proof fn lemma_digit_char(d: nat)
    requires
        d < 10,
    ensures
        is_digit(digit_char(d)),
        digit_val(digit_char(d)) == d,
        (digit_char(d) == '0') <==> (d == 0),
{
    let b = (0x30 + d) as u8;
    lemma_byte_char(b);
}

/// Casting a byte to a character preserves its value.
proof fn lemma_byte_char(b: u8)
    ensures
        (b as char) as u32 == b,
{
}

/// Every character of a decimal rendering is a digit, and the leading digit
/// is zero only for the number zero (which renders as the single digit `0`).
pub proof fn lemma_dec_digits_shape(n: nat)
    ensures
        forall|k: int| 0 <= k < dec_digits(n).len() ==> is_digit(#[trigger] dec_digits(n)[k]),
        (dec_digits(n)[0] == '0') <==> (n == 0),
        n == 0 ==> dec_digits(n).len() == 1,
    decreases n,
{
    if n < 10 {
        lemma_digit_char(n);
    } else {
        lemma_dec_digits_shape(n / 10);
        lemma_digit_char(n % 10);
        assert forall|k: int| 0 <= k < dec_digits(n).len() implies is_digit(
            #[trigger] dec_digits(n)[k],
        ) by {
            if k < dec_digits(n / 10).len() {
                assert(dec_digits(n)[k] == dec_digits(n / 10)[k]);
            } else {
                assert(dec_digits(n)[k] == digit_char(n % 10));
            }
        }
        assert(dec_digits(n)[0] == dec_digits(n / 10)[0]);
    }
}

/// The numeric value read by folding digits onto `acc`, most significant
/// first.
pub open spec fn fold_digits(acc: int, ds: Seq<char>) -> int
    decreases ds.len(),
{
    if ds.len() == 0 {
        acc
    } else {
        fold_digits(acc * 10 + digit_val(ds[0]), ds.drop_first())
    }
}

/// Folding one more digit onto the end multiplies by ten and adds it.
proof fn lemma_fold_digits_snoc(acc: int, ds: Seq<char>, c: char)
    ensures
        fold_digits(acc, ds.push(c)) == fold_digits(acc, ds) * 10 + digit_val(c),
    decreases ds.len(),
{
    if ds.len() == 0 {
        assert(ds.push(c)[0] == c);
        assert(ds.push(c).drop_first() =~= Seq::<char>::empty());
        assert(fold_digits(acc * 10 + digit_val(c), Seq::<char>::empty()) == acc * 10 + digit_val(
            c,
        ));
        assert(fold_digits(acc, Seq::<char>::empty()) == acc);
        assert(fold_digits(acc, ds.push(c)) == acc * 10 + digit_val(c));
    } else {
        assert(ds.push(c)[0] == ds[0]);
        assert(ds.push(c).drop_first() =~= ds.drop_first().push(c));
        lemma_fold_digits_snoc(acc * 10 + digit_val(ds[0]), ds.drop_first(), c);
        assert(fold_digits(acc, ds.push(c)) == fold_digits(
            acc * 10 + digit_val(ds[0]),
            ds.drop_first().push(c),
        ));
    }
}

/// Folding the decimal rendering of `n` onto zero reads back `n`.
pub proof fn lemma_fold_dec_digits(n: nat)
    ensures
        fold_digits(0, dec_digits(n)) == n,
    decreases n,
{
    if n < 10 {
        lemma_digit_char(n);
        assert(dec_digits(n)[0] == digit_char(n));
        assert(dec_digits(n).drop_first() =~= Seq::<char>::empty());
        assert(fold_digits(0 * 10 + digit_val(digit_char(n)), Seq::<char>::empty()) == n);
    } else {
        lemma_fold_dec_digits(n / 10);
        lemma_fold_digits_snoc(0, dec_digits(n / 10), digit_char(n % 10));
        lemma_digit_char(n % 10);
    }
}

/// Folding cannot shrink the accumulator when everything is a digit.
proof fn lemma_fold_digits_lower(acc: int, ds: Seq<char>)
    requires
        acc >= 0,
        forall|k: int| 0 <= k < ds.len() ==> 0 <= digit_val(#[trigger] ds[k]),
    ensures
        fold_digits(acc, ds) >= acc,
    decreases ds.len(),
{
    if ds.len() == 0 {
    } else {
        assert forall|k: int| 0 <= k < ds.drop_first().len() implies 0 <= digit_val(
            #[trigger] ds.drop_first()[k],
        ) by {
            assert(ds.drop_first()[k] == ds[k + 1]);
        }
        lemma_fold_digits_lower(acc * 10 + digit_val(ds[0]), ds.drop_first());
    }
}

/// Reading a maximal digit run accumulates exactly the fold of its digits.
pub proof fn lemma_parse_digits_inverts(s: Seq<char>, i: int, j: int, acc: u64)
    requires
        0 <= i <= j <= s.len(),
        forall|k: int| i <= k < j ==> is_digit(#[trigger] s[k]),
        j == s.len() || !is_digit(s[j]),
        fold_digits(acc as int, s.subrange(i, j)) <= u64::MAX,
    ensures
        parse_digits(s, i, acc) == Some((fold_digits(acc as int, s.subrange(i, j)) as u64, j)),
    decreases j - i,
{
    let ds = s.subrange(i, j);
    if i == j {
        assert(ds =~= Seq::<char>::empty());
    } else {
        assert(s[i] == ds[0]);
        assert(is_digit(s[i]));
        let d = digit_val(s[i]);
        assert(0 <= d <= 9);
        let acc2 = acc * 10 + d;
        // The next accumulator stays within range because the whole run's
        // value bounds it from above.
        assert(ds.drop_first() =~= s.subrange(i + 1, j));
        assert(fold_digits(acc as int, ds) == fold_digits(acc as int * 10 + d, s.subrange(i + 1, j)));
        assert forall|k: int| 0 <= k < s.subrange(i + 1, j).len() implies 0 <= digit_val(
            #[trigger] s.subrange(i + 1, j)[k],
        ) by {
            assert(s.subrange(i + 1, j)[k] == s[i + 1 + k]);
            assert(is_digit(s[i + 1 + k]));
        }
        lemma_fold_digits_lower(acc as int * 10 + d, s.subrange(i + 1, j));
        assert(acc as int * 10 + d <= u64::MAX);
        assert(acc <= (u64::MAX - d) / 10) by (nonlinear_arith)
            requires
                acc as int * 10 + d <= u64::MAX,
                0 <= d <= 9,
                0 <= acc,
        ;
        lemma_parse_digits_inverts(s, i + 1, j, acc2 as u64);
    }
}

/// Text with neither quotes nor backslashes escapes to itself.
pub proof fn lemma_escape_identity(t: Seq<char>)
    requires
        forall|k: int| 0 <= k < t.len() ==> #[trigger] t[k] != '"' && t[k] != '\\',
    ensures
        json_escaped(t) == t,
    decreases t.len(),
{
    if t.len() == 0 {
        assert(json_escaped(t) =~= t);
    } else {
        assert forall|k: int| 0 <= k < t.drop_first().len() implies #[trigger] t.drop_first()[k]
            != '"' && t.drop_first()[k] != '\\' by {
            assert(t.drop_first()[k] == t[k + 1]);
        }
        lemma_escape_identity(t.drop_first());
        assert(escape_char(t[0]) =~= seq![t[0]]);
        assert(json_escaped(t) =~= seq![t[0]] + t.drop_first());
        assert(json_escaped(t) =~= t);
    }
}

/// Reading an escaped text up to its closing quote recovers the text.
pub proof fn lemma_parse_str_inverts(s: Seq<char>, i: int, t: Seq<char>, acc: Seq<char>)
    requires
        forall|k: int| 0 <= k < t.len() ==> (#[trigger] t[k]) as u32 >= 0x20,
        0 <= i,
        i + json_escaped(t).len() < s.len(),
        s.subrange(i, i + json_escaped(t).len()) == json_escaped(t),
        s[i + json_escaped(t).len()] == '"',
    ensures
        parse_str_chars(s, i, acc) == Some((acc + t, i + json_escaped(t).len() + 1)),
    decreases t.len(),
{
    let e = json_escaped(t);
    if t.len() == 0 {
        assert(e =~= Seq::<char>::empty());
        assert(s[i] == '"');
        assert(acc + t =~= acc);
    } else {
        let c = t[0];
        let rest = t.drop_first();
        let ec = escape_char(c);
        assert(e == ec + json_escaped(rest));
        assert forall|k: int| 0 <= k < rest.len() implies (#[trigger] rest[k]) as u32 >= 0x20 by {
            assert(rest[k] == t[k + 1]);
        }
        if c == '"' || c == '\\' {
            assert(ec =~= seq!['\\', c]);
            assert(s[i] == e[0] && e[0] == '\\');
            assert(s[i + 1] == e[1] && e[1] == c);
            assert(s.subrange(i + 2, i + 2 + json_escaped(rest).len()) =~= json_escaped(rest)) by {
                assert forall|k: int| 0 <= k < json_escaped(rest).len() implies s.subrange(
                    i + 2,
                    i + 2 + json_escaped(rest).len(),
                )[k] == json_escaped(rest)[k] by {
                    assert(s.subrange(i + 2, i + 2 + json_escaped(rest).len())[k] == s[i + 2 + k]);
                    assert(s[i + 2 + k] == e[2 + k]);
                    assert(e[2 + k] == json_escaped(rest)[k]);
                }
            }
            lemma_parse_str_inverts(s, i + 2, rest, acc.push(c));
            assert(acc.push(c) + rest =~= acc + t);
        } else {
            assert(ec =~= seq![c]);
            assert(s[i] == e[0] && e[0] == c);
            assert(s[i] != '"' && s[i] != '\\');
            assert((s[i] as u32) >= 0x20);
            assert(s.subrange(i + 1, i + 1 + json_escaped(rest).len()) =~= json_escaped(rest)) by {
                assert forall|k: int| 0 <= k < json_escaped(rest).len() implies s.subrange(
                    i + 1,
                    i + 1 + json_escaped(rest).len(),
                )[k] == json_escaped(rest)[k] by {
                    assert(s.subrange(i + 1, i + 1 + json_escaped(rest).len())[k] == s[i + 1 + k]);
                    assert(s[i + 1 + k] == e[1 + k]);
                    assert(e[1 + k] == json_escaped(rest)[k]);
                }
            }
            lemma_parse_str_inverts(s, i + 1, rest, acc.push(c));
            assert(acc.push(c) + rest =~= acc + t);
        }
    }
}

/// Two characters with the same codepoint are the same character.
proof fn lemma_char_inj(a: char, b: char)
    requires
        a as u32 == b as u32,
    ensures
        a == b,
{
    vstd::utf8::char_u32_cast(a, a as u32);
    vstd::utf8::char_u32_cast(b, b as u32);
}

/// `f` parses, in any surroundings, as the single JSON value `v`, ending
/// exactly at its own last character — provided a delimiter follows, so a
/// trailing digit run stops there.
pub open spec fn value_text(f: Seq<char>, v: SpecJson) -> bool {
    forall|s: Seq<char>, i: int, fuel: nat|
        (0 <= i && i + f.len() < s.len() && s.subrange(i, i + f.len()) == f && (s[i + f.len()]
            == ',' || s[i + f.len()] == '}' || s[i + f.len()] == ']') && fuel >= 2 * f.len()
            + 2) ==> #[trigger] parse_value(s, i, fuel) == Some((v, i + f.len()))
}

/// `f` parses, in any surroundings, as the members `ms` of a JSON object
/// whose closing brace stands right after it.
pub open spec fn members_text(f: Seq<char>, ms: Seq<(Seq<char>, SpecJson)>) -> bool {
    forall|s: Seq<char>, i: int, fuel: nat, acc: Seq<(Seq<char>, SpecJson)>|
        (0 <= i && i + f.len() < s.len() && s.subrange(i, i + f.len()) == f && s[i + f.len()]
            == '}' && fuel >= 2 * f.len() + 2) ==> #[trigger] parse_members(s, i, fuel, acc)
            == Some((acc + ms, i + f.len() + 1))
}

/// The keyword `null` is the value text of the null value.
pub proof fn lemma_value_text_null()
    ensures
        value_text(seq!['n', 'u', 'l', 'l'], SpecJson::Null),
{
    let f = seq!['n', 'u', 'l', 'l'];
    assert forall|s: Seq<char>, i: int, fuel: nat|
        (0 <= i && i + f.len() < s.len() && s.subrange(i, i + f.len()) == f && (s[i + f.len()]
            == ',' || s[i + f.len()] == '}' || s[i + f.len()] == ']') && fuel >= 2 * f.len()
            + 2) implies #[trigger] parse_value(s, i, fuel) == Some(
        (SpecJson::Null, i + f.len()),
    ) by {
        assert(s[i] == 'n' && s[i + 1] == 'u' && s[i + 2] == 'l' && s[i + 3] == 'l') by {
            assert(s.subrange(i, i + 4)[0] == s[i]);
            assert(s.subrange(i, i + 4)[1] == s[i + 1]);
            assert(s.subrange(i, i + 4)[2] == s[i + 2]);
            assert(s.subrange(i, i + 4)[3] == s[i + 3]);
        }
        assert(!is_ws(s[i]));
        assert(skip_ws(s, i) == i);
    }
}

/// A decimal rendering is the value text of its number.
pub proof fn lemma_value_text_uint(n: u64)
    ensures
        value_text(dec_digits(n as nat), SpecJson::UInt(n)),
{
    let f = dec_digits(n as nat);
    lemma_dec_digits_shape(n as nat);
    lemma_fold_dec_digits(n as nat);
    assert forall|s: Seq<char>, i: int, fuel: nat|
        (0 <= i && i + f.len() < s.len() && s.subrange(i, i + f.len()) == f && (s[i + f.len()]
            == ',' || s[i + f.len()] == '}' || s[i + f.len()] == ']') && fuel >= 2 * f.len()
            + 2) implies #[trigger] parse_value(s, i, fuel) == Some(
        (SpecJson::UInt(n), i + f.len()),
    ) by {
        assert forall|k: int| i <= k < i + f.len() implies is_digit(#[trigger] s[k]) by {
            assert(s.subrange(i, i + f.len())[k - i] == s[k]);
            assert(f[k - i] == s[k]);
        }
        assert(s[i] == f[0]) by {
            assert(s.subrange(i, i + f.len())[0] == s[i]);
        }
        assert(is_digit(s[i]));
        assert(!is_ws(s[i])) by {
            if is_ws(s[i]) {
                lemma_char_inj(s[i], s[i]);
                assert((s[i] as u32) < 0x30);
            }
        }
        assert(skip_ws(s, i) == i);
        let c = s[i];
        assert(c != 'n' && c != 't' && c != 'f' && c != '"' && c != '[' && c != '{') by {
            if c == 'n' {
                assert(c as u32 == 'n' as u32);
            }
            if c == 't' {
                assert(c as u32 == 't' as u32);
            }
            if c == 'f' {
                assert(c as u32 == 'f' as u32);
            }
            if c == '"' {
                assert(c as u32 == '"' as u32);
            }
            if c == '[' {
                assert(c as u32 == '[' as u32);
            }
            if c == '{' {
                assert(c as u32 == '{' as u32);
            }
        }
        let after = s[i + f.len()];
        assert(!is_digit(after)) by {
            if after == ',' {
                assert(after as u32 == ',' as u32);
            }
            if after == '}' {
                assert(after as u32 == '}' as u32);
            }
            if after == ']' {
                assert(after as u32 == ']' as u32);
            }
        }
        if n == 0 {
            assert(f.len() == 1);
            assert(c == '0');
            assert(parse_value(s, i, fuel) == Some((SpecJson::UInt(0u64), i + 1)));
        } else {
            assert(c != '0') by {
                if c == '0' {
                    lemma_char_inj(c, '0');
                }
            }
            assert(s.subrange(i, i + f.len()) == f);
            lemma_parse_digits_inverts(s, i, i + f.len(), 0);
            assert(fold_digits(0, s.subrange(i, i + f.len())) == n);
        }
    }
}

/// A quoted, escaped text is the value text of the string it spells.
pub proof fn lemma_value_text_str(t: Seq<char>)
    requires
        forall|k: int| 0 <= k < t.len() ==> (#[trigger] t[k]) as u32 >= 0x20,
    ensures
        value_text(json_string(t), SpecJson::Str(t)),
{
    let f = json_string(t);
    let e = json_escaped(t);
    assert(f == seq!['"'] + e + seq!['"']);
    assert forall|s: Seq<char>, i: int, fuel: nat|
        (0 <= i && i + f.len() < s.len() && s.subrange(i, i + f.len()) == f && (s[i + f.len()]
            == ',' || s[i + f.len()] == '}' || s[i + f.len()] == ']') && fuel >= 2 * f.len()
            + 2) implies #[trigger] parse_value(s, i, fuel) == Some(
        (SpecJson::Str(t), i + f.len()),
    ) by {
        let a1 = seq!['"'] + e;
        assert(f == a1 + seq!['"']);
        assert(s[i] == '"') by {
            assert(s.subrange(i, i + f.len())[0] == s[i]);
            assert(a1[0] == '"');
            assert(f[0] == a1[0]);
        }
        assert(!is_ws(s[i])) by {
            if is_ws(s[i]) {
                assert((s[i] as u32) == '"' as u32);
            }
        }
        assert(skip_ws(s, i) == i);
        assert(s[i] != 'n' && s[i] != 't' && s[i] != 'f' && !is_digit(s[i])) by {
            assert(s[i] as u32 == '"' as u32);
        }
        assert(s.subrange(i + 1, i + 1 + e.len()) =~= e) by {
            assert forall|k: int| 0 <= k < e.len() implies s.subrange(i + 1, i + 1 + e.len())[k]
                == e[k] by {
                assert(s.subrange(i + 1, i + 1 + e.len())[k] == s[i + 1 + k]);
                assert(s.subrange(i, i + f.len())[1 + k] == s[i + 1 + k]);
                assert(a1[1 + k] == e[k]);
                assert(f[1 + k] == a1[1 + k]);
            }
        }
        assert(s[i + 1 + e.len()] == '"') by {
            assert(s.subrange(i, i + f.len())[1 + e.len() as int] == s[i + 1 + e.len()]);
            assert(f[1 + e.len() as int] == seq!['"'][0]);
        }
        lemma_parse_str_inverts(s, i + 1, t, Seq::empty());
        assert(Seq::empty() + t =~= t);
    }
}

/// Braces around a members text are the value text of the object it spells.
/// The members text must open directly with its first key's quote.
pub proof fn lemma_value_text_object(f: Seq<char>, ms: Seq<(Seq<char>, SpecJson)>)
    requires
        members_text(f, ms),
        f.len() > 0,
        f[0] == '"',
    ensures
        value_text(seq!['{'] + f + seq!['}'], SpecJson::Object(ms)),
{
    let g = seq!['{'] + f + seq!['}'];
    assert forall|s: Seq<char>, i: int, fuel: nat|
        (0 <= i && i + g.len() < s.len() && s.subrange(i, i + g.len()) == g && (s[i + g.len()]
            == ',' || s[i + g.len()] == '}' || s[i + g.len()] == ']') && fuel >= 2 * g.len()
            + 2) implies #[trigger] parse_value(s, i, fuel) == Some(
        (SpecJson::Object(ms), i + g.len()),
    ) by {
        let b1 = seq!['{'] + f;
        assert(g == b1 + seq!['}']);
        assert forall|k: int| 0 <= k < g.len() implies s[i + k] == g[k] by {
            assert(s.subrange(i, i + g.len())[k] == s[i + k]);
        }
        assert(s[i] == '{') by {
            assert(b1[0] == '{');
            assert(g[0] == b1[0]);
        }
        assert(!is_ws(s[i]) && s[i] != 'n' && s[i] != 't' && s[i] != 'f' && !is_digit(s[i]) && s[i]
            != '"' && s[i] != '[') by {
            assert(s[i] as u32 == '{' as u32);
        }
        assert(skip_ws(s, i) == i);
        assert(s[i + 1] == '"') by {
            assert(b1[1] == f[0]);
            assert(g[1] == b1[1]);
        }
        assert(!is_ws(s[i + 1]) && s[i + 1] != '}') by {
            assert(s[i + 1] as u32 == '"' as u32);
        }
        assert(skip_ws(s, i + 1) == i + 1);
        assert(s.subrange(i + 1, i + 1 + f.len()) =~= f) by {
            assert forall|k: int| 0 <= k < f.len() implies s.subrange(i + 1, i + 1 + f.len())[k]
                == f[k] by {
                assert(s.subrange(i + 1, i + 1 + f.len())[k] == s[i + 1 + k]);
                assert(b1[1 + k] == f[k]);
                assert(g[1 + k] == b1[1 + k]);
            }
        }
        assert(s[i + 1 + f.len()] == '}') by {
            assert(g[1 + f.len() as int] == seq!['}'][0]);
        }
        assert((fuel - 1) as nat >= 2 * f.len() + 2);
        assert(parse_members(s, i + 1, (fuel - 1) as nat, Seq::empty()) == Some(
            (Seq::empty() + ms, i + 1 + f.len() + 1),
        ));
        assert(Seq::empty() + ms =~= ms);
    }
}

/// One final member: a quoted key, a colon, and a value text, standing
/// right before the object's closing brace.
pub proof fn lemma_members_text_last(key: Seq<char>, vf: Seq<char>, v: SpecJson)
    requires
        forall|k: int|
            0 <= k < key.len() ==> (#[trigger] key[k]) != '"' && key[k] != '\\' && (
            key[k] as u32) >= 0x20,
        value_text(vf, v),
    ensures
        members_text(seq!['"'] + key + seq!['"', ':'] + vf, seq![(key, v)]),
{
    let f = seq!['"'] + key + seq!['"', ':'] + vf;
    lemma_escape_identity(key);
    assert forall|s: Seq<char>, i: int, fuel: nat, acc: Seq<(Seq<char>, SpecJson)>|
        (0 <= i && i + f.len() < s.len() && s.subrange(i, i + f.len()) == f && s[i + f.len()]
            == '}' && fuel >= 2 * f.len() + 2) implies #[trigger] parse_members(s, i, fuel, acc)
        == Some((acc + seq![(key, v)], i + f.len() + 1)) by {
        let a1 = seq!['"'] + key;
        let a2 = a1 + seq!['"', ':'];
        assert(f == a2 + vf);
        assert forall|k: int| 0 <= k < f.len() implies s[i + k] == f[k] by {
            assert(s.subrange(i, i + f.len())[k] == s[i + k]);
        }
        assert(s[i] == '"') by {
            assert(a1[0] == '"');
            assert(a2[0] == a1[0]);
            assert(f[0] == a2[0]);
        }
        assert(!is_ws(s[i])) by {
            assert(s[i] as u32 == '"' as u32);
        }
        assert(skip_ws(s, i) == i);
        // The key parses back.
        let q = i + 1 + key.len();
        assert(s.subrange(i + 1, i + 1 + key.len()) =~= json_escaped(key)) by {
            assert forall|k: int| 0 <= k < key.len() implies s.subrange(
                i + 1,
                i + 1 + key.len(),
            )[k] == key[k] by {
                assert(s.subrange(i + 1, i + 1 + key.len())[k] == s[i + 1 + k]);
                assert(a1[1 + k] == key[k]);
                assert(a2[1 + k] == a1[1 + k]);
                assert(f[1 + k] == a2[1 + k]);
            }
        }
        assert(s[q] == '"') by {
            assert(a2[1 + key.len() as int] == seq!['"', ':'][0]);
            assert(f[1 + key.len() as int] == a2[1 + key.len() as int]);
        }
        lemma_parse_str_inverts(s, i + 1, key, Seq::empty());
        assert(Seq::empty() + key =~= key);
        // The colon follows.
        assert(s[q + 1] == ':') by {
            assert(a2[2 + key.len() as int] == seq!['"', ':'][1]);
            assert(f[2 + key.len() as int] == a2[2 + key.len() as int]);
        }
        assert(!is_ws(s[q + 1])) by {
            assert(s[q + 1] as u32 == ':' as u32);
        }
        assert(skip_ws(s, q + 1) == q + 1);
        // The value parses back, delimited by the closing brace.
        let p = q + 2;
        assert(s.subrange(p, p + vf.len()) =~= vf) by {
            assert forall|k: int| 0 <= k < vf.len() implies s.subrange(p, p + vf.len())[k]
                == vf[k] by {
                assert(s.subrange(p, p + vf.len())[k] == s[p + k]);
                assert(f[3 + key.len() as int + k] == vf[k]) by {
                    assert(f[a2.len() + k] == vf[k]);
                }
            }
        }
        assert(p + vf.len() == i + f.len());
        assert(s[p + vf.len()] == '}');
        assert((fuel - 1) as nat >= 2 * vf.len() + 2);
        assert(parse_value(s, p, (fuel - 1) as nat) == Some((v, p + vf.len())));
        // The closing brace ends the member list.
        assert(!is_ws(s[i + f.len()])) by {
            assert(s[i + f.len()] as u32 == '}' as u32);
        }
        assert(skip_ws(s, i + f.len()) == i + f.len());
        assert(s[i + f.len()] != ',') by {
            assert(s[i + f.len()] as u32 == '}' as u32);
        }
        assert(acc.push((key, v)) =~= acc + seq![(key, v)]);
    }
}

/// A member followed by a comma and further members text.
pub proof fn lemma_members_text_cons(
    key: Seq<char>,
    vf: Seq<char>,
    v: SpecJson,
    rest: Seq<char>,
    rest_ms: Seq<(Seq<char>, SpecJson)>,
)
    requires
        forall|k: int|
            0 <= k < key.len() ==> (#[trigger] key[k]) != '"' && key[k] != '\\' && (
            key[k] as u32) >= 0x20,
        value_text(vf, v),
        members_text(rest, rest_ms),
    ensures
        members_text(
            seq!['"'] + key + seq!['"', ':'] + vf + seq![','] + rest,
            seq![(key, v)] + rest_ms,
        ),
{
    let f = seq!['"'] + key + seq!['"', ':'] + vf + seq![','] + rest;
    lemma_escape_identity(key);
    assert forall|s: Seq<char>, i: int, fuel: nat, acc: Seq<(Seq<char>, SpecJson)>|
        (0 <= i && i + f.len() < s.len() && s.subrange(i, i + f.len()) == f && s[i + f.len()]
            == '}' && fuel >= 2 * f.len() + 2) implies #[trigger] parse_members(s, i, fuel, acc)
        == Some((acc + (seq![(key, v)] + rest_ms), i + f.len() + 1)) by {
        let a1 = seq!['"'] + key;
        let a2 = a1 + seq!['"', ':'];
        let a3 = a2 + vf;
        let a4 = a3 + seq![','];
        assert(f == a4 + rest);
        assert forall|k: int| 0 <= k < f.len() implies s[i + k] == f[k] by {
            assert(s.subrange(i, i + f.len())[k] == s[i + k]);
        }
        assert(s[i] == '"') by {
            assert(a1[0] == '"');
            assert(a2[0] == a1[0]);
            assert(a3[0] == a2[0]);
            assert(a4[0] == a3[0]);
            assert(f[0] == a4[0]);
        }
        assert(!is_ws(s[i])) by {
            assert(s[i] as u32 == '"' as u32);
        }
        assert(skip_ws(s, i) == i);
        let q = i + 1 + key.len();
        assert(s.subrange(i + 1, i + 1 + key.len()) =~= json_escaped(key)) by {
            assert forall|k: int| 0 <= k < key.len() implies s.subrange(
                i + 1,
                i + 1 + key.len(),
            )[k] == key[k] by {
                assert(s.subrange(i + 1, i + 1 + key.len())[k] == s[i + 1 + k]);
                assert(a1[1 + k] == key[k]);
                assert(a2[1 + k] == a1[1 + k]);
                assert(f[1 + k] == a2[1 + k]);
            }
        }
        assert(s[q] == '"') by {
            assert(a2[1 + key.len() as int] == seq!['"', ':'][0]);
            assert(f[1 + key.len() as int] == a2[1 + key.len() as int]);
        }
        lemma_parse_str_inverts(s, i + 1, key, Seq::empty());
        assert(Seq::empty() + key =~= key);
        assert(s[q + 1] == ':') by {
            assert(a2[2 + key.len() as int] == seq!['"', ':'][1]);
            assert(f[2 + key.len() as int] == a2[2 + key.len() as int]);
        }
        assert(!is_ws(s[q + 1])) by {
            assert(s[q + 1] as u32 == ':' as u32);
        }
        assert(skip_ws(s, q + 1) == q + 1);
        let p = q + 2;
        assert(s.subrange(p, p + vf.len()) =~= vf) by {
            assert forall|k: int| 0 <= k < vf.len() implies s.subrange(p, p + vf.len())[k]
                == vf[k] by {
                assert(s.subrange(p, p + vf.len())[k] == s[p + k]);
                assert(f[3 + key.len() as int + k] == vf[k]) by {
                    assert(f[a2.len() + k] == vf[k]);
                }
            }
        }
        let m = p + vf.len();
        assert(s[m] == ',') by {
            assert(a4[a3.len() as int] == seq![','][0]);
            assert(f[a3.len() as int] == a4[a3.len() as int]);
            assert(a3.len() == 3 + key.len() + vf.len());
        }
        assert((fuel - 1) as nat >= 2 * vf.len() + 2);
        assert(parse_value(s, p, (fuel - 1) as nat) == Some((v, m)));
        assert(!is_ws(s[m])) by {
            assert(s[m] as u32 == ',' as u32);
        }
        assert(skip_ws(s, m) == m);
        // The rest of the members continue after the comma.
        assert(s.subrange(m + 1, m + 1 + rest.len()) =~= rest) by {
            assert forall|k: int| 0 <= k < rest.len() implies s.subrange(
                m + 1,
                m + 1 + rest.len(),
            )[k] == rest[k] by {
                assert(s.subrange(m + 1, m + 1 + rest.len())[k] == s[m + 1 + k]);
                assert(f[4 + key.len() as int + vf.len() as int + k] == rest[k]) by {
                    assert(f[a4.len() + k] == rest[k]);
                }
            }
        }
        assert(m + 1 + rest.len() == i + f.len());
        assert((fuel - 1) as nat >= 2 * rest.len() + 2);
        assert(parse_members(s, m + 1, (fuel - 1) as nat, acc.push((key, v))) == Some(
            (acc.push((key, v)) + rest_ms, i + f.len() + 1),
        ));
        assert(acc.push((key, v)) + rest_ms =~= acc + (seq![(key, v)] + rest_ms));
    }
}

/// The shape an optional correlation identifier decodes to.
pub open spec fn opt_id_value(o: Option<MessageId>) -> SpecJson {
    match o {
        Option::None => SpecJson::Null,
        Option::Some(id) => SpecJson::UInt(id@),
    }
}

/// The rendering of an optional identifier is the value text of its shape.
proof fn lemma_value_text_opt_id(o: Option<MessageId>)
    ensures
        value_text(opt_id_json(o), opt_id_value(o)),
{
    match o {
        Option::None => {
            lemma_value_text_null();
        },
        Option::Some(id) => {
            lemma_value_text_uint(id@);
        },
    }
}

/// A quoted key, a colon, and a value text: one member as the encoder
/// writes it.
pub open spec fn keyed(key: Seq<char>, vtext: Seq<char>) -> Seq<char> {
    seq!['"'] + key + seq!['"', ':'] + vtext
}

/// The member text of a record's body: the two correlation fields, then
/// the payload fragment, if any.
pub open spec fn body_member_text(header: MessageHeader, fragment: Seq<char>) -> Seq<char> {
    keyed("msg_id"@, opt_id_json(header.msg_id)) + seq![','] + (if fragment.len() == 0 {
        keyed("in_reply_to"@, opt_id_json(header.in_reply_to))
    } else {
        keyed("in_reply_to"@, opt_id_json(header.in_reply_to)) + seq![','] + fragment
    })
}

/// The member text of a record's envelope: source, destination, body.
pub open spec fn outer_member_text(header: MessageHeader, fragment: Seq<char>) -> Seq<char> {
    keyed("src"@, json_string(header.src.text_of())) + seq![','] + (keyed(
        "dest"@,
        json_string(header.dest.text_of()),
    ) + seq![','] + keyed("body"@, seq!['{'] + body_member_text(header, fragment) + seq!['}']))
}

/// A wire record is exactly braces around its envelope member text.
#[verifier::rlimit(100)]
proof fn lemma_record_shape(header: MessageHeader, fragment: Seq<char>)
    ensures
        wire_record(header, fragment) == seq!['{'] + outer_member_text(header, fragment)
            + seq!['}'],
{
    reveal_strlit("{\"src\":");
    reveal_strlit(",\"dest\":");
    reveal_strlit(",\"body\":{\"msg_id\":");
    reveal_strlit(",\"in_reply_to\":");
    reveal_strlit(",");
    reveal_strlit("}}");
    reveal_strlit("src");
    reveal_strlit("dest");
    reveal_strlit("body");
    reveal_strlit("msg_id");
    reveal_strlit("in_reply_to");
    assert("{\"src\":"@ =~= seq!['{', '"', 's', 'r', 'c', '"', ':']);
    assert(",\"dest\":"@ =~= seq![',', '"', 'd', 'e', 's', 't', '"', ':']);
    assert(",\"body\":{\"msg_id\":"@ =~= seq![',', '"', 'b', 'o', 'd', 'y', '"', ':', '{', '"', 'm', 's', 'g', '_', 'i', 'd', '"', ':']);
    assert(",\"in_reply_to\":"@ =~= seq![',', '"', 'i', 'n', '_', 'r', 'e', 'p', 'l', 'y', '_', 't', 'o', '"', ':']);
    assert(","@ =~= seq![',']);
    assert("}}"@ =~= seq!['}', '}']);
    assert("src"@ =~= seq!['s', 'r', 'c']);
    assert("dest"@ =~= seq!['d', 'e', 's', 't']);
    assert("body"@ =~= seq!['b', 'o', 'd', 'y']);
    assert("msg_id"@ =~= seq!['m', 's', 'g', '_', 'i', 'd']);
    assert("in_reply_to"@ =~= seq!['i', 'n', '_', 'r', 'e', 'p', 'l', 'y', '_', 't', 'o']);
    assert(wire_record(header, fragment) =~= seq!['{'] + outer_member_text(header, fragment)
        + seq!['}']);
}

/// Decoding inverts encoding: §4.1's shared wire shape round-trips. A record
/// the encoder produced — for any header with well-formed identifiers and
/// any payload fragment that parses as object members — is accepted by the
/// decoder, which reads back exactly the header's source, destination and
/// correlation identifiers, and a body holding the correlation fields
/// followed by the payload's members. The header fields are safe even
/// against a payload fragment that repeats `msg_id` or `in_reply_to`,
/// because the decoder takes an object's first member under each name.
#[verifier::rlimit(100)]
pub proof fn lemma_decode_inverts_encode(
    header: MessageHeader,
    fragment: Seq<char>,
    fm: Seq<(Seq<char>, SpecJson)>,
)
    requires
        header.src.wf(),
        header.dest.wf(),
        fragment.len() > 0 ==> members_text(fragment, fm),
        wire_record(header, fragment).len() < MAX_RECORD_CHARS,
    ensures
        ({
            let body_ms = seq![
                ("msg_id"@, opt_id_value(header.msg_id)),
                ("in_reply_to"@, opt_id_value(header.in_reply_to)),
            ] + (if fragment.len() == 0 {
                Seq::<(Seq<char>, SpecJson)>::empty()
            } else {
                fm
            });
            spec_decode_record(wire_record(header, fragment)) == Some(
                (
                    header.src.text_of(),
                    header.dest.text_of(),
                    match header.msg_id {
                        Option::Some(id) => Option::Some(id@),
                        Option::None => Option::None::<u64>,
                    },
                    match header.in_reply_to {
                        Option::Some(id) => Option::Some(id@),
                        Option::None => Option::None::<u64>,
                    },
                    SpecJson::Object(body_ms),
                ),
            )
        }),
{
    let srct = header.src.text_of();
    let destt = header.dest.text_of();
    let vm = opt_id_value(header.msg_id);
    let vr = opt_id_value(header.in_reply_to);
    // The identifier texts and the literal keys are printable, quote-free
    // member material.
    lemma_wf_text_valid(header.src);
    lemma_wf_text_valid(header.dest);
    lemma_value_text_str(srct);
    lemma_value_text_str(destt);
    lemma_value_text_opt_id(header.msg_id);
    lemma_value_text_opt_id(header.in_reply_to);
    reveal_strlit("src");
    reveal_strlit("dest");
    reveal_strlit("body");
    reveal_strlit("msg_id");
    reveal_strlit("in_reply_to");
    assert("src"@ =~= seq!['s', 'r', 'c']);
    assert("dest"@ =~= seq!['d', 'e', 's', 't']);
    assert("body"@ =~= seq!['b', 'o', 'd', 'y']);
    assert("msg_id"@ =~= seq!['m', 's', 'g', '_', 'i', 'd']);
    assert("in_reply_to"@ =~= seq!['i', 'n', '_', 'r', 'e', 'p', 'l', 'y', '_', 't', 'o']);
    assert(key_ok("src"@) && key_ok("dest"@) && key_ok("body"@) && key_ok("msg_id"@) && key_ok(
        "in_reply_to"@,
    )) by {
        assert forall|k: int| 0 <= k < "src"@.len() implies char_ok(#[trigger] "src"@[k]) by {}
        assert forall|k: int| 0 <= k < "dest"@.len() implies char_ok(#[trigger] "dest"@[k]) by {}
        assert forall|k: int| 0 <= k < "body"@.len() implies char_ok(#[trigger] "body"@[k]) by {}
        assert forall|k: int| 0 <= k < "msg_id"@.len() implies char_ok(
            #[trigger] "msg_id"@[k],
        ) by {}
        assert forall|k: int| 0 <= k < "in_reply_to"@.len() implies char_ok(
            #[trigger] "in_reply_to"@[k],
        ) by {}
    }
    // The body's members parse back, fragment and all.
    let irt_ms: Seq<(Seq<char>, SpecJson)> = if fragment.len() == 0 {
        seq![("in_reply_to"@, vr)]
    } else {
        seq![("in_reply_to"@, vr)] + fm
    };
    let irt_text = if fragment.len() == 0 {
        keyed("in_reply_to"@, opt_id_json(header.in_reply_to))
    } else {
        keyed("in_reply_to"@, opt_id_json(header.in_reply_to)) + seq![','] + fragment
    };
    if fragment.len() == 0 {
        lemma_members_text_last("in_reply_to"@, opt_id_json(header.in_reply_to), vr);
    } else {
        lemma_members_text_cons("in_reply_to"@, opt_id_json(header.in_reply_to), vr, fragment, fm);
    }
    assert(members_text(irt_text, irt_ms));
    let body_text = body_member_text(header, fragment);
    let body_ms0 = seq![("msg_id"@, vm)] + irt_ms;
    lemma_members_text_cons("msg_id"@, opt_id_json(header.msg_id), vm, irt_text, irt_ms);
    assert(members_text(body_text, body_ms0));
    // The body value parses back.
    assert(body_text[0] == '"') by {
        let a1 = seq!['"'] + "msg_id"@;
        let a2 = a1 + seq!['"', ':'];
        let a3 = a2 + opt_id_json(header.msg_id);
        let a4 = a3 + seq![','];
        assert(a1[0] == '"');
        assert(a2[0] == a1[0]);
        assert(a3[0] == a2[0]);
        assert(a4[0] == a3[0]);
        assert(body_text[0] == a4[0]);
    }
    let bv = seq!['{'] + body_text + seq!['}'];
    lemma_value_text_object(body_text, body_ms0);
    assert(value_text(bv, SpecJson::Object(body_ms0)));
    // The envelope's members parse back.
    let rest2_text = keyed("body"@, bv);
    let rest2_ms: Seq<(Seq<char>, SpecJson)> = seq![("body"@, SpecJson::Object(body_ms0))];
    lemma_members_text_last("body"@, bv, SpecJson::Object(body_ms0));
    assert(members_text(rest2_text, rest2_ms));
    let rest1_text = keyed("dest"@, json_string(destt)) + seq![','] + rest2_text;
    let rest1_ms = seq![("dest"@, SpecJson::Str(destt))] + rest2_ms;
    lemma_members_text_cons("dest"@, json_string(destt), SpecJson::Str(destt), rest2_text, rest2_ms);
    assert(members_text(rest1_text, rest1_ms));
    let outer = outer_member_text(header, fragment);
    let oms = seq![("src"@, SpecJson::Str(srct))] + rest1_ms;
    lemma_members_text_cons("src"@, json_string(srct), SpecJson::Str(srct), rest1_text, rest1_ms);
    assert(members_text(outer, oms));
    // The whole record parses to the envelope object.
    lemma_record_shape(header, fragment);
    let record = wire_record(header, fragment);
    assert(record == seq!['{'] + outer + seq!['}']);
    let b1 = seq!['{'] + outer;
    assert(record == b1 + seq!['}']);
    assert(record.len() == outer.len() + 2);
    assert(record[0] == '{') by {
        assert(b1[0] == '{');
        assert(record[0] == b1[0]);
    }
    assert(record[1] == '"') by {
        let a1 = seq!['"'] + "src"@;
        let a2 = a1 + seq!['"', ':'];
        let a3 = a2 + json_string(srct);
        let a4 = a3 + seq![','];
        assert(a1[0] == '"');
        assert(a2[0] == a1[0]);
        assert(a3[0] == a2[0]);
        assert(a4[0] == a3[0]);
        assert(outer[0] == a4[0]);
        assert(b1[1] == outer[0]);
        assert(record[1] == b1[1]);
    }
    assert(record.subrange(1, 1 + outer.len() as int) =~= outer) by {
        assert forall|k: int| 0 <= k < outer.len() implies record.subrange(
            1,
            1 + outer.len() as int,
        )[k] == outer[k] by {
            assert(record.subrange(1, 1 + outer.len() as int)[k] == record[1 + k]);
            assert(record[1 + k] == b1[1 + k]);
            assert(b1[1 + k] == outer[k]);
        }
    }
    assert(record[1 + outer.len() as int] == '}') by {
        assert(record[b1.len() as int] == seq!['}'][0]);
    }
    let fuel = (2 * record.len() + 2) as nat;
    assert(!is_ws(record[0])) by {
        assert(record[0] as u32 == '{' as u32);
    }
    assert(skip_ws(record, 0) == 0);
    assert(record[0] != 'n' && record[0] != 't' && record[0] != 'f' && !is_digit(record[0])
        && record[0] != '"' && record[0] != '[') by {
        assert(record[0] as u32 == '{' as u32);
    }
    assert(!is_ws(record[1]) && record[1] != '}') by {
        assert(record[1] as u32 == '"' as u32);
    }
    assert(skip_ws(record, 1) == 1);
    assert((fuel - 1) as nat >= 2 * outer.len() + 2);
    assert(parse_members(record, 1, (fuel - 1) as nat, Seq::empty()) == Some(
        (Seq::empty() + oms, 1 + outer.len() as int + 1),
    ));
    assert(Seq::empty() + oms =~= oms);
    assert(parse_value(record, 0, fuel) == Some(
        (SpecJson::Object(oms), record.len() as int),
    ));
    assert(skip_ws(record, record.len() as int) == record.len());
    assert(parse_json_text(record) == Some(SpecJson::Object(oms)));
    // Walk the member lookups the decoder performs.
    let srcm = ("src"@, SpecJson::Str(srct));
    let destm = ("dest"@, SpecJson::Str(destt));
    let bodym = ("body"@, SpecJson::Object(body_ms0));
    assert(oms[0] == srcm);
    assert(spec_object_get(oms, "src"@) == Some(SpecJson::Str(srct)));
    assert(oms.drop_first() =~= rest1_ms);
    assert(rest1_ms[0] == destm);
    assert("src"@ != "dest"@);
    assert(spec_object_get(oms, "dest"@) == Some(SpecJson::Str(destt))) by {
        assert(spec_object_get(oms, "dest"@) == spec_object_get(rest1_ms, "dest"@));
    }
    assert(rest1_ms.drop_first() =~= rest2_ms);
    assert(rest2_ms[0] == bodym);
    assert("src"@ != "body"@ && "dest"@ != "body"@);
    assert(spec_object_get(oms, "body"@) == Some(SpecJson::Object(body_ms0))) by {
        assert(spec_object_get(oms, "body"@) == spec_object_get(rest1_ms, "body"@));
        assert(spec_object_get(rest1_ms, "body"@) == spec_object_get(rest2_ms, "body"@));
    }
    // The correlation fields come from the body's leading members, whatever
    // the fragment holds.
    assert(body_ms0[0] == ("msg_id"@, vm));
    assert(spec_object_get(body_ms0, "msg_id"@) == Some(vm));
    assert(body_ms0.drop_first() =~= irt_ms);
    assert(irt_ms[0] == ("in_reply_to"@, vr));
    assert("msg_id"@ != "in_reply_to"@);
    assert(spec_object_get(body_ms0, "in_reply_to"@) == Some(vr)) by {
        assert(spec_object_get(body_ms0, "in_reply_to"@) == spec_object_get(irt_ms, "in_reply_to"@));
    }
    assert(spec_opt_id(Some(vm)) == Some(
        match header.msg_id {
            Option::Some(id) => Option::Some(id@),
            Option::None => Option::None::<u64>,
        },
    ));
    assert(spec_opt_id(Some(vr)) == Some(
        match header.in_reply_to {
            Option::Some(id) => Option::Some(id@),
            Option::None => Option::None::<u64>,
        },
    ));
    let body_ms = seq![
        ("msg_id"@, opt_id_value(header.msg_id)),
        ("in_reply_to"@, opt_id_value(header.in_reply_to)),
    ] + (if fragment.len() == 0 {
        Seq::<(Seq<char>, SpecJson)>::empty()
    } else {
        fm
    });
    assert(body_ms0 =~= body_ms);
}

/// Member material: no quote, no backslash, no control character.
pub open spec fn char_ok(c: char) -> bool {
    c != '"' && c != '\\' && (c as u32) >= 0x20
}

/// Every character of `key` is member material.
pub open spec fn key_ok(key: Seq<char>) -> bool {
    forall|k: int| 0 <= k < key.len() ==> char_ok(#[trigger] key[k])
}

/// `f` parses, in any surroundings, as the elements `vs` of a JSON array
/// whose closing bracket stands right after it.
pub open spec fn items_text(f: Seq<char>, vs: Seq<SpecJson>) -> bool {
    forall|s: Seq<char>, i: int, fuel: nat, acc: Seq<SpecJson>|
        (0 <= i && i + f.len() < s.len() && s.subrange(i, i + f.len()) == f && s[i + f.len()]
            == ']' && fuel >= 2 * f.len() + 4) ==> #[trigger] parse_items(s, i, fuel, acc)
            == Some((acc + vs, i + f.len() + 1))
}

/// One final element, standing right before the array's closing bracket.
proof fn lemma_items_text_last(vf: Seq<char>, v: SpecJson)
    requires
        value_text(vf, v),
    ensures
        items_text(vf, seq![v]),
{
    assert forall|s: Seq<char>, i: int, fuel: nat, acc: Seq<SpecJson>|
        (0 <= i && i + vf.len() < s.len() && s.subrange(i, i + vf.len()) == vf && s[i + vf.len()]
            == ']' && fuel >= 2 * vf.len() + 4) implies #[trigger] parse_items(s, i, fuel, acc)
        == Some((acc + seq![v], i + vf.len() + 1)) by {
        assert((fuel - 1) as nat >= 2 * vf.len() + 2);
        assert(parse_value(s, i, (fuel - 1) as nat) == Some((v, i + vf.len())));
        assert(!is_ws(s[i + vf.len()]) && s[i + vf.len()] != ',') by {
            assert(s[i + vf.len()] as u32 == ']' as u32);
        }
        assert(skip_ws(s, i + vf.len()) == i + vf.len());
        assert(acc.push(v) =~= acc + seq![v]);
    }
}

/// An element followed by a comma and further elements.
proof fn lemma_items_text_cons(vf: Seq<char>, v: SpecJson, rest: Seq<char>, rest_vs: Seq<SpecJson>)
    requires
        value_text(vf, v),
        items_text(rest, rest_vs),
    ensures
        items_text(vf + seq![','] + rest, seq![v] + rest_vs),
{
    let f = vf + seq![','] + rest;
    assert forall|s: Seq<char>, i: int, fuel: nat, acc: Seq<SpecJson>|
        (0 <= i && i + f.len() < s.len() && s.subrange(i, i + f.len()) == f && s[i + f.len()]
            == ']' && fuel >= 2 * f.len() + 4) implies #[trigger] parse_items(s, i, fuel, acc)
        == Some((acc + (seq![v] + rest_vs), i + f.len() + 1)) by {
        let a1 = vf + seq![','];
        assert(f == a1 + rest);
        assert forall|k: int| 0 <= k < f.len() implies s[i + k] == f[k] by {
            assert(s.subrange(i, i + f.len())[k] == s[i + k]);
        }
        assert(s.subrange(i, i + vf.len() as int) =~= vf) by {
            assert forall|k: int| 0 <= k < vf.len() implies s.subrange(i, i + vf.len() as int)[k]
                == vf[k] by {
                assert(s.subrange(i, i + vf.len() as int)[k] == s[i + k]);
                assert(a1[k] == vf[k]);
                assert(f[k] == a1[k]);
            }
        }
        let m = i + vf.len();
        assert(s[m] == ',') by {
            assert(a1[vf.len() as int] == seq![','][0]);
            assert(f[vf.len() as int] == a1[vf.len() as int]);
        }
        assert((fuel - 1) as nat >= 2 * vf.len() + 2);
        assert(parse_value(s, i, (fuel - 1) as nat) == Some((v, m)));
        assert(!is_ws(s[m])) by {
            assert(s[m] as u32 == ',' as u32);
        }
        assert(skip_ws(s, m) == m);
        assert(s.subrange(m + 1, m + 1 + rest.len()) =~= rest) by {
            assert forall|k: int| 0 <= k < rest.len() implies s.subrange(
                m + 1,
                m + 1 + rest.len(),
            )[k] == rest[k] by {
                assert(s.subrange(m + 1, m + 1 + rest.len())[k] == s[m + 1 + k]);
                assert(f[a1.len() + k] == rest[k]);
            }
        }
        assert(m + 1 + rest.len() == i + f.len());
        assert((fuel - 1) as nat >= 2 * rest.len() + 4);
        assert(parse_items(s, m + 1, (fuel - 1) as nat, acc.push(v)) == Some(
            (acc.push(v) + rest_vs, i + f.len() as int + 1),
        ));
        assert(acc.push(v) + rest_vs =~= acc + (seq![v] + rest_vs));
    }
}

/// Brackets around an items text are the value text of the array it
/// spells; the empty array is its two brackets.
proof fn lemma_value_text_array(f: Seq<char>, vs: Seq<SpecJson>)
    requires
        f.len() == 0 ==> vs.len() == 0,
        f.len() > 0 ==> items_text(f, vs) && !is_ws(f[0]) && f[0] != ']',
    ensures
        value_text(seq!['['] + f + seq![']'], SpecJson::Array(vs)),
{
    let g = seq!['['] + f + seq![']'];
    let b1 = seq!['['] + f;
    assert(g == b1 + seq![']']);
    assert forall|s: Seq<char>, i: int, fuel: nat|
        (0 <= i && i + g.len() < s.len() && s.subrange(i, i + g.len()) == g && (s[i + g.len()]
            == ',' || s[i + g.len()] == '}' || s[i + g.len()] == ']') && fuel >= 2 * g.len()
            + 2) implies #[trigger] parse_value(s, i, fuel) == Some(
        (SpecJson::Array(vs), i + g.len()),
    ) by {
        assert forall|k: int| 0 <= k < g.len() implies s[i + k] == g[k] by {
            assert(s.subrange(i, i + g.len())[k] == s[i + k]);
        }
        assert(s[i] == '[') by {
            assert(b1[0] == '[');
            assert(g[0] == b1[0]);
        }
        assert(!is_ws(s[i]) && s[i] != 'n' && s[i] != 't' && s[i] != 'f' && !is_digit(s[i]) && s[i]
            != '"' && s[i] != '{') by {
            assert(s[i] as u32 == '[' as u32);
        }
        assert(skip_ws(s, i) == i);
        if f.len() == 0 {
            assert(s[i + 1] == ']') by {
                assert(g[1] == seq![']'][0]);
            }
            assert(!is_ws(s[i + 1])) by {
                assert(s[i + 1] as u32 == ']' as u32);
            }
            assert(skip_ws(s, i + 1) == i + 1);
            assert(vs =~= Seq::<SpecJson>::empty());
        } else {
            assert(s[i + 1] == f[0]) by {
                assert(b1[1] == f[0]);
                assert(g[1] == b1[1]);
            }
            assert(skip_ws(s, i + 1) == i + 1);
            assert(s[i + 1] != ']');
            assert(s.subrange(i + 1, i + 1 + f.len()) =~= f) by {
                assert forall|k: int| 0 <= k < f.len() implies s.subrange(
                    i + 1,
                    i + 1 + f.len(),
                )[k] == f[k] by {
                    assert(s.subrange(i + 1, i + 1 + f.len())[k] == s[i + 1 + k]);
                    assert(b1[1 + k] == f[k]);
                    assert(g[1 + k] == b1[1 + k]);
                }
            }
            assert(s[i + 1 + f.len()] == ']') by {
                assert(g[1 + f.len() as int] == seq![']'][0]);
            }
            assert((fuel - 1) as nat >= 2 * f.len() + 4);
            assert(parse_items(s, i + 1, (fuel - 1) as nat, Seq::empty()) == Some(
                (Seq::empty() + vs, i + 1 + f.len() as int + 1),
            ));
            assert(Seq::empty() + vs =~= vs);
        }
    }
}

/// The shapes of a list of numbers.
pub open spec fn uints_of(values: Seq<u64>) -> Seq<SpecJson> {
    values.map_values(|v: u64| SpecJson::UInt(v))
}

/// A rendered value list parses back as its numbers.
proof fn lemma_u64_list_items(values: Seq<u64>)
    requires
        values.len() > 0,
    ensures
        items_text(crate::broadcast::u64_list_json(values), uints_of(values)),
    decreases values.len(),
{
    let f = crate::broadcast::u64_list_json(values);
    lemma_value_text_uint(values[0]);
    if values.len() == 1 {
        lemma_items_text_last(dec_digits(values[0] as nat), SpecJson::UInt(values[0]));
        assert(uints_of(values) =~= seq![SpecJson::UInt(values[0])]);
    } else {
        let rest = values.drop_first();
        lemma_u64_list_items(rest);
        lemma_items_text_cons(
            dec_digits(values[0] as nat),
            SpecJson::UInt(values[0]),
            crate::broadcast::u64_list_json(rest),
            uints_of(rest),
        );
        assert(uints_of(values) =~= seq![SpecJson::UInt(values[0])] + uints_of(rest));
    }
}

/// The first character of a rendered value list is a digit.
proof fn lemma_u64_list_head(values: Seq<u64>)
    requires
        values.len() > 0,
    ensures
        is_digit(crate::broadcast::u64_list_json(values)[0]),
{
    let d = dec_digits(values[0] as nat);
    lemma_dec_digits_shape(values[0] as nat);
    if values.len() == 1 {
    } else {
        let f = crate::broadcast::u64_list_json(values);
        let a1 = d + seq![','];
        assert(f == a1 + crate::broadcast::u64_list_json(values.drop_first()));
        assert(a1[0] == d[0]);
        assert(f[0] == a1[0]);
    }
}

/// The handshake acknowledgment's fragment parses back as its one member.
pub proof fn lemma_init_ok_fragment()
    ensures
        members_text("\"type\":\"init_ok\""@, seq![("type"@, SpecJson::Str("init_ok"@))]),
{
    reveal_strlit("\"type\":\"init_ok\"");
    reveal_strlit("type");
    reveal_strlit("init_ok");
    assert("type"@ =~= seq!['t', 'y', 'p', 'e']);
    assert("init_ok"@ =~= seq!['i', 'n', 'i', 't', '_', 'o', 'k']);
    assert forall|k: int| 0 <= k < "type"@.len() implies (#[trigger] "type"@[k]) != '"'
        && "type"@[k] != '\\' && ("type"@[k] as u32) >= 0x20 by {}
    assert forall|k: int| 0 <= k < "init_ok"@.len() implies ((#[trigger] "init_ok"@[k]) as u32)
        >= 0x20 by {}
    lemma_value_text_str("init_ok"@);
    lemma_members_text_last("type"@, json_string("init_ok"@), SpecJson::Str("init_ok"@));
    assert("\"type\":\"init_ok\""@ =~= keyed("type"@, json_string("init_ok"@))) by {
        lemma_escape_identity("init_ok"@);
    }
}

/// A broadcast payload's fragment parses back as its type tag and its
/// value list.
pub proof fn lemma_broadcast_fragment(values: Seq<u64>)
    ensures
        members_text(
            "\"type\":\"broadcast\",\"message\":["@ + crate::broadcast::u64_list_json(values)
                + seq![']'],
            seq![
                ("type"@, SpecJson::Str("broadcast"@)),
                ("message"@, SpecJson::Array(uints_of(values))),
            ],
        ),
{
    reveal_strlit("\"type\":\"broadcast\",\"message\":[");
    reveal_strlit("type");
    reveal_strlit("broadcast");
    reveal_strlit("message");
    assert("type"@ =~= seq!['t', 'y', 'p', 'e']);
    assert("broadcast"@ =~= seq!['b', 'r', 'o', 'a', 'd', 'c', 'a', 's', 't']);
    assert("message"@ =~= seq!['m', 'e', 's', 's', 'a', 'g', 'e']);
    assert forall|k: int| 0 <= k < "type"@.len() implies (#[trigger] "type"@[k]) != '"'
        && "type"@[k] != '\\' && ("type"@[k] as u32) >= 0x20 by {}
    assert forall|k: int| 0 <= k < "message"@.len() implies (#[trigger] "message"@[k]) != '"'
        && "message"@[k] != '\\' && ("message"@[k] as u32) >= 0x20 by {}
    assert forall|k: int| 0 <= k < "broadcast"@.len() implies ((#[trigger] "broadcast"@[k]) as u32)
        >= 0x20 by {}
    lemma_value_text_str("broadcast"@);
    let list = crate::broadcast::u64_list_json(values);
    if values.len() == 0 {
        lemma_value_text_array(list, uints_of(values));
        assert(uints_of(values) =~= Seq::<SpecJson>::empty());
    } else {
        lemma_u64_list_items(values);
        lemma_u64_list_head(values);
        assert(!is_ws(list[0]) && list[0] != ']') by {
            if is_ws(list[0]) || list[0] == ']' {
                assert((list[0] as u32) < 0x30 || (list[0] as u32) > 0x39);
            }
        }
        lemma_value_text_array(list, uints_of(values));
    }
    let arr_text = seq!['['] + list + seq![']'];
    lemma_members_text_last("message"@, arr_text, SpecJson::Array(uints_of(values)));
    lemma_members_text_cons(
        "type"@,
        json_string("broadcast"@),
        SpecJson::Str("broadcast"@),
        keyed("message"@, arr_text),
        seq![("message"@, SpecJson::Array(uints_of(values)))],
    );
    assert("\"type\":\"broadcast\",\"message\":["@ + list + seq![']'] =~= keyed(
        "type"@,
        json_string("broadcast"@),
    ) + seq![','] + (keyed("message"@, arr_text))) by {
        lemma_escape_identity("broadcast"@);
    }
    assert(seq![("type"@, SpecJson::Str("broadcast"@))] + seq![
        ("message"@, SpecJson::Array(uints_of(values))),
    ] =~= seq![
        ("type"@, SpecJson::Str("broadcast"@)),
        ("message"@, SpecJson::Array(uints_of(values))),
    ]);
}

} // verus!
