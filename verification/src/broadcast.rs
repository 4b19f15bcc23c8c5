use vstd::prelude::*;

verus! {

use vstd::string::StringExecFns;

use crate::payload::DuplicatePayload;
use crate::payload::MergePayload;
use crate::wire::WirePayload;
use crate::wire::append_u64;
use crate::wire::dec_digits;
use crate::wire::lemma_dec_digits_line_free;
use crate::wire::line_free;
use crate::wire::push_char;

/// The values carried by one broadcast message. Merging two payloads keeps
/// every value exactly once, so coalesced messages never carry duplicates.
#[derive(PartialEq, Eq, Clone, Debug)]
pub struct BroadcastPayload {
    pub values: Vec<u64>,
}

impl View for BroadcastPayload {
    type V = Seq<u64>;

    open spec fn view(&self) -> Seq<u64> {
        self.values@
    }
}

/// `a` extended by those values of `b` it does not already hold, in order
/// of first appearance.
pub open spec fn merge_values(a: Seq<u64>, b: Seq<u64>) -> Seq<u64>
    decreases b.len(),
{
    if b.len() == 0 {
        a
    } else {
        merge_values(
            if a.contains(b[0]) {
                a
            } else {
                a.push(b[0])
            },
            b.drop_first(),
        )
    }
}

impl MergePayload for BroadcastPayload {
    open spec fn merged_view(self, other: Self) -> Seq<u64> {
        merge_values(self@, other@)
    }

    /// Append each value of `other` that is not already present.
    fn merge_from(&mut self, other: Self) {
        let ghost a0 = self.values@;
        let ghost b = other.values@;
        let n = other.values.len();
        proof {
            assert(b.skip(0) =~= b);
        }
        let mut i: usize = 0;
        while i < n
            invariant
                n == b.len(),
                other.values@ == b,
                i <= n,
                merge_values(self.values@, b.skip(i as int)) == merge_values(a0, b),
            decreases n - i,
        {
            let v = other.values[i];
            proof {
                assert(b.skip(i as int)[0] == b[i as int]);
                assert(b.skip(i as int).drop_first() =~= b.skip(i + 1));
            }
            if !contains_value(&self.values, v) {
                self.values.push(v);
            }
            i += 1;
        }
        proof {
            assert(b.skip(n as int) =~= Seq::<u64>::empty());
        }
    }
}

impl DuplicatePayload for BroadcastPayload {
    fn duplicate(&self) -> (r: Self) {
        let mut values: Vec<u64> = Vec::new();
        let mut i: usize = 0;
        while i < self.values.len()
            invariant
                i <= self.values.len(),
                values@ == self.values@.take(i as int),
            decreases self.values.len() - i,
        {
            values.push(self.values[i]);
            proof {
                assert(self.values@.take(i + 1) =~= self.values@.take(i as int).push(
                    self.values@[i as int],
                ));
            }
            i += 1;
        }
        proof {
            assert(self.values@.take(self.values@.len() as int) =~= self.values@);
        }
        BroadcastPayload { values }
    }
}

/// The JSON rendering of a value list's elements: decimal values joined by
/// commas.
pub open spec fn u64_list_json(values: Seq<u64>) -> Seq<char>
    decreases values.len(),
{
    if values.len() == 0 {
        Seq::empty()
    } else if values.len() == 1 {
        dec_digits(values[0] as nat)
    } else {
        dec_digits(values[0] as nat) + seq![','] + u64_list_json(values.drop_first())
    }
}

/// Extending the rendered prefix by one element appends a comma and the
/// element's digits.
proof fn lemma_u64_list_json_snoc(values: Seq<u64>, i: int)
    requires
        1 <= i < values.len(),
    ensures
        u64_list_json(values.take(i + 1)) == u64_list_json(values.take(i)) + seq![','] + dec_digits(
            values[i] as nat,
        ),
    decreases i,
{
    let s = values.take(i + 1);
    let p = values.take(i);
    if i == 1 {
        assert(s.len() == 2);
        assert(s.drop_first() =~= seq![values[1]]);
        assert(u64_list_json(seq![values[1]]) == dec_digits(values[1] as nat));
        assert(p =~= seq![values[0]]);
        assert(u64_list_json(s) == dec_digits(values[0] as nat) + seq![','] + u64_list_json(
            seq![values[1]],
        ));
        assert(u64_list_json(s) =~= u64_list_json(p) + seq![','] + dec_digits(values[1] as nat));
    } else {
        let rest = values.drop_first();
        lemma_u64_list_json_snoc(rest, i - 1);
        assert(s.drop_first() =~= rest.take(i));
        assert(p.drop_first() =~= rest.take(i - 1));
        assert(s[0] == values[0] && p[0] == values[0]);
        assert(rest[i - 1] == values[i]);
        assert(u64_list_json(s) == dec_digits(values[0] as nat) + seq![','] + u64_list_json(
            rest.take(i),
        ));
        assert(u64_list_json(p) == dec_digits(values[0] as nat) + seq![','] + u64_list_json(
            rest.take(i - 1),
        ));
        assert(u64_list_json(s) =~= u64_list_json(p) + seq![','] + dec_digits(values[i] as nat));
    }
}

/// Rendered value lists hold only digits and commas — never a newline.
proof fn lemma_u64_list_json_line_free(values: Seq<u64>)
    ensures
        line_free(u64_list_json(values)),
    decreases values.len(),
{
    if values.len() == 0 {
    } else if values.len() == 1 {
        lemma_dec_digits_line_free(values[0] as nat);
    } else {
        lemma_dec_digits_line_free(values[0] as nat);
        lemma_u64_list_json_line_free(values.drop_first());
        let d = dec_digits(values[0] as nat);
        let rest = u64_list_json(values.drop_first());
        assert forall|i: int| 0 <= i < u64_list_json(values).len() implies u64_list_json(values)[i]
            != '\n' by {
            if i < d.len() {
                assert(u64_list_json(values)[i] == d[i]);
            } else if i == d.len() {
                assert(u64_list_json(values)[i] == ',');
            } else {
                assert(u64_list_json(values)[i] == rest[i - d.len() - 1]);
            }
        }
    }
}

impl WirePayload for BroadcastPayload {
    open spec fn fragment(&self) -> Seq<char> {
        "\"type\":\"broadcast\",\"message\":["@ + u64_list_json(self.values@) + seq![']']
    }

    open spec fn fragment_members(&self) -> Seq<(Seq<char>, crate::json::SpecJson)> {
        seq![
            ("type"@, crate::json::SpecJson::Str("broadcast"@)),
            ("message"@, crate::json::SpecJson::Array(crate::roundtrip::uints_of(self.values@))),
        ]
    }

    fn render_fragment(&self) -> (r: String) {
        let mut out = String::from_str("\"type\":\"broadcast\",\"message\":[");
        let ghost prefix = "\"type\":\"broadcast\",\"message\":["@;
        let n = self.values.len();
        proof {
            assert(self.values@.take(0) =~= Seq::<u64>::empty());
            assert(out@ =~= prefix + u64_list_json(self.values@.take(0)));
        }
        let mut i: usize = 0;
        while i < n
            invariant
                n == self.values@.len(),
                i <= n,
                prefix == "\"type\":\"broadcast\",\"message\":["@,
                out@ == prefix + u64_list_json(self.values@.take(i as int)),
            decreases n - i,
        {
            if i > 0 {
                push_char(&mut out, ',');
            }
            append_u64(&mut out, self.values[i]);
            proof {
                if i == 0 {
                    assert(self.values@.take(1) =~= seq![self.values@[0]]);
                    assert(u64_list_json(self.values@.take(0)) == Seq::<char>::empty());
                    assert(out@ =~= prefix + u64_list_json(self.values@.take(1)));
                } else {
                    lemma_u64_list_json_snoc(self.values@, i as int);
                    assert(out@ =~= prefix + u64_list_json(self.values@.take(i + 1)));
                }
            }
            i += 1;
        }
        push_char(&mut out, ']');
        proof {
            assert(self.values@.take(n as int) =~= self.values@);
            assert(out@ =~= self.fragment());
            crate::roundtrip::lemma_broadcast_fragment(self.values@);
            reveal_strlit("\"type\":\"broadcast\",\"message\":[");
            lemma_u64_list_json_line_free(self.values@);
            let f = self.fragment();
            let lst = u64_list_json(self.values@);
            assert forall|i: int| 0 <= i < f.len() implies f[i] != '\n' by {
                if i < prefix.len() {
                    assert(f[i] == prefix[i]);
                } else if i < prefix.len() + lst.len() {
                    assert(f[i] == lst[i - prefix.len()]);
                } else {
                    assert(f[i] == ']');
                }
            }
        }
        out
    }
}

/// Whether `values` holds `v`.
fn contains_value(values: &Vec<u64>, v: u64) -> (r: bool)
    ensures
        r == values@.contains(v),
{
    let mut i: usize = 0;
    while i < values.len()
        invariant
            i <= values@.len(),
            forall|j: int| 0 <= j < i ==> values@[j] != v,
        decreases values@.len() - i,
    {
        if values[i] == v {
            return true;
        }
        i += 1;
    }
    proof {
        if values@.contains(v) {
            let j = choose|j: int| 0 <= j < values@.len() && values@[j] == v;
            assert(values@[j] != v);
        }
    }
    false
}

/// Merging yields the union of the two value sets — never a
/// duplicate-containing concatenation: a merge into a duplicate-free payload
/// stays duplicate-free.
pub proof fn lemma_merge_values_union(a: Seq<u64>, b: Seq<u64>)
    ensures
        merge_values(a, b).to_set() == a.to_set().union(b.to_set()),
        a.no_duplicates() ==> merge_values(a, b).no_duplicates(),
    decreases b.len(),
{
    if b.len() == 0 {
        assert(merge_values(a, b).to_set() =~= a.to_set().union(b.to_set())) by {
            assert(!(exists|i: int| 0 <= i < b.len() && b[i] == b[i]));
            assert forall|v: u64| b.to_set().contains(v) implies false by {
                assert(b.contains(v));
            }
        }
    } else {
        let v0 = b[0];
        let a2 = if a.contains(v0) {
            a
        } else {
            a.push(v0)
        };
        let rest = b.drop_first();
        lemma_merge_values_union(a2, rest);
        // The value sets line up: a2 adds v0 to a, and b adds v0 to rest.
        assert(a2.to_set() =~= a.to_set().insert(v0)) by {
            if a.contains(v0) {
                assert forall|v: u64| a.to_set().insert(v0).contains(v) implies a.to_set().contains(
                    v,
                ) by {
                    if v == v0 {
                        assert(a.contains(v0));
                    }
                }
            } else {
                assert forall|v: u64| a.push(v0).contains(v) implies a.to_set().insert(
                    v0,
                ).contains(v) by {
                    let j = choose|j: int| 0 <= j < a.push(v0).len() && a.push(v0)[j] == v;
                    if j < a.len() {
                        assert(a[j] == v);
                    }
                }
                assert forall|v: u64| a.to_set().insert(v0).contains(v) implies a.push(
                    v0,
                ).contains(v) by {
                    if v == v0 {
                        assert(a.push(v0)[a.len() as int] == v0);
                    } else {
                        let j = choose|j: int| 0 <= j < a.len() && a[j] == v;
                        assert(a.push(v0)[j] == v);
                    }
                }
            }
        }
        assert(b.to_set() =~= rest.to_set().insert(v0)) by {
            assert forall|v: u64| b.contains(v) implies rest.to_set().insert(v0).contains(v) by {
                let j = choose|j: int| 0 <= j < b.len() && b[j] == v;
                if j > 0 {
                    assert(rest[j - 1] == v);
                }
            }
            assert forall|v: u64| rest.to_set().insert(v0).contains(v) implies b.contains(v) by {
                if v == v0 {
                    assert(b[0] == v);
                } else {
                    let j = choose|j: int| 0 <= j < rest.len() && rest[j] == v;
                    assert(b[j + 1] == v);
                }
            }
        }
        assert(merge_values(a, b).to_set() =~= a.to_set().union(b.to_set()));
        // Duplicate-freedom: pushing a value not yet present keeps it.
        if a.no_duplicates() {
            assert(a2.no_duplicates()) by {
                if !a.contains(v0) {
                    assert forall|i: int, j: int|
                        0 <= i < a2.len() && 0 <= j < a2.len() && i != j implies a2[i] != a2[j] by {
                        if i < a.len() && j < a.len() {
                            assert(a2[i] == a[i] && a2[j] == a[j]);
                        } else if i < a.len() {
                            assert(a2[j] == v0 && a2[i] == a[i]);
                            if a[i] == v0 {
                                assert(a.contains(v0));
                            }
                        } else {
                            assert(a2[i] == v0 && a2[j] == a[j]);
                            if a[j] == v0 {
                                assert(a.contains(v0));
                            }
                        }
                    }
                }
            }
        }
    }
}

} // verus!
