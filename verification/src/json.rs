//! JSON output: one object whose keys are the header names in display order.
//! A name that appears once maps to its value as a string; a repeated name
//! maps to the array of its values in display order, so later entries never
//! overwrite earlier ones. Strings are escaped minimally: quote, backslash,
//! and control characters (as `\u00XX`).

use vstd::prelude::*;
use crate::headers::{HeaderEntry, SpecEntry};
use crate::strutil::push_char;

verus! {

/// The hexadecimal digit for a value below sixteen, lower case.
pub open spec fn hex_digit(d: int) -> char {
    if d < 10 {
        ((48 + d) as u8) as char
    } else {
        ((87 + d) as u8) as char
    }
}

/// How one character appears inside a JSON string literal.
pub open spec fn esc_char(c: char) -> Seq<char> {
    if c == '"' || c == '\\' {
        seq!['\\', c]
    } else if (c as u32) < 32 {
        seq!['\\', 'u', '0', '0', hex_digit(((c as u32) / 16) as int), hex_digit(((c as u32) % 16) as int)]
    } else {
        seq![c]
    }
}

/// A whole string escaped for a JSON string literal.
pub open spec fn escape(s: Seq<char>) -> Seq<char>
    decreases s.len(),
{
    if s.len() == 0 {
        Seq::empty()
    } else {
        esc_char(s[0]) + escape(s.drop_first())
    }
}

/// Escaping distributes over concatenation.
pub proof fn lemma_escape_app(a: Seq<char>, b: Seq<char>)
    ensures
        escape(a + b) =~= escape(a) + escape(b),
    decreases a.len(),
{
    if a.len() == 0 {
        assert(a + b =~= b);
    } else {
        assert((a + b)[0] == a[0]);
        assert((a + b).drop_first() =~= a.drop_first() + b);
        lemma_escape_app(a.drop_first(), b);
    }
}

/// Appends the hexadecimal digit of a value below sixteen.
fn push_hex_digit(out: &mut String, d: u32)
    requires
        d < 16,
    ensures
        final(out)@ == old(out)@.push(hex_digit(d as int)),
{
    if d < 10 {
        push_char(out, ((48 + d) as u8) as char);
    } else {
        push_char(out, ((87 + d) as u8) as char);
    }
}

/// Appends a string in its JSON-escaped form.
fn append_escaped(out: &mut String, s: &str)
    ensures
        final(out)@ == old(out)@ + escape(s@),
{
    let len = s.unicode_len();
    let mut i: usize = 0;
    proof {
        assert(s@.take(0) =~= Seq::<char>::empty());
        assert(old(out)@ + escape(s@.take(0)) =~= old(out)@);
    }
    while i < len
        invariant
            i <= len,
            len == s@.len(),
            out@ =~= old(out)@ + escape(s@.take(i as int)),
        decreases len - i,
    {
        let ghost pre = out@;
        let c = s.get_char(i);
        if c == '"' || c == '\\' {
            push_char(out, '\\');
            push_char(out, c);
        } else if (c as u32) < 32 {
            let code = c as u32;
            push_char(out, '\\');
            push_char(out, 'u');
            push_char(out, '0');
            push_char(out, '0');
            push_hex_digit(out, code / 16);
            push_hex_digit(out, code % 16);
        } else {
            push_char(out, c);
        }
        proof {
            assert(out@ =~= pre + esc_char(s@[i as int]));
            lemma_escape_app(s@.take(i as int), seq![s@[i as int]]);
            assert(s@.take(i as int + 1) =~= s@.take(i as int) + seq![s@[i as int]]);
            assert(seq![s@[i as int]].drop_first() =~= Seq::<char>::empty());
            assert(escape(Seq::<char>::empty()) =~= Seq::<char>::empty());
            assert(escape(seq![s@[i as int]]) =~= esc_char(s@[i as int]) + escape(
                seq![s@[i as int]].drop_first(),
            ));
            assert(escape(seq![s@[i as int]]) =~= esc_char(s@[i as int]));
            assert(out@ =~= old(out)@ + escape(s@.take(i as int + 1)));
        }
        i = i + 1;
    }
    proof {
        assert(s@.take(len as int) =~= s@);
    }
}

/// The display-ordered entries grouped by name: one group per run of equal
/// names, each holding the values in display order.
pub open spec fn groups_of(v: Seq<SpecEntry>) -> Seq<(Seq<char>, Seq<Seq<char>>)>
    decreases v.len(),
{
    if v.len() == 0 {
        Seq::empty()
    } else {
        let g = groups_of(v.drop_last());
        let e = v.last();
        if g.len() > 0 && g.last().0 == e.name {
            g.drop_last().push((e.name, g.last().1.push(e.value)))
        } else {
            g.push((e.name, seq![e.value]))
        }
    }
}

/// A JSON string literal.
pub open spec fn json_string(s: Seq<char>) -> Seq<char> {
    seq!['"'] + escape(s) + seq!['"']
}

/// The items of a JSON array of strings, from `k` on, comma separated.
pub open spec fn items_from(vals: Seq<Seq<char>>, k: int) -> Seq<char>
    decreases vals.len() - k,
{
    if k < 0 || k >= vals.len() {
        Seq::empty()
    } else if k == vals.len() - 1 {
        json_string(vals[k])
    } else {
        json_string(vals[k]) + seq![','] + items_from(vals, k + 1)
    }
}

/// How one group's values appear: a single value as a string, repeated values
/// as an array of strings.
pub open spec fn json_value(vals: Seq<Seq<char>>) -> Seq<char> {
    if vals.len() == 1 {
        json_string(vals[0])
    } else {
        seq!['['] + items_from(vals, 0) + seq![']']
    }
}

/// One object member: the name, a colon, the value.
pub open spec fn json_member(g: (Seq<char>, Seq<Seq<char>>)) -> Seq<char> {
    json_string(g.0) + seq![':'] + json_value(g.1)
}

/// The object members from group `k` on, comma separated.
pub open spec fn members_from(gs: Seq<(Seq<char>, Seq<Seq<char>>)>, k: int) -> Seq<char>
    decreases gs.len() - k,
{
    if k < 0 || k >= gs.len() {
        Seq::empty()
    } else if k == gs.len() - 1 {
        json_member(gs[k])
    } else {
        json_member(gs[k]) + seq![','] + members_from(gs, k + 1)
    }
}

/// The whole JSON rendering: one object, keys in display order.
pub open spec fn render_json_spec(v: Seq<SpecEntry>) -> Seq<char> {
    seq!['{'] + members_from(groups_of(v), 0) + seq!['}']
}

/// A character that can stand in one of the emitted hexadecimal escapes.
pub open spec fn is_hex_digit(c: char) -> bool {
    ('0' <= c <= '9') || ('a' <= c <= 'f')
}

/// The value of an emitted hexadecimal digit.
pub open spec fn hex_val(c: char) -> int {
    if '0' <= c <= '9' {
        c as u32 - 48
    } else {
        c as u32 - 87
    }
}

/// Parses the inside of a JSON string literal (after the opening quote) up to
/// and including the closing quote: the decoded text and how many characters
/// were consumed. Handles exactly the escapes the renderer emits.
pub open spec fn parse_string_body(s: Seq<char>) -> Option<(Seq<char>, int)>
    decreases s.len(),
{
    if s.len() == 0 {
        Option::None
    } else if s[0] == '"' {
        Option::Some((Seq::empty(), 1int))
    } else if s[0] == '\\' {
        if s.len() >= 2 && (s[1] == '"' || s[1] == '\\') {
            match parse_string_body(s.skip(2)) {
                Option::None => Option::None,
                Option::Some((v, n)) => Option::Some((seq![s[1]] + v, n + 2)),
            }
        } else if s.len() >= 6 && s[1] == 'u' && s[2] == '0' && s[3] == '0' && is_hex_digit(s[4])
            && is_hex_digit(s[5]) {
            let c = ((hex_val(s[4]) * 16 + hex_val(s[5])) as u32) as char;
            match parse_string_body(s.skip(6)) {
                Option::None => Option::None,
                Option::Some((v, n)) => Option::Some((seq![c] + v, n + 6)),
            }
        } else {
            Option::None
        }
    } else if (s[0] as u32) < 32 {
        Option::None
    } else {
        match parse_string_body(s.skip(1)) {
            Option::None => Option::None,
            Option::Some((v, n)) => Option::Some((seq![s[0]] + v, n + 1)),
        }
    }
}

/// Parses a JSON string literal, opening quote included.
pub open spec fn parse_string(s: Seq<char>) -> Option<(Seq<char>, int)> {
    if s.len() > 0 && s[0] == '"' {
        match parse_string_body(s.skip(1)) {
            Option::None => Option::None,
            Option::Some((v, n)) => Option::Some((v, n + 1)),
        }
    } else {
        Option::None
    }
}

/// Parses the items of an array of strings, up to and including the closing
/// bracket.
pub open spec fn parse_array_items(s: Seq<char>) -> Option<(Seq<Seq<char>>, int)>
    decreases s.len(),
{
    match parse_string(s) {
        Option::None => Option::None,
        Option::Some((v, n)) => {
            if 0 < n < s.len() {
                if s[n] == ',' {
                    match parse_array_items(s.skip(n + 1)) {
                        Option::None => Option::None,
                        Option::Some((vs, m)) => Option::Some((seq![v] + vs, n + 1 + m)),
                    }
                } else if s[n] == ']' {
                    Option::Some((seq![v], n + 1))
                } else {
                    Option::None
                }
            } else {
                Option::None
            }
        },
    }
}

/// Parses a member's value: a string, or an array of strings.
pub open spec fn parse_value(s: Seq<char>) -> Option<(Seq<Seq<char>>, int)> {
    if s.len() == 0 {
        Option::None
    } else if s[0] == '"' {
        match parse_string(s) {
            Option::None => Option::None,
            Option::Some((v, n)) => Option::Some((seq![v], n)),
        }
    } else if s[0] == '[' {
        match parse_array_items(s.skip(1)) {
            Option::None => Option::None,
            Option::Some((vs, n)) => Option::Some((vs, n + 1)),
        }
    } else {
        Option::None
    }
}

/// Parses one object member: a name, a colon, a value.
pub open spec fn parse_member(s: Seq<char>) -> Option<((Seq<char>, Seq<Seq<char>>), int)> {
    match parse_string(s) {
        Option::None => Option::None,
        Option::Some((name, n)) => {
            if 0 < n < s.len() && s[n] == ':' {
                match parse_value(s.skip(n + 1)) {
                    Option::None => Option::None,
                    Option::Some((vals, m)) => {
                        if m >= 1 {
                            Option::Some(((name, vals), n + 1 + m))
                        } else {
                            Option::None
                        }
                    },
                }
            } else {
                Option::None
            }
        },
    }
}

/// Parses the members of an object, up to and including the closing brace.
pub open spec fn parse_members(s: Seq<char>) -> Option<
    (Seq<(Seq<char>, Seq<Seq<char>>)>, int),
>
    decreases s.len(),
{
    match parse_member(s) {
        Option::None => Option::None,
        Option::Some((g, p)) => {
            if 0 < p < s.len() && s[p] == ',' {
                match parse_members(s.skip(p + 1)) {
                    Option::None => Option::None,
                    Option::Some((gs, q)) => Option::Some((seq![g] + gs, p + 1 + q)),
                }
            } else if 0 < p < s.len() && s[p] == '}' {
                Option::Some((seq![g], p + 1))
            } else {
                Option::None
            }
        },
    }
}

/// Parses one whole JSON object of headers: names mapped to a string or to an
/// array of strings, nothing before or after the object.
pub open spec fn parse_json(s: Seq<char>) -> Option<Seq<(Seq<char>, Seq<Seq<char>>)>> {
    if s.len() >= 2 && s[0] == '{' {
        if s.len() == 2 && s[1] == '}' {
            Option::Some(Seq::empty())
        } else {
            match parse_members(s.skip(1)) {
                Option::None => Option::None,
                Option::Some((gs, n)) => {
                    if n == s.len() - 1 {
                        Option::Some(gs)
                    } else {
                        Option::None
                    }
                },
            }
        }
    } else {
        Option::None
    }
}

/// An emitted hexadecimal digit is one, and decodes to its value.
proof fn lemma_hex_digit_round(d: int)
    requires
        0 <= d < 16,
    ensures
        is_hex_digit(hex_digit(d)),
        hex_val(hex_digit(d)) == d,
{
    if d < 10 {
        assert((48 + d) as u8 == 48 + d);
        assert(hex_digit(d) as u32 == 48 + d);
    } else {
        assert((87 + d) as u8 == 87 + d);
        assert(hex_digit(d) as u32 == 87 + d);
    }
}

/// Parsing a string body undoes escaping: whatever follows the closing quote,
/// the body parser recovers exactly the original text and stops at the quote.
proof fn lemma_parse_string_body_escape(v: Seq<char>, rest: Seq<char>)
    ensures
        parse_string_body(escape(v) + seq!['"'] + rest) == Option::Some(
            (v, escape(v).len() + 1int),
        ),
    decreases v.len(),
{
    let s = escape(v) + seq!['"'] + rest;
    if v.len() == 0 {
        assert(escape(v) =~= Seq::<char>::empty());
        assert(s[0] == '"');
        assert(parse_string_body(s) == Option::Some((Seq::<char>::empty(), 1int)));
        assert(v == Seq::<char>::empty());
    } else {
        let c = v[0];
        let tail = v.drop_first();
        lemma_parse_string_body_escape(tail, rest);
        assert(escape(v) == esc_char(c) + escape(tail));
        let inner = escape(tail) + seq!['"'] + rest;
        if c == '"' || c == '\\' {
            assert(esc_char(c) =~= seq!['\\', c]);
            assert(s[0] == '\\');
            assert(s[1] == c);
            assert(s.len() >= 2);
            assert(s.skip(2) =~= inner);
            assert(seq![s[1]] + tail =~= v);
            assert(escape(v).len() == 2 + escape(tail).len());
        } else if (c as u32) < 32 {
            let h1 = hex_digit(((c as u32) / 16) as int);
            let h2 = hex_digit(((c as u32) % 16) as int);
            assert(esc_char(c) =~= seq!['\\', 'u', '0', '0', h1, h2]);
            assert(s[0] == '\\');
            assert(s[1] == 'u');
            assert(s[2] == '0');
            assert(s[3] == '0');
            assert(s[4] == h1);
            assert(s[5] == h2);
            assert(s.len() >= 6);
            lemma_hex_digit_round(((c as u32) / 16) as int);
            lemma_hex_digit_round(((c as u32) % 16) as int);
            assert(s[1] != '"' && s[1] != '\\');
            let decoded_c = ((hex_val(s[4]) * 16 + hex_val(s[5])) as u32) as char;
            assert(hex_val(s[4]) * 16 + hex_val(s[5]) == c as u32) by {
                assert(hex_val(s[4]) == (c as u32) / 16);
                assert(hex_val(s[5]) == (c as u32) % 16);
            }
            assert((hex_val(s[4]) * 16 + hex_val(s[5])) as u32 == c as u32);
            vstd::utf8::char_u32_cast(c, (hex_val(s[4]) * 16 + hex_val(s[5])) as u32);
            assert(decoded_c == c);
            assert(s.skip(6) =~= inner);
            assert(seq![c] + tail =~= v);
            assert(escape(v).len() == 6 + escape(tail).len());
        } else {
            assert(esc_char(c) =~= seq![c]);
            assert(s[0] == c);
            assert(s[0] != '"' && s[0] != '\\');
            assert(!((s[0] as u32) < 32));
            assert(s.skip(1) =~= inner);
            assert(seq![c] + tail =~= v);
            assert(escape(v).len() == 1 + escape(tail).len());
        }
    }
}

/// Parsing a rendered string literal recovers the original text.
proof fn lemma_parse_string_round(v: Seq<char>, rest: Seq<char>)
    ensures
        parse_string(json_string(v) + rest) == Option::Some((v, json_string(v).len() as int)),
        json_string(v).len() >= 2,
{
    let s = json_string(v) + rest;
    assert(s[0] == '"');
    assert(s.len() > 0);
    lemma_parse_string_body_escape(v, rest);
    assert(s.skip(1) =~= escape(v) + seq!['"'] + rest);
}

/// Parsing rendered array items recovers the values from `k` on.
proof fn lemma_parse_items_round(vals: Seq<Seq<char>>, k: int, rest: Seq<char>)
    requires
        0 <= k < vals.len(),
    ensures
        parse_array_items(items_from(vals, k) + seq![']'] + rest) == Option::Some(
            (vals.skip(k), items_from(vals, k).len() + 1int),
        ),
    decreases vals.len() - k,
{
    let s = items_from(vals, k) + seq![']'] + rest;
    if k == vals.len() - 1 {
        lemma_parse_string_round(vals[k], seq![']'] + rest);
        assert(s =~= json_string(vals[k]) + (seq![']'] + rest));
        let n = json_string(vals[k]).len() as int;
        assert(s[n] == ']');
        assert(0 < n < s.len());
        assert(seq![vals[k]] =~= vals.skip(k));
    } else {
        let tail_items = items_from(vals, k + 1) + seq![']'] + rest;
        lemma_parse_string_round(vals[k], seq![','] + tail_items);
        assert(s =~= json_string(vals[k]) + (seq![','] + tail_items));
        let n = json_string(vals[k]).len() as int;
        assert(s[n] == ',');
        assert(0 < n < s.len());
        lemma_parse_items_round(vals, k + 1, rest);
        assert(s.skip(n + 1) =~= tail_items);
        assert(seq![vals[k]] + vals.skip(k + 1) =~= vals.skip(k));
        assert(items_from(vals, k).len() == n + 1 + items_from(vals, k + 1).len());
    }
}

/// Parsing a rendered member value recovers the values.
proof fn lemma_parse_value_round(vals: Seq<Seq<char>>, rest: Seq<char>)
    requires
        vals.len() >= 1,
        rest.len() > 0,
    ensures
        parse_value(json_value(vals) + rest) == Option::Some(
            (vals, json_value(vals).len() as int),
        ),
{
    let s = json_value(vals) + rest;
    if vals.len() == 1 {
        lemma_parse_string_round(vals[0], rest);
        assert(s =~= json_string(vals[0]) + rest);
        assert(s[0] == '"');
        assert(seq![vals[0]] =~= vals);
    } else {
        assert(s[0] == '[');
        lemma_parse_items_round(vals, 0, rest);
        assert(s.skip(1) =~= items_from(vals, 0) + seq![']'] + rest);
        assert(vals.skip(0) =~= vals);
        assert(json_value(vals).len() == 2 + items_from(vals, 0).len());
    }
}

/// Parsing one rendered member recovers the group and stops right before the
/// tail.
proof fn lemma_parse_one_member(name: Seq<char>, vals: Seq<Seq<char>>, tail: Seq<char>)
    requires
        vals.len() >= 1,
        tail.len() > 0,
    ensures
        parse_member(json_member((name, vals)) + tail) == Option::Some(
            ((name, vals), json_member((name, vals)).len() as int),
        ),
        json_member((name, vals)).len() >= 4,
        (json_member((name, vals)) + tail)[json_member((name, vals)).len() as int] == tail[0],
        (json_member((name, vals)) + tail).skip(json_member((name, vals)).len() + 1int)
            =~= tail.skip(1),
{
    let s = json_member((name, vals)) + tail;
    let after_name = seq![':'] + json_value(vals) + tail;
    lemma_parse_string_round(name, after_name);
    assert(s =~= json_string(name) + after_name);
    let n = json_string(name).len() as int;
    assert(s[n] == ':');
    lemma_parse_value_round(vals, tail);
    assert(s.skip(n + 1) =~= json_value(vals) + tail);
    let p = json_member((name, vals)).len() as int;
    assert(p == n + 1 + json_value(vals).len());
    assert(json_value(vals).len() >= 1);
    assert(s[p] == tail[0]);
    assert(s.skip(p + 1) =~= tail.skip(1));
}

/// Parsing rendered members recovers the groups from `k` on.
#[verifier::rlimit(50)]
proof fn lemma_parse_members_round(
    gs: Seq<(Seq<char>, Seq<Seq<char>>)>,
    k: int,
    rest: Seq<char>,
)
    requires
        0 <= k < gs.len(),
        forall|j: int| 0 <= j < gs.len() ==> (#[trigger] gs[j]).1.len() >= 1,
    ensures
        parse_members(members_from(gs, k) + seq!['}'] + rest) == Option::Some(
            (gs.skip(k), members_from(gs, k).len() + 1int),
        ),
    decreases gs.len() - k,
{
    let s = members_from(gs, k) + seq!['}'] + rest;
    let name = gs[k].0;
    let vals = gs[k].1;
    let p = json_member((name, vals)).len() as int;
    if k == gs.len() - 1 {
        let tail = seq!['}'] + rest;
        lemma_parse_one_member(name, vals, tail);
        assert(s =~= json_member((name, vals)) + tail);
        assert(gs[k] == (name, vals));
        assert(s[p] == '}');
        assert(seq![(name, vals)] =~= gs.skip(k));
        assert(members_from(gs, k).len() == p);
    } else {
        let tail_members = members_from(gs, k + 1) + seq!['}'] + rest;
        let tail = seq![','] + tail_members;
        lemma_parse_one_member(name, vals, tail);
        assert(s =~= json_member((name, vals)) + tail);
        assert(gs[k] == (name, vals));
        assert(s[p] == ',');
        lemma_parse_members_round(gs, k + 1, rest);
        assert(s.skip(p + 1) =~= tail_members);
        assert(seq![(name, vals)] + gs.skip(k + 1) =~= gs.skip(k));
        assert(members_from(gs, k).len() == p + 1 + members_from(gs, k + 1).len());
    }
}

/// Every group a grouping produces holds at least one value.
proof fn lemma_groups_vals_nonempty(v: Seq<SpecEntry>)
    ensures
        forall|j: int| 0 <= j < groups_of(v).len() ==> (#[trigger] groups_of(v)[j]).1.len() >= 1,
    decreases v.len(),
{
    if v.len() > 0 {
        lemma_groups_vals_nonempty(v.drop_last());
        let g = groups_of(v.drop_last());
        let e = v.last();
        let r = groups_of(v);
        if g.len() > 0 && g.last().0 == e.name {
            assert forall|j: int| 0 <= j < r.len() implies (#[trigger] r[j]).1.len() >= 1 by {
                if j < r.len() - 1 {
                    assert(r[j] == g[j]);
                } else {
                    assert(r[j].1.len() == g.last().1.len() + 1);
                }
            }
        } else {
            assert forall|j: int| 0 <= j < r.len() implies (#[trigger] r[j]).1.len() >= 1 by {
                if j < r.len() - 1 {
                    assert(r[j] == g[j]);
                } else {
                    assert(r[j].1 =~= seq![e.value]);
                }
            }
        }
    }
}

/// Grouping yields groups exactly when there are entries.
proof fn lemma_groups_len(v: Seq<SpecEntry>)
    ensures
        groups_of(v).len() >= 1 <==> v.len() >= 1,
    decreases v.len(),
{
    if v.len() > 0 {
        lemma_groups_len(v.drop_last());
    }
}

/// One group read back as entries: the name paired with each value, in order.
pub open spec fn expand_group(g: (Seq<char>, Seq<Seq<char>>)) -> Seq<SpecEntry> {
    g.1.map_values(|val: Seq<char>| SpecEntry { name: g.0, value: val })
}

/// Groups read back as the flat entry sequence.
pub open spec fn ungroup(gs: Seq<(Seq<char>, Seq<Seq<char>>)>) -> Seq<SpecEntry>
    decreases gs.len(),
{
    if gs.len() == 0 {
        Seq::empty()
    } else {
        ungroup(gs.drop_last()) + expand_group(gs.last())
    }
}

/// Grouping loses nothing: reading the groups back gives exactly the entries
/// that were grouped, names, values and order alike.
pub proof fn lemma_ungroup(v: Seq<SpecEntry>)
    ensures
        ungroup(groups_of(v)) =~~= v,
    decreases v.len(),
{
    if v.len() > 0 {
        lemma_ungroup(v.drop_last());
        let g = groups_of(v.drop_last());
        let e = v.last();
        let r = groups_of(v);
        if g.len() > 0 && g.last().0 == e.name {
            assert(r =~~= g.drop_last().push((e.name, g.last().1.push(e.value))));
            assert(r.drop_last() =~~= g.drop_last());
            assert(expand_group(r.last()) =~~= expand_group((g.last().0, g.last().1)).push(e));
            assert(g.last() == (g.last().0, g.last().1));
            assert(ungroup(r) =~~= ungroup(g.drop_last()) + expand_group(g.last()).push(e));
            assert(ungroup(g) =~~= ungroup(g.drop_last()) + expand_group(g.last()));
            assert(ungroup(r) =~~= ungroup(g).push(e));
            assert(v =~~= v.drop_last().push(e));
        } else {
            assert(r.drop_last() =~~= g);
            assert(expand_group(r.last()) =~~= seq![e]);
            assert(ungroup(r) =~~= ungroup(g) + seq![e]);
            assert(v =~~= v.drop_last().push(e));
        }
    }
}

/// JSON output round-trips: parsing the rendered object recovers every
/// header name with all its values, grouped by the documented duplicate-name
/// policy (one group per run of equal names, values in display order).
pub proof fn lemma_json_round_trip(v: Seq<SpecEntry>)
    ensures
        parse_json(render_json_spec(v)) == Option::Some(groups_of(v)),
{
    let gs = groups_of(v);
    let s = render_json_spec(v);
    lemma_groups_vals_nonempty(v);
    lemma_groups_len(v);
    if v.len() == 0 {
        assert(gs =~= Seq::<(Seq<char>, Seq<Seq<char>>)>::empty());
        assert(members_from(gs, 0) =~= Seq::<char>::empty());
        assert(s =~= seq!['{', '}']);
        assert(parse_json(s) == Option::Some(Seq::<(Seq<char>, Seq<Seq<char>>)>::empty()));
    } else {
        assert(gs.len() >= 1);
        lemma_parse_members_round(gs, 0, Seq::empty());
        assert(s[0] == '{');
        assert(s.skip(1) =~= members_from(gs, 0) + seq!['}'] + Seq::<char>::empty());
        assert(gs.skip(0) =~= gs);
        assert(s.len() == members_from(gs, 0).len() + 2);
        assert(s.len() >= 2);
        if s.len() == 2 && s[1] == '}' {
            // a lone brace cannot be a member list: members always start with
            // a quote
            assert(members_from(gs, 0).len() == 0);
            assert(json_member(gs[0]).len() >= 2);
            assert(false);
        }
    }
}

/// One escaped character holds no escape character: the dangerous characters
/// are exactly the ones escaping rewrites.
proof fn lemma_esc_char_esc_free(c: char)
    ensures
        crate::render::esc_free(esc_char(c)),
{
    assert('\u{1b}' as u32 == 27);
    if c == '"' || c == '\\' {
        assert(esc_char(c) =~= seq!['\\', c]);
    } else if (c as u32) < 32 {
        let h1 = hex_digit(((c as u32) / 16) as int);
        let h2 = hex_digit(((c as u32) % 16) as int);
        assert(h1 as u32 == 48 + (c as u32) / 16 || h1 as u32 == 87 + (c as u32) / 16);
        assert(h2 as u32 == 48 + (c as u32) % 16 || h2 as u32 == 87 + (c as u32) % 16);
        assert(h1 != '\u{1b}');
        assert(h2 != '\u{1b}');
        assert(esc_char(c) =~= seq!['\\', 'u', '0', '0', h1, h2]);
    } else {
        assert(c as u32 != 27);
        vstd::utf8::char_u32_cast(c, c as u32);
        assert(c != '\u{1b}');
        assert(esc_char(c) =~= seq![c]);
    }
}

/// An escaped string holds no escape character, whatever was in the original.
proof fn lemma_escape_esc_free(s: Seq<char>)
    ensures
        crate::render::esc_free(escape(s)),
    decreases s.len(),
{
    if s.len() == 0 {
    } else {
        lemma_esc_char_esc_free(s[0]);
        lemma_escape_esc_free(s.drop_first());
        crate::render::lemma_esc_free_app(esc_char(s[0]), escape(s.drop_first()));
    }
}

/// A rendered string literal holds no escape character.
proof fn lemma_json_string_esc_free(s: Seq<char>)
    ensures
        crate::render::esc_free(json_string(s)),
{
    lemma_escape_esc_free(s);
    assert(crate::render::esc_free(seq!['"']));
    crate::render::lemma_esc_free_app(seq!['"'], escape(s));
    crate::render::lemma_esc_free_app(seq!['"'] + escape(s), seq!['"']);
}

/// Rendered array items hold no escape character.
proof fn lemma_items_esc_free(vals: Seq<Seq<char>>, k: int)
    ensures
        crate::render::esc_free(items_from(vals, k)),
    decreases vals.len() - k,
{
    if k < 0 || k >= vals.len() {
    } else if k == vals.len() - 1 {
        lemma_json_string_esc_free(vals[k]);
    } else {
        lemma_json_string_esc_free(vals[k]);
        lemma_items_esc_free(vals, k + 1);
        crate::render::lemma_esc_free_app(json_string(vals[k]), seq![',']);
        crate::render::lemma_esc_free_app(json_string(vals[k]) + seq![','], items_from(vals, k + 1));
    }
}

/// A rendered member holds no escape character.
proof fn lemma_member_esc_free(g: (Seq<char>, Seq<Seq<char>>))
    ensures
        crate::render::esc_free(json_member(g)),
{
    lemma_json_string_esc_free(g.0);
    if g.1.len() == 1 {
        lemma_json_string_esc_free(g.1[0]);
    } else {
        lemma_items_esc_free(g.1, 0);
        crate::render::lemma_esc_free_app(seq!['['], items_from(g.1, 0));
        crate::render::lemma_esc_free_app(seq!['['] + items_from(g.1, 0), seq![']']);
    }
    crate::render::lemma_esc_free_app(json_string(g.0), seq![':']);
    crate::render::lemma_esc_free_app(json_string(g.0) + seq![':'], json_value(g.1));
}

/// Rendered members hold no escape character.
proof fn lemma_members_esc_free(gs: Seq<(Seq<char>, Seq<Seq<char>>)>, k: int)
    ensures
        crate::render::esc_free(members_from(gs, k)),
    decreases gs.len() - k,
{
    if k < 0 || k >= gs.len() {
    } else if k == gs.len() - 1 {
        lemma_member_esc_free(gs[k]);
    } else {
        lemma_member_esc_free(gs[k]);
        lemma_members_esc_free(gs, k + 1);
        crate::render::lemma_esc_free_app(json_member(gs[k]), seq![',']);
        crate::render::lemma_esc_free_app(json_member(gs[k]) + seq![','], members_from(gs, k + 1));
    }
}

/// JSON output never holds a color escape sequence, whatever the headers
/// hold: JSON and color are mutually exclusive by construction, since every
/// control character is escaped.
pub proof fn lemma_json_never_escapes(v: Seq<SpecEntry>)
    ensures
        crate::render::esc_free(render_json_spec(v)),
{
    lemma_members_esc_free(groups_of(v), 0);
    crate::render::lemma_esc_free_app(seq!['{'], members_from(groups_of(v), 0));
    crate::render::lemma_esc_free_app(seq!['{'] + members_from(groups_of(v), 0), seq!['}']);
}

/// The shape of a built group.
pub open spec fn gview(p: (String, Vec<String>)) -> (Seq<char>, Seq<Seq<char>>) {
    (p.0@, p.1.deep_view())
}

/// The shape of the built group list.
pub open spec fn gviews(s: Seq<(String, Vec<String>)>) -> Seq<(Seq<char>, Seq<Seq<char>>)> {
    s.map_values(|p: (String, Vec<String>)| gview(p))
}

/// Groups the display-ordered entries by name, preserving value order.
fn build_groups(entries: &Vec<HeaderEntry>) -> (r: Vec<(String, Vec<String>)>)
    ensures
        gviews(r@) == groups_of(entries.deep_view()),
{
    let ghost v = entries.deep_view();
    let mut groups: Vec<(String, Vec<String>)> = Vec::new();
    let mut i: usize = 0;
    proof {
        assert(v.take(0) =~= Seq::<SpecEntry>::empty());
        assert(gviews(groups@) =~~= groups_of(v.take(0)));
    }
    while i < entries.len()
        invariant
            i <= entries@.len(),
            v == entries.deep_view(),
            v.len() == entries@.len(),
            gviews(groups@) =~~= groups_of(v.take(i as int)),
        decreases entries@.len() - i,
    {
        let ghost pre = gviews(groups@);
        let e = &entries[i];
        assert(v[i as int] == e@);
        let matches_last = if groups.len() > 0 {
            let last = &groups[groups.len() - 1];
            last.0 == e.name
        } else {
            false
        };
        if matches_last {
            let mut last = groups.pop().unwrap();
            last.1.push(e.value.clone());
            groups.push(last);
            proof {
                assert(gviews(groups@) =~~= pre.drop_last().push(
                    (pre.last().0, pre.last().1.push(e.value@)),
                ));
            }
        } else {
            let mut vals: Vec<String> = Vec::new();
            vals.push(e.value.clone());
            groups.push((e.name.clone(), vals));
            proof {
                assert(gviews(groups@) =~~= pre.push((e.name@, seq![e.value@])));
            }
        }
        proof {
            assert(v.take(i as int + 1).drop_last() =~= v.take(i as int));
            assert(v.take(i as int + 1).last() == v[i as int]);
            assert(gviews(groups@) =~~= groups_of(v.take(i as int + 1)));
        }
        i = i + 1;
    }
    proof {
        assert(v.take(v.len() as int) =~= v);
    }
    groups
}

/// Appends one JSON string literal.
fn append_json_string(out: &mut String, s: &str)
    ensures
        final(out)@ == old(out)@ + json_string(s@),
{
    push_char(out, '"');
    append_escaped(out, s);
    push_char(out, '"');
    proof {
        assert(final(out)@ =~= old(out)@ + json_string(s@));
    }
}

/// Renders the display-ordered entries as one JSON object. Keys follow the
/// display order; a repeated name becomes an array of its values, so no value
/// is lost.
pub fn render_json(entries: &Vec<HeaderEntry>) -> (r: String)
    ensures
        r@ == render_json_spec(entries.deep_view()),
{
    let groups = build_groups(entries);
    let ghost gs = gviews(groups@);
    let mut out = String::new();
    push_char(&mut out, '{');
    let mut k: usize = 0;
    proof {
        assert(out@ + members_from(gs, 0) =~= seq!['{'] + members_from(gs, 0));
    }
    while k < groups.len()
        invariant
            k <= groups@.len(),
            gs == gviews(groups@),
            gs.len() == groups@.len(),
            out@ + members_from(gs, k as int) =~= seq!['{'] + members_from(gs, 0),
        decreases groups@.len() - k,
    {
        let ghost pre = out@;
        let g = &groups[k];
        assert(gs[k as int] == gview(*g));
        append_json_string(&mut out, g.0.as_str());
        push_char(&mut out, ':');
        if g.1.len() == 1 {
            append_json_string(&mut out, g.1[0].as_str());
            assert(gs[k as int].1[0] == g.1@[0]@);
        } else {
            push_char(&mut out, '[');
            let ghost vals = gs[k as int].1;
            let mut t: usize = 0;
            let ghost mid = out@;
            while t < g.1.len()
                invariant
                    t <= g.1@.len(),
                    vals == gview(*g).1,
                    vals.len() == g.1@.len(),
                    out@ + items_from(vals, t as int) =~= mid + items_from(vals, 0),
                decreases g.1@.len() - t,
            {
                let ghost pre_item = out@;
                append_json_string(&mut out, g.1[t].as_str());
                assert(vals[t as int] == g.1@[t as int]@);
                if t + 1 < g.1.len() {
                    push_char(&mut out, ',');
                }
                proof {
                    if t as int == vals.len() - 1 {
                        assert(items_from(vals, t as int) =~= json_string(vals[t as int]));
                    } else {
                        assert(items_from(vals, t as int) =~= json_string(vals[t as int]) + seq![
                            ',',
                        ] + items_from(vals, t as int + 1));
                    }
                    assert(out@ + items_from(vals, t as int + 1) =~= mid + items_from(vals, 0));
                }
                t = t + 1;
            }
            push_char(&mut out, ']');
            proof {
                assert(items_from(vals, vals.len() as int) =~= Seq::<char>::empty());
                assert(out@ =~= mid + items_from(vals, 0) + seq![']']);
            }
        }
        proof {
            assert(out@ =~= pre + json_member(gs[k as int]));
            if k as int == gs.len() - 1 {
                assert(members_from(gs, k as int) =~= json_member(gs[k as int]));
            } else {
                assert(members_from(gs, k as int) =~= json_member(gs[k as int]) + seq![',']
                    + members_from(gs, k as int + 1));
            }
        }
        if k + 1 < groups.len() {
            push_char(&mut out, ',');
        }
        proof {
            assert(out@ + members_from(gs, k as int + 1) =~= seq!['{'] + members_from(gs, 0));
        }
        k = k + 1;
    }
    push_char(&mut out, '}');
    proof {
        assert(members_from(gs, gs.len() as int) =~= Seq::<char>::empty());
        assert(out@ =~= render_json_spec(entries.deep_view()));
    }
    out
}

} // verus!
