//! Laws relating the serializer and the parser.
//!
//! The main result is the round trip: parsing the serialized text of a
//! well-formed JSON value gives back exactly that value. This is what lets
//! a caller conclude that a transport which echoes the request body yields
//! a response equal to the payload that was sent: nothing is mutated on the
//! way through.

use crate::json::{
    dec_digits, dec_int, esc_char, esc_text, hex_digit, ser, ser_field, ser_fields, ser_items,
    JsonVal,
};
use crate::parse::{
    digits_end, exp_end, frac_end, hex_val, int_end, is_digit, is_json_ws, is_scalar, number_end,
    parse_elems, parse_json, parse_members, parse_string_body, parse_value, unescape_short, ws_end,
};
use vstd::prelude::*;

verus! {

/// Whether a character could extend a JSON number if it followed one.
pub open spec fn num_cont(c: char) -> bool {
    is_digit(c) || c == '.' || c == 'e' || c == 'E' || c == '+' || c == '-'
}

/// Whether `t` is exactly the text of one JSON number.
pub open spec fn is_number_text(t: Seq<char>) -> bool {
    t.len() > 0 && number_end(t, 0) == Some(t.len() as int)
}

/// A well-formed JSON value: every number it holds carries number text.
pub open spec fn wf(v: JsonVal) -> bool
    decreases v,
{
    match v {
        JsonVal::Null => true,
        JsonVal::Bool(_) => true,
        JsonVal::Number(t) => is_number_text(t),
        JsonVal::Text(_) => true,
        JsonVal::Array(items) => forall|i: int| 0 <= i < items.len() ==> wf(#[trigger] items[i]),
        JsonVal::Object(fields) => forall|i: int|
            0 <= i < fields.len() ==> wf(#[trigger] fields[i].1),
    }
}

/// A digit run embedded in `s` ends where it ends in `t`.
proof fn lemma_digits_end_embed(t: Seq<char>, s: Seq<char>, i: int, a: int)
    requires
        0 <= i,
        i + t.len() <= s.len(),
        s.subrange(i, i + t.len() as int) == t,
        0 <= a <= t.len(),
        digits_end(t, a) == t.len() ==> (i + t.len() == s.len() || !is_digit(
            s[i + t.len() as int],
        )),
    ensures
        digits_end(s, i + a) == i + digits_end(t, a),
    decreases t.len() - a,
{
    if a < t.len() {
        assert(s[i + a] == t[a]);
        if is_digit(t[a]) {
            lemma_digits_end_embed(t, s, i, a + 1);
        }
    }
}

/// A number embedded in `s`, followed by nothing that could extend a
/// number, ends where the standalone text ends.
proof fn lemma_number_end_embed(t: Seq<char>, s: Seq<char>, i: int)
    requires
        is_number_text(t),
        0 <= i,
        i + t.len() <= s.len(),
        s.subrange(i, i + t.len() as int) == t,
        i + t.len() == s.len() || !num_cont(s[i + t.len() as int]),
    ensures
        number_end(s, i) == Some(i + t.len() as int),
{
    let n = t.len() as int;
    assert forall|a: int| 0 <= a < n implies s[i + a] == t[a] by {
        assert(s.subrange(i, i + n)[a] == t[a]);
    }
    let j = if t[0] == '-' {
        1int
    } else {
        0int
    };
    assert(s[i + 0] == t[0]);
    let k = int_end(t, j)->0;
    assert(int_end(t, j) is Some);
    // The integer part translates.
    if t[j] == '0' {
        assert(int_end(s, i + j) == Some(i + j + 1));
    } else {
        lemma_digits_end_embed(t, s, i, j);
        assert(int_end(s, i + j) == Some(i + k));
    }
    assert(int_end(s, i + j) == Some(i + k));
    // The fraction part translates.
    let m = frac_end(t, k)->0;
    assert(frac_end(t, k) is Some);
    if k < n && t[k] == '.' {
        assert(k + 1 < n && is_digit(t[k + 1]));
        lemma_digits_end_embed(t, s, i, k + 1);
        assert(frac_end(s, i + k) == Some(i + m));
    } else {
        if k < n {
            assert(s[i + k] == t[k]);
        }
        assert(frac_end(s, i + k) == Some(i + k));
    }
    assert(frac_end(s, i + k) == Some(i + m));
    // The exponent part translates.
    assert(exp_end(t, m) == Some(n));
    if m < n && (t[m] == 'e' || t[m] == 'E') {
        let j2 = if m + 1 < n && (t[m + 1] == '+' || t[m + 1] == '-') {
            m + 2
        } else {
            m + 1
        };
        assert(j2 < n && is_digit(t[j2]));
        lemma_digits_end_embed(t, s, i, j2);
        assert(exp_end(s, i + m) == Some(i + n));
    } else {
        if m < n {
            assert(s[i + m] == t[m]);
        }
        assert(m == n);
        assert(exp_end(s, i + m) == Some(i + m));
    }
    assert(number_end(s, i) == Some(i + n));
}

/// Reading back the character that stands for a hexadecimal digit value
/// gives that value.
proof fn lemma_hex_digit_val(n: nat)
    requires
        n < 16,
    ensures
        hex_val(hex_digit(n)) == Some(n),
{
}

/// An escaped string body embedded in `s` and followed by a quote parses
/// back to exactly the original characters.
proof fn lemma_parse_esc(t: Seq<char>, s: Seq<char>, i: int)
    requires
        0 <= i,
        i + esc_text(t).len() < s.len(),
        s.subrange(i, i + esc_text(t).len() as int) == esc_text(t),
        s[i + esc_text(t).len() as int] == '"',
    ensures
        parse_string_body(s, i) == Some((t, i + esc_text(t).len() + 1)),
    decreases t.len(),
{
    let e = esc_text(t);
    assert forall|a: int| 0 <= a < e.len() implies s[i + a] == e[a] by {
        assert(s.subrange(i, i + e.len() as int)[a] == e[a]);
    }
    if t.len() == 0 {
        assert(s[i] == '"');
    } else {
        let c = t[0];
        let e0 = esc_char(c);
        let rest = esc_text(t.drop_first());
        assert(e == e0 + rest);
        assert forall|a: int| 0 <= a < rest.len() implies s.subrange(
            i + e0.len(),
            i + e.len() as int,
        )[a] == rest[a] by {
            assert(s[i + e0.len() + a] == e[e0.len() + a]);
            assert(e[e0.len() + a] == rest[a]);
        }
        assert(s.subrange(i + e0.len(), i + e.len() as int) =~= rest);
        lemma_parse_esc(t.drop_first(), s, i + e0.len() as int);
        assert(seq![c] + t.drop_first() =~= t);
        let u = c as u32;
        if c == '"' || c == '\\' || c == '\n' || c == '\r' || c == '\t' || c == '\u{8}' || c
            == '\u{c}' {
            assert(e0.len() == 2);
            assert(s[i + 0] == e[0] && s[i + 1] == e[1]);
            assert(e[0] == e0[0] && e[1] == e0[1]);
            assert(s[i] == '\\');
            assert(unescape_short(e0[1]) == Some(c));
            assert(parse_string_body(s, i) == Some((t, i + e.len() + 1)));
        } else if u < 32 {
            assert(e0.len() == 6);
            assert(s[i + 0] == e[0] && s[i + 1] == e[1] && s[i + 2] == e[2] && s[i + 3] == e[3]
                && s[i + 4] == e[4] && s[i + 5] == e[5]);
            assert(e[0] == e0[0] && e[1] == e0[1] && e[2] == e0[2] && e[3] == e0[3] && e[4]
                == e0[4] && e[5] == e0[5]);
            assert(s[i] == '\\' && s[i + 1] == 'u');
            assert(s[i + 2] == '0' && s[i + 3] == '0');
            assert(s[i + 4] == hex_digit((u / 16) as nat));
            assert(s[i + 5] == hex_digit((u % 16) as nat));
            lemma_hex_digit_val((u / 16) as nat);
            lemma_hex_digit_val((u % 16) as nat);
            assert(hex_val(s[i + 2]) == Some(0nat));
            let a = hex_val(s[i + 2])->0;
            let b = hex_val(s[i + 3])->0;
            let cc = hex_val(s[i + 4])->0;
            let d = hex_val(s[i + 5])->0;
            assert(a * 4096 + b * 256 + cc * 16 + d == u);
            assert(is_scalar(u as nat));
            vstd::utf8::char_u32_cast(c, u);
            assert(((u as nat) as u32) as char == c);
            assert(parse_string_body(s, i) == Some((t, i + e.len() + 1)));
        } else {
            assert(e0 == seq![c]);
            assert(s[i] == e[0]);
            assert(e[0] == e0[0]);
            assert(s[i] == c);
            assert(parse_string_body(s, i) == Some((t, i + e.len() + 1)));
        }
    }
}

/// The characters on which the value parser is willing to start a value.
pub open spec fn starts_value(c: char) -> bool {
    c == 'n' || c == 't' || c == 'f' || c == '"' || c == '[' || c == '{' || c == '-' || is_digit(c)
}

/// Serialized text is never empty and opens with a character that starts a
/// value (so never with whitespace or a delimiter).
proof fn lemma_ser_first(v: JsonVal)
    requires
        wf(v),
    ensures
        ser(v).len() > 0,
        starts_value(ser(v)[0]),
        !is_json_ws(ser(v)[0]),
{
    match v {
        JsonVal::Number(t) => {
            assert(int_end(t, if t[0] == '-' { 1int } else { 0int }) is Some);
            assert(t[0] == '-' || is_digit(t[0]));
        },
        JsonVal::Text(t) => {
            assert(ser(v)[0] == '"');
        },
        _ => {},
    }
}

/// The serialized text of a well-formed value, embedded in `s` and followed
/// by nothing that could extend a number, parses back to exactly that value.
pub proof fn lemma_parse_ser(v: JsonVal, s: Seq<char>, i: int)
    requires
        wf(v),
        0 <= i,
        i + ser(v).len() <= s.len(),
        s.subrange(i, i + ser(v).len() as int) == ser(v),
        i + ser(v).len() == s.len() || !num_cont(s[i + ser(v).len() as int]),
    ensures
        parse_value(s, i) == Some((v, i + ser(v).len() as int)),
    decreases v,
{
    let e = ser(v);
    assert forall|a: int| 0 <= a < e.len() implies s[i + a] == e[a] by {
        assert(s.subrange(i, i + e.len() as int)[a] == e[a]);
    }
    lemma_ser_first(v);
    assert(s[i + 0] == e[0]);
    match v {
        JsonVal::Null => {
            assert(s[i + 1] == e[1] && s[i + 2] == e[2] && s[i + 3] == e[3]);
        },
        JsonVal::Bool(b) => {
            if b {
                assert(s[i + 1] == e[1] && s[i + 2] == e[2] && s[i + 3] == e[3]);
            } else {
                assert(s[i + 1] == e[1] && s[i + 2] == e[2] && s[i + 3] == e[3] && s[i + 4]
                    == e[4]);
            }
        },
        JsonVal::Number(t) => {
            lemma_number_end_embed(t, s, i);
            assert(s.subrange(i, i + t.len() as int) == t);
            assert(parse_value(s, i) == Some((JsonVal::Number(t), i + t.len() as int)));
        },
        JsonVal::Text(t) => {
            let esc = esc_text(t);
            assert(s[i] == '"');
            assert forall|a: int| 0 <= a < esc.len() implies s.subrange(
                i + 1,
                i + 1 + esc.len() as int,
            )[a] == esc[a] by {
                assert(s[i + (1 + a)] == e[1 + a]);
                assert(e[1 + a] == esc[a]);
            }
            assert(s.subrange(i + 1, i + 1 + esc.len() as int) =~= esc);
            assert(s[i + (1 + esc.len())] == e[1 + esc.len() as int]);
            assert(e[1 + esc.len() as int] == '"');
            lemma_parse_esc(t, s, i + 1);
        },
        JsonVal::Array(items) => {
            assert(s[i] == '[');
            let inner = ser_items(items);
            assert(s[i + (1 + inner.len())] == e[1 + inner.len() as int]);
            assert(e[1 + inner.len() as int] == ']');
            if items.len() == 0 {
                assert(s[i + 1] == e[1] && e[1] == ']');
                assert(ws_end(s, i + 1) == i + 1);
                assert(items =~= Seq::<JsonVal>::empty());
            } else {
                assert forall|a: int| 0 <= a < inner.len() implies s.subrange(
                    i + 1,
                    i + 1 + inner.len() as int,
                )[a] == inner[a] by {
                    assert(s[i + (1 + a)] == e[1 + a]);
                    assert(e[1 + a] == inner[a]);
                }
                assert(s.subrange(i + 1, i + 1 + inner.len() as int) =~= inner);
                lemma_ser_first(items[0]);
                assert(inner[0] == ser(items[0])[0]);
                assert(s[i + 1] == e[1] && e[1] == inner[0]);
                assert(ws_end(s, i + 1) == i + 1);
                lemma_parse_ser_items(items, s, i + 1);
            }
        },
        JsonVal::Object(fields) => {
            assert(s[i] == '{');
            let inner = ser_fields(fields);
            assert(s[i + (1 + inner.len())] == e[1 + inner.len() as int]);
            assert(e[1 + inner.len() as int] == '}');
            if fields.len() == 0 {
                assert(s[i + 1] == e[1] && e[1] == '}');
                assert(ws_end(s, i + 1) == i + 1);
                assert(fields =~= Seq::<(Seq<char>, JsonVal)>::empty());
            } else {
                assert forall|a: int| 0 <= a < inner.len() implies s.subrange(
                    i + 1,
                    i + 1 + inner.len() as int,
                )[a] == inner[a] by {
                    assert(s[i + (1 + a)] == e[1 + a]);
                    assert(e[1 + a] == inner[a]);
                }
                assert(s.subrange(i + 1, i + 1 + inner.len() as int) =~= inner);
                assert(inner[0] == ser_field(fields[0])[0]);
                assert(ser_field(fields[0])[0] == '"');
                assert(s[i + 1] == e[1] && e[1] == inner[0]);
                assert(ws_end(s, i + 1) == i + 1);
                lemma_parse_ser_fields(fields, s, i + 1);
            }
        },
    }
}

/// The serialized elements of a non-empty array, embedded in `s` and
/// followed by the closing bracket, parse back to exactly those elements.
proof fn lemma_parse_ser_items(items: Seq<JsonVal>, s: Seq<char>, p: int)
    requires
        items.len() > 0,
        forall|k: int| 0 <= k < items.len() ==> wf(#[trigger] items[k]),
        0 <= p,
        p + ser_items(items).len() < s.len(),
        s.subrange(p, p + ser_items(items).len() as int) == ser_items(items),
        s[p + ser_items(items).len() as int] == ']',
    ensures
        parse_elems(s, p) == Some((items, p + ser_items(items).len() + 1)),
    decreases items,
{
    let e = ser_items(items);
    assert forall|a: int| 0 <= a < e.len() implies s[p + a] == e[a] by {
        assert(s.subrange(p, p + e.len() as int)[a] == e[a]);
    }
    let v0 = items[0];
    let e0 = ser(v0);
    if items.len() == 1 {
        assert(e == e0);
        lemma_parse_ser(v0, s, p);
        let j = p + e0.len();
        assert(s[j] == ']');
        assert(ws_end(s, j) == j);
        assert(seq![v0] =~= items);
    } else {
        let rest = ser_items(items.drop_first());
        assert(e == e0 + seq![','] + rest);
        assert forall|a: int| 0 <= a < e0.len() implies s.subrange(p, p + e0.len() as int)[a]
            == e0[a] by {
            assert(s[p + a] == e[a]);
            assert(e[a] == e0[a]);
        }
        assert(s.subrange(p, p + e0.len() as int) =~= e0);
        assert(s[p + e0.len() as int] == e[e0.len() as int]);
        assert(e[e0.len() as int] == ',');
        lemma_parse_ser(v0, s, p);
        let j = p + e0.len();
        assert(ws_end(s, j) == j);
        let k = j + 1;
        assert forall|a: int| 0 <= a < rest.len() implies s.subrange(
            k,
            k + rest.len() as int,
        )[a] == rest[a] by {
            assert(s[p + (e0.len() as int + 1 + a)] == e[e0.len() as int + 1 + a]);
            assert(e[e0.len() as int + 1 + a] == rest[a]);
        }
        assert(s.subrange(k, k + rest.len() as int) =~= rest);
        assert(s[k + rest.len() as int] == ']');
        assert(items.drop_first().len() > 0);
        lemma_ser_first(items.drop_first()[0]);
        assert(rest[0] == ser(items.drop_first()[0])[0]);
        assert(s[k + 0] == e[e0.len() as int + 1] && e[e0.len() as int + 1] == rest[0]);
        assert(ws_end(s, k) == k);
        lemma_parse_ser_items(items.drop_first(), s, k);
        assert(seq![v0] + items.drop_first() =~= items);
    }
}

/// The serialized members of a non-empty object, embedded in `s` and
/// followed by the closing brace, parse back to exactly those members.
proof fn lemma_parse_ser_fields(fields: Seq<(Seq<char>, JsonVal)>, s: Seq<char>, p: int)
    requires
        fields.len() > 0,
        forall|k: int| 0 <= k < fields.len() ==> wf(#[trigger] fields[k].1),
        0 <= p,
        p + ser_fields(fields).len() < s.len(),
        s.subrange(p, p + ser_fields(fields).len() as int) == ser_fields(fields),
        s[p + ser_fields(fields).len() as int] == '}',
    ensures
        parse_members(s, p) == Some((fields, p + ser_fields(fields).len() + 1)),
    decreases fields,
{
    let e = ser_fields(fields);
    assert forall|a: int| 0 <= a < e.len() implies s[p + a] == e[a] by {
        assert(s.subrange(p, p + e.len() as int)[a] == e[a]);
    }
    let f0 = fields[0];
    let e0 = ser_field(f0);
    assert forall|a: int| 0 <= a < e0.len() implies s[p + a] == e0[a] by {
        if fields.len() == 1 {
            assert(e == e0);
        } else {
            assert(e == e0 + seq![','] + ser_fields(fields.drop_first()));
            assert(e[a] == e0[a]);
        }
    }
    // The key parses back.
    let esc = esc_text(f0.0);
    assert(e0 == seq!['"'] + esc + seq!['"', ':'] + ser(f0.1));
    assert(s[p + 0] == e0[0] && e0[0] == '"');
    assert forall|a: int| 0 <= a < esc.len() implies s.subrange(
        p + 1,
        p + 1 + esc.len() as int,
    )[a] == esc[a] by {
        assert(s[p + (1 + a)] == e0[1 + a]);
        assert(e0[1 + a] == esc[a]);
    }
    assert(s.subrange(p + 1, p + 1 + esc.len() as int) =~= esc);
    assert(s[p + (1 + esc.len())] == e0[1 + esc.len() as int] && e0[1 + esc.len() as int] == '"');
    lemma_parse_esc(f0.0, s, p + 1);
    let jk = p + 1 + esc.len() + 1;
    assert(parse_string_body(s, p + 1) == Some((f0.0, jk)));
    // The colon follows at once, then the value.
    assert(s[p + (2 + esc.len())] == e0[2 + esc.len() as int] && e0[2 + esc.len() as int] == ':');
    assert(ws_end(s, jk) == jk);
    let vk = jk + 1;
    let ev = ser(f0.1);
    assert forall|a: int| 0 <= a < ev.len() implies s.subrange(vk, vk + ev.len() as int)[a]
        == ev[a] by {
        assert(s[p + (3 + esc.len() + a)] == e0[3 + esc.len() as int + a]);
        assert(e0[3 + esc.len() as int + a] == ev[a]);
    }
    assert(s.subrange(vk, vk + ev.len() as int) =~= ev);
    lemma_ser_first(f0.1);
    assert(s[vk + 0] == e0[3 + esc.len() as int] && e0[3 + esc.len() as int] == ev[0]);
    assert(ws_end(s, jk + 1) == vk);
    let j3 = vk + ev.len();
    assert(j3 == p + e0.len());
    if fields.len() == 1 {
        assert(e == e0);
        assert(s[j3] == '}');
        lemma_parse_ser(f0.1, s, vk);
        assert(ws_end(s, j3) == j3);
        assert((f0.0, f0.1) == f0);
        assert(seq![(f0.0, f0.1)] =~= fields);
    } else {
        let rest = ser_fields(fields.drop_first());
        assert(e == e0 + seq![','] + rest);
        assert(s[p + e0.len() as int] == e[e0.len() as int] && e[e0.len() as int] == ',');
        lemma_parse_ser(f0.1, s, vk);
        assert(ws_end(s, j3) == j3);
        let k = j3 + 1;
        assert forall|a: int| 0 <= a < rest.len() implies s.subrange(
            k,
            k + rest.len() as int,
        )[a] == rest[a] by {
            assert(s[p + (e0.len() as int + 1 + a)] == e[e0.len() as int + 1 + a]);
            assert(e[e0.len() as int + 1 + a] == rest[a]);
        }
        assert(s.subrange(k, k + rest.len() as int) =~= rest);
        assert(s[k + rest.len() as int] == '}');
        assert(fields.drop_first().len() > 0);
        assert(rest[0] == ser_field(fields.drop_first()[0])[0]);
        assert(ser_field(fields.drop_first()[0])[0] == '"');
        assert(s[k + 0] == e[e0.len() as int + 1] && e[e0.len() as int + 1] == rest[0]);
        assert(ws_end(s, k) == k);
        lemma_parse_ser_fields(fields.drop_first(), s, k);
        assert((f0.0, f0.1) == f0);
        assert(seq![(f0.0, f0.1)] + fields.drop_first() =~= fields);
    }
}

/// A digit run never moves backwards and never passes the end.
proof fn lemma_digits_end_ge(s: Seq<char>, a: int)
    requires
        0 <= a <= s.len(),
    ensures
        a <= digits_end(s, a) <= s.len(),
    decreases s.len() - a,
{
    if a < s.len() && is_digit(s[a]) {
        lemma_digits_end_ge(s, a + 1);
    }
}

/// A digit run that stays inside an excerpt ends at the same place in the
/// excerpt.
proof fn lemma_digits_end_restrict(s: Seq<char>, i: int, j: int, a: int)
    requires
        0 <= i <= a <= j <= s.len(),
        digits_end(s, a) <= j,
    ensures
        digits_end(s.subrange(i, j), a - i) == digits_end(s, a) - i,
    decreases j - a,
{
    let t = s.subrange(i, j);
    lemma_digits_end_ge(s, a);
    if a < j {
        assert(t[a - i] == s[a]);
        if is_digit(s[a]) {
            lemma_digits_end_restrict(s, i, j, a + 1);
        }
    }
}

/// A number found inside a larger text is the text of one JSON number on
/// its own, and it is never empty.
pub proof fn lemma_number_end_restrict(s: Seq<char>, i: int, j: int)
    requires
        0 <= i <= s.len(),
        number_end(s, i) == Some(j),
    ensures
        i < j <= s.len(),
        is_number_text(s.subrange(i, j)),
{
    let t = s.subrange(i, j);
    let a = if i < s.len() && s[i] == '-' {
        i + 1
    } else {
        i
    };
    let k = int_end(s, a)->0;
    assert(int_end(s, a) is Some);
    assert(a < s.len() && (s[a] == '0' || is_digit(s[a])));
    if s[a] == '0' {
        assert(k == a + 1);
    } else {
        lemma_digits_end_ge(s, a + 1);
        assert(k == digits_end(s, a));
        assert(digits_end(s, a) == digits_end(s, a + 1));
        assert(k >= a + 1);
    }
    assert(a + 1 <= k <= s.len());
    let m = frac_end(s, k)->0;
    assert(frac_end(s, k) is Some);
    if k < s.len() && s[k] == '.' {
        assert(k + 1 < s.len() && is_digit(s[k + 1]));
        lemma_digits_end_ge(s, k + 2);
        assert(m == digits_end(s, k + 1));
        assert(digits_end(s, k + 1) == digits_end(s, k + 2));
        assert(k + 2 <= m <= s.len());
    } else {
        assert(m == k);
    }
    assert(exp_end(s, m) == Some(j));
    if m < s.len() && (s[m] == 'e' || s[m] == 'E') {
        let a2 = if m + 1 < s.len() && (s[m + 1] == '+' || s[m + 1] == '-') {
            m + 2
        } else {
            m + 1
        };
        lemma_digits_end_ge(s, a2 + 1);
        assert(a2 < s.len() && is_digit(s[a2]));
        assert(j == digits_end(s, a2));
        assert(digits_end(s, a2) == digits_end(s, a2 + 1));
        assert(a2 + 1 <= j <= s.len());
    } else {
        assert(j == m);
    }
    assert(i < j <= s.len());
    // Now walk the same pieces inside the excerpt.
    assert forall|b: int| 0 <= b < j - i implies t[b] == s[i + b] by {
        assert(s.subrange(i, j)[b] == s[i + b]);
    }
    assert(t[0] == s[i]);
    if s[i] == '-' {
        assert(a == i + 1);
    }
    // The integer part.
    assert(t[a - i] == s[a]);
    if s[a] == '0' {
        assert(int_end(t, a - i) == Some(k - i));
    } else {
        lemma_digits_end_restrict(s, i, j, a);
        assert(int_end(t, a - i) == Some(k - i));
    }
    // The fraction part.
    if k < s.len() && s[k] == '.' {
        assert(k < j);
        assert(t[k - i] == s[k]);
        assert(t[k + 1 - i] == s[k + 1]);
        lemma_digits_end_restrict(s, i, j, k + 1);
        assert(frac_end(t, k - i) == Some(m - i));
    } else {
        if k < j {
            assert(t[k - i] == s[k]);
        }
        assert(frac_end(t, k - i) == Some(k - i));
    }
    // The exponent part.
    if m < s.len() && (s[m] == 'e' || s[m] == 'E') {
        let a2 = if m + 1 < s.len() && (s[m + 1] == '+' || s[m + 1] == '-') {
            m + 2
        } else {
            m + 1
        };
        assert(m < j && t[m - i] == s[m]);
        assert(m + 1 < j && t[m + 1 - i] == s[m + 1]);
        lemma_digits_end_restrict(s, i, j, a2);
        assert(exp_end(t, m - i) == Some(j - i));
    } else {
        if m < j {
            assert(t[m - i] == s[m]);
        }
        assert(exp_end(t, m - i) == Some(m - i));
    }
    assert(number_end(t, 0) == Some(j - i));
}

/// Skipping whitespace stays inside the text.
proof fn lemma_ws_end_bounds(s: Seq<char>, a: int)
    requires
        0 <= a <= s.len(),
    ensures
        a <= ws_end(s, a) <= s.len(),
    decreases s.len() - a,
{
    if a < s.len() && is_json_ws(s[a]) {
        lemma_ws_end_bounds(s, a + 1);
    }
}

/// Every value the parser returns is well-formed.
pub proof fn lemma_parse_value_wf(s: Seq<char>, i: int)
    ensures
        parse_value(s, i) matches Some(r) ==> wf(r.0),
    decreases s.len() - i, 0int,
{
    if 0 <= i < s.len() {
        if s[i] == '"' {
        } else if s[i] == '[' {
            let j = ws_end(s, i + 1);
            if i < j <= s.len() && !(j < s.len() && s[j] == ']') {
                lemma_parse_elems_wf(s, j);
            }
        } else if s[i] == '{' {
            let j = ws_end(s, i + 1);
            if i < j <= s.len() && !(j < s.len() && s[j] == '}') {
                lemma_parse_members_wf(s, j);
            }
        } else if s[i] == '-' || is_digit(s[i]) {
            if number_end(s, i) is Some {
                lemma_number_end_restrict(s, i, number_end(s, i)->0);
            }
        }
    }
}

/// Every element the array parser returns is well-formed.
proof fn lemma_parse_elems_wf(s: Seq<char>, i: int)
    ensures
        parse_elems(s, i) matches Some(r) ==> forall|k: int|
            0 <= k < r.0.len() ==> wf(#[trigger] r.0[k]),
    decreases s.len() - i, 1int,
{
    lemma_parse_value_wf(s, i);
    if let Some((v, j)) = parse_value(s, i) {
        let j2 = ws_end(s, j);
        if j2 < s.len() && s[j2] == ',' {
            let k = ws_end(s, j2 + 1);
            if i < k <= s.len() {
                lemma_parse_elems_wf(s, k);
                if let Some((es, m)) = parse_elems(s, k) {
                    assert forall|q: int| 0 <= q < (seq![v] + es).len() implies wf(
                        #[trigger] (seq![v] + es)[q],
                    ) by {
                        if q > 0 {
                            assert((seq![v] + es)[q] == es[q - 1]);
                        }
                    }
                }
            }
        }
    }
}

/// Every member value the object parser returns is well-formed.
proof fn lemma_parse_members_wf(s: Seq<char>, i: int)
    ensures
        parse_members(s, i) matches Some(r) ==> forall|k: int|
            0 <= k < r.0.len() ==> wf(#[trigger] r.0[k].1),
    decreases s.len() - i, 1int,
{
    if 0 <= i < s.len() && s[i] == '"' {
        if let Some((key, j)) = parse_string_body(s, i + 1) {
            let j2 = ws_end(s, j);
            if j2 < s.len() && s[j2] == ':' {
                let vk = ws_end(s, j2 + 1);
                if i <= vk <= s.len() {
                    lemma_parse_value_wf(s, vk);
                    if let Some((v, j3)) = parse_value(s, vk) {
                        let j4 = ws_end(s, j3);
                        if j4 < s.len() && s[j4] == ',' {
                            let k = ws_end(s, j4 + 1);
                            if i < k <= s.len() {
                                lemma_parse_members_wf(s, k);
                                if let Some((fs, m)) = parse_members(s, k) {
                                    assert forall|q: int|
                                        0 <= q < (seq![(key, v)] + fs).len() implies wf(
                                        #[trigger] (seq![(key, v)] + fs)[q].1,
                                    ) by {
                                        if q > 0 {
                                            assert((seq![(key, v)] + fs)[q] == fs[q - 1]);
                                        }
                                    }
                                }
                            }
                        }
                    }
                }
            }
        }
    }
}

/// Every value that parses from whole text is well-formed.
pub proof fn lemma_parse_json_wf(s: Seq<char>)
    ensures
        parse_json(s) matches Some(v) ==> wf(v),
{
    lemma_ws_end_bounds(s, 0);
    lemma_parse_value_wf(s, ws_end(s, 0));
}

/// Every character of a decimal-digit text is a digit, and only the text of
/// zero starts with the digit zero.
proof fn lemma_dec_digits(n: nat)
    ensures
        dec_digits(n).len() > 0,
        forall|k: int| 0 <= k < dec_digits(n).len() ==> is_digit(#[trigger] dec_digits(n)[k]),
        dec_digits(n)[0] == '0' ==> n == 0,
    decreases n,
{
    if n < 10 {
        assert(is_digit(hex_digit(n)));
        assert(hex_digit(n) == '0' ==> n == 0);
    } else {
        lemma_dec_digits(n / 10);
        assert(is_digit(hex_digit(n % 10)));
        let d = dec_digits(n / 10);
        assert forall|k: int| 0 <= k < dec_digits(n).len() implies is_digit(
            #[trigger] dec_digits(n)[k],
        ) by {
            if k < d.len() {
                assert(dec_digits(n)[k] == d[k]);
            }
        }
        assert(dec_digits(n)[0] == d[0]);
    }
}

/// A run of digits ends only at the end of the text.
proof fn lemma_digits_end_all(t: Seq<char>, a: int)
    requires
        0 <= a <= t.len(),
        forall|k: int| a <= k < t.len() ==> is_digit(#[trigger] t[k]),
    ensures
        digits_end(t, a) == t.len(),
    decreases t.len() - a,
{
    if a < t.len() {
        lemma_digits_end_all(t, a + 1);
    }
}

/// The decimal text of an integer is the text of one JSON number.
pub proof fn lemma_dec_int_is_number(n: int)
    ensures
        is_number_text(dec_int(n)),
{
    let t = dec_int(n);
    if n >= 0 {
        lemma_dec_digits(n as nat);
        assert(t == dec_digits(n as nat));
        if t[0] == '0' {
            assert(n == 0);
            assert(t == seq![hex_digit(0nat)]);
            assert(int_end(t, 0) == Some(1int));
            assert(number_end(t, 0) == Some(1int));
        } else {
            lemma_digits_end_all(t, 0);
            assert(int_end(t, 0) == Some(t.len() as int));
        }
    } else {
        let d = dec_digits((-n) as nat);
        lemma_dec_digits((-n) as nat);
        assert(t == seq!['-'] + d);
        assert(t[0] == '-');
        assert forall|k: int| 1 <= k < t.len() implies is_digit(#[trigger] t[k]) by {
            assert(t[k] == d[k - 1]);
        }
        assert(t[1] == d[0]);
        assert(d[0] != '0');
        lemma_digits_end_all(t, 1);
        assert(int_end(t, 1) == Some(t.len() as int));
    }
}

/// The authentication object is always well-formed.
proof fn lemma_auth_wf(full_auth: bool)
    ensures
        wf(crate::request::auth_val(full_auth)),
{
    let a = crate::request::auth_val(full_auth);
    assert forall|i: int| 0 <= i < a->Object_0.len() implies wf(#[trigger] a->Object_0[i].1) by {
        assert(a->Object_0[i].1 == JsonVal::Text(crate::request::auth_token(full_auth)));
    }
}

/// A function-based request body is well-formed whenever the caller's `x`
/// is, and so parses back to itself: a transport that echoes the request
/// body yields a response equal to the payload that was sent.
pub proof fn lemma_function_payload_round_trip(
    mu: Seq<char>,
    sigma: Seq<char>,
    x: JsonVal,
    dimensions: int,
    full_auth: bool,
)
    requires
        wf(x),
    ensures
        wf(crate::request::function_payload(mu, sigma, x, dimensions, full_auth)),
        parse_json(ser(crate::request::function_payload(mu, sigma, x, dimensions, full_auth)))
            == Some(crate::request::function_payload(mu, sigma, x, dimensions, full_auth)),
{
    lemma_dec_int_is_number(dimensions);
    lemma_auth_wf(full_auth);
    let p = crate::request::function_payload(mu, sigma, x, dimensions, full_auth);
    assert forall|i: int| 0 <= i < p->Object_0.len() implies wf(#[trigger] p->Object_0[i].1) by {
        assert(p->Object_0[0].1 == JsonVal::Text(mu));
        assert(p->Object_0[1].1 == JsonVal::Text(sigma));
        assert(p->Object_0[2].1 == x);
        assert(p->Object_0[3].1 == JsonVal::Number(dec_int(dimensions)));
        assert(p->Object_0[4].1 == crate::request::auth_val(full_auth));
    }
    assert(wf(p));
    lemma_round_trip(p);
}

/// A coordinate-based request body is well-formed whenever the caller's
/// vectors and threshold are, and so parses back to itself under an echoing
/// transport.
pub proof fn lemma_coordinate_payload_round_trip(
    node0: JsonVal,
    node1: JsonVal,
    threshold: JsonVal,
    dimensions: int,
    full_auth: bool,
)
    requires
        wf(node0),
        wf(node1),
        wf(threshold),
    ensures
        wf(
            crate::request::coordinate_payload(node0, node1, threshold, dimensions, full_auth),
        ),
        parse_json(
            ser(crate::request::coordinate_payload(node0, node1, threshold, dimensions, full_auth)),
        ) == Some(
            crate::request::coordinate_payload(node0, node1, threshold, dimensions, full_auth),
        ),
{
    lemma_dec_int_is_number(dimensions);
    lemma_auth_wf(full_auth);
    let p = crate::request::coordinate_payload(node0, node1, threshold, dimensions, full_auth);
    assert forall|i: int| 0 <= i < p->Object_0.len() implies wf(#[trigger] p->Object_0[i].1) by {
        assert(p->Object_0[0].1 == node0);
        assert(p->Object_0[1].1 == node1);
        assert(p->Object_0[2].1 == threshold);
        assert(p->Object_0[3].1 == JsonVal::Number(dec_int(dimensions)));
        assert(p->Object_0[4].1 == crate::request::auth_val(full_auth));
    }
    assert(wf(p));
    lemma_round_trip(p);
}

/// End to end: when the caller's `x` text parses, the body of the prepared
/// function-based request decodes, as an echoed response body would, back to
/// exactly the payload that was sent.
pub proof fn lemma_function_request_echo(
    mu: Seq<char>,
    sigma: Seq<char>,
    x_text: Seq<char>,
    dimensions: int,
    full_auth: bool,
)
    requires
        parse_json(x_text) is Some,
    ensures
        parse_json(
            ser(
                crate::request::function_payload(
                    mu,
                    sigma,
                    parse_json(x_text).unwrap(),
                    dimensions,
                    full_auth,
                ),
            ),
        ) == Some(
            crate::request::function_payload(
                mu,
                sigma,
                parse_json(x_text).unwrap(),
                dimensions,
                full_auth,
            ),
        ),
{
    lemma_parse_json_wf(x_text);
    lemma_function_payload_round_trip(
        mu,
        sigma,
        parse_json(x_text).unwrap(),
        dimensions,
        full_auth,
    );
}

/// End to end: when the caller's vector and threshold texts parse, the body
/// of the prepared coordinate-based request decodes back to exactly the
/// payload that was sent.
pub proof fn lemma_coordinate_request_echo(
    node0_text: Seq<char>,
    node1_text: Seq<char>,
    threshold_text: Seq<char>,
    dimensions: int,
    full_auth: bool,
)
    requires
        parse_json(node0_text) is Some,
        parse_json(node1_text) is Some,
        parse_json(threshold_text) is Some,
    ensures
        parse_json(
            ser(
                crate::request::coordinate_payload(
                    parse_json(node0_text).unwrap(),
                    parse_json(node1_text).unwrap(),
                    parse_json(threshold_text).unwrap(),
                    dimensions,
                    full_auth,
                ),
            ),
        ) == Some(
            crate::request::coordinate_payload(
                parse_json(node0_text).unwrap(),
                parse_json(node1_text).unwrap(),
                parse_json(threshold_text).unwrap(),
                dimensions,
                full_auth,
            ),
        ),
{
    lemma_parse_json_wf(node0_text);
    lemma_parse_json_wf(node1_text);
    lemma_parse_json_wf(threshold_text);
    lemma_coordinate_payload_round_trip(
        parse_json(node0_text).unwrap(),
        parse_json(node1_text).unwrap(),
        parse_json(threshold_text).unwrap(),
        dimensions,
        full_auth,
    );
}

/// Round trip: parsing the serialized text of a well-formed value gives
/// back exactly that value.
pub proof fn lemma_round_trip(v: JsonVal)
    requires
        wf(v),
    ensures
        parse_json(ser(v)) == Some(v),
{
    let s = ser(v);
    lemma_ser_first(v);
    assert(s.subrange(0, s.len() as int) =~= s);
    assert(ws_end(s, 0) == 0);
    lemma_parse_ser(v, s, 0);
    assert(ws_end(s, s.len() as int) == s.len());
}

} // verus!
