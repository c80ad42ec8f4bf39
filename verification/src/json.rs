//! The library's own model of a JSON value.
//!
//! Numbers are carried as their decimal source text, so a value can be
//! forwarded verbatim without any floating-point arithmetic, and the
//! serializer below is proved to produce exactly the text that the
//! specification-level `ser` function describes.

use vstd::prelude::*;

verus! {

broadcast use vstd::std_specs::vec::group_vec_axioms, vstd::seq::group_seq_axioms;

/// A JSON value. A number holds its literal decimal text; a string holds
/// its (unescaped) characters.
#[derive(Debug)]
pub enum JsonValue {
    Null,
    Bool(bool),
    Number(String),
    Text(String),
    Array(Vec<JsonValue>),
    Object(Vec<(String, JsonValue)>),
}

/// The mathematical model of a `JsonValue`: the same tree over `Seq<char>`.
#[verifier::ext_equal]
pub enum JsonVal {
    Null,
    Bool(bool),
    Number(Seq<char>),
    Text(Seq<char>),
    Array(Seq<JsonVal>),
    Object(Seq<(Seq<char>, JsonVal)>),
}

/// The model of a `JsonValue`.
pub open spec fn jval(v: JsonValue) -> JsonVal
    decreases v,
{
    match v {
        JsonValue::Null => JsonVal::Null,
        JsonValue::Bool(b) => JsonVal::Bool(b),
        JsonValue::Number(t) => JsonVal::Number(t@),
        JsonValue::Text(t) => JsonVal::Text(t@),
        JsonValue::Array(items) => JsonVal::Array(jval_items(items@)),
        JsonValue::Object(fields) => JsonVal::Object(jval_fields(fields@)),
    }
}

/// The models of the elements of an array.
pub open spec fn jval_items(s: Seq<JsonValue>) -> Seq<JsonVal>
    decreases s,
{
    if s.len() == 0 {
        Seq::empty()
    } else {
        seq![jval(s[0])] + jval_items(s.drop_first())
    }
}

/// The models of the members of an object.
pub open spec fn jval_fields(s: Seq<(String, JsonValue)>) -> Seq<(Seq<char>, JsonVal)>
    decreases s,
{
    if s.len() == 0 {
        Seq::empty()
    } else {
        seq![(s[0].0@, jval(s[0].1))] + jval_fields(s.drop_first())
    }
}

/// The model of an array has one element per element of the array.
pub proof fn lemma_jval_items_len(s: Seq<JsonValue>)
    ensures
        jval_items(s).len() == s.len(),
    decreases s.len(),
{
    if s.len() > 0 {
        lemma_jval_items_len(s.drop_first());
    }
}

/// The model of an object has one member per member of the object.
pub proof fn lemma_jval_fields_len(s: Seq<(String, JsonValue)>)
    ensures
        jval_fields(s).len() == s.len(),
    decreases s.len(),
{
    if s.len() > 0 {
        lemma_jval_fields_len(s.drop_first());
    }
}

impl View for JsonValue {
    type V = JsonVal;

    open spec fn view(&self) -> JsonVal {
        jval(*self)
    }
}

/// The character standing for a hexadecimal digit value below 16.
pub open spec fn hex_digit(n: nat) -> char {
    if n == 0 { '0' } else if n == 1 { '1' } else if n == 2 { '2' } else if n == 3 { '3' }
    else if n == 4 { '4' } else if n == 5 { '5' } else if n == 6 { '6' } else if n == 7 { '7' }
    else if n == 8 { '8' } else if n == 9 { '9' } else if n == 10 { 'a' } else if n == 11 { 'b' }
    else if n == 12 { 'c' } else if n == 13 { 'd' } else if n == 14 { 'e' } else { 'f' }
}

/// How one character of a JSON string is written between the quotes.
pub open spec fn esc_char(c: char) -> Seq<char> {
    if c == '"' { seq!['\\', '"'] }
    else if c == '\\' { seq!['\\', '\\'] }
    else if c == '\n' { seq!['\\', 'n'] }
    else if c == '\r' { seq!['\\', 'r'] }
    else if c == '\t' { seq!['\\', 't'] }
    else if c == '\u{8}' { seq!['\\', 'b'] }
    else if c == '\u{c}' { seq!['\\', 'f'] }
    else if (c as u32) < 32 {
        seq!['\\', 'u', '0', '0', hex_digit((c as u32 / 16) as nat), hex_digit((c as u32 % 16) as nat)]
    } else {
        seq![c]
    }
}

/// The escaped body of a JSON string.
pub open spec fn esc_text(s: Seq<char>) -> Seq<char>
    decreases s.len(),
{
    if s.len() == 0 {
        Seq::empty()
    } else {
        esc_char(s[0]) + esc_text(s.drop_first())
    }
}

/// The serialized text of a JSON value: compact, no spaces between tokens.
pub open spec fn ser(v: JsonVal) -> Seq<char>
    decreases v,
{
    match v {
        JsonVal::Null => seq!['n', 'u', 'l', 'l'],
        JsonVal::Bool(b) => if b { seq!['t', 'r', 'u', 'e'] } else { seq!['f', 'a', 'l', 's', 'e'] },
        JsonVal::Number(t) => t,
        JsonVal::Text(t) => seq!['"'] + esc_text(t) + seq!['"'],
        JsonVal::Array(items) => seq!['['] + ser_items(items) + seq![']'],
        JsonVal::Object(fields) => seq!['{'] + ser_fields(fields) + seq!['}'],
    }
}

/// The comma-separated serialized elements of an array.
pub open spec fn ser_items(items: Seq<JsonVal>) -> Seq<char>
    decreases items,
{
    if items.len() == 0 {
        Seq::empty()
    } else if items.len() == 1 {
        ser(items[0])
    } else {
        ser(items[0]) + seq![','] + ser_items(items.drop_first())
    }
}

/// One `"key":value` member of an object.
pub open spec fn ser_field(f: (Seq<char>, JsonVal)) -> Seq<char>
    decreases f,
{
    seq!['"'] + esc_text(f.0) + seq!['"', ':'] + ser(f.1)
}

/// The comma-separated serialized members of an object.
pub open spec fn ser_fields(fields: Seq<(Seq<char>, JsonVal)>) -> Seq<char>
    decreases fields,
{
    if fields.len() == 0 {
        Seq::empty()
    } else if fields.len() == 1 {
        ser_field(fields[0])
    } else {
        ser_field(fields[0]) + seq![','] + ser_fields(fields.drop_first())
    }
}

/// Relies on std's `FromIterator<char> for String`: collecting `char`s
/// yields the string of exactly those characters, in order.
#[verifier::external_body]
pub(crate) fn chars_to_string(v: &Vec<char>) -> (r: String)
    ensures
        r@ == v@,
{
    v.iter().copied().collect()
}

/// The character for a hexadecimal digit value below 16.
fn hex_digit_char(n: u32) -> (r: char)
    requires
        n < 16,
    ensures
        r == hex_digit(n as nat),
{
    match n {
        0 => '0', 1 => '1', 2 => '2', 3 => '3',
        4 => '4', 5 => '5', 6 => '6', 7 => '7',
        8 => '8', 9 => '9', 10 => 'a', 11 => 'b',
        12 => 'c', 13 => 'd', 14 => 'e', _ => 'f',
    }
}

/// Appends the characters of `s` from position `k` on, unchanged.
fn write_raw(s: &str, k: usize, out: &mut Vec<char>)
    requires
        k <= old(out).len() + s@.len(),
        k as int <= s@.len(),
    ensures
        final(out)@ == old(out)@ + s@.subrange(k as int, s@.len() as int),
    decreases s@.len() - k,
{
    let n = s.unicode_len();
    if k < n {
        let c = s.get_char(k);
        out.push(c);
        write_raw(s, k + 1, out);
        proof {
            assert(out@ =~= old(out)@ + s@.subrange(k as int, s@.len() as int));
        }
    } else {
        proof {
            assert(out@ =~= old(out)@ + s@.subrange(k as int, s@.len() as int));
        }
    }
}

/// The characters of `s`, one vector element per character.
pub fn to_chars(s: &str) -> (r: Vec<char>)
    ensures
        r@ == s@,
{
    let mut out: Vec<char> = Vec::new();
    write_raw(s, 0, &mut out);
    proof {
        assert(s@.subrange(0, s@.len() as int) =~= s@);
    }
    out
}

/// Appends the escaped form of one string character.
fn write_escaped_char(c: char, out: &mut Vec<char>)
    ensures
        final(out)@ == old(out)@ + esc_char(c),
{
    if c == '"' {
        out.push('\\');
        out.push('"');
    } else if c == '\\' {
        out.push('\\');
        out.push('\\');
    } else if c == '\n' {
        out.push('\\');
        out.push('n');
    } else if c == '\r' {
        out.push('\\');
        out.push('r');
    } else if c == '\t' {
        out.push('\\');
        out.push('t');
    } else if c == '\u{8}' {
        out.push('\\');
        out.push('b');
    } else if c == '\u{c}' {
        out.push('\\');
        out.push('f');
    } else if (c as u32) < 32 {
        let u = c as u32;
        out.push('\\');
        out.push('u');
        out.push('0');
        out.push('0');
        out.push(hex_digit_char(u / 16));
        out.push(hex_digit_char(u % 16));
    } else {
        out.push(c);
    }
    proof {
        assert(out@ =~= old(out)@ + esc_char(c));
    }
}

/// Appends the escaped body of a string, from character `k` on.
fn write_escaped(s: &str, k: usize, out: &mut Vec<char>)
    requires
        k as int <= s@.len(),
    ensures
        final(out)@ == old(out)@ + esc_text(s@.subrange(k as int, s@.len() as int)),
    decreases s@.len() - k,
{
    let n = s.unicode_len();
    if k < n {
        let c = s.get_char(k);
        write_escaped_char(c, out);
        write_escaped(s, k + 1, out);
        proof {
            let tail = s@.subrange(k as int, s@.len() as int);
            assert(tail.drop_first() =~= s@.subrange(k + 1 as int, s@.len() as int));
            assert(out@ =~= old(out)@ + esc_text(tail));
        }
    } else {
        proof {
            assert(s@.subrange(k as int, s@.len() as int) =~= Seq::<char>::empty());
            assert(out@ =~= old(out)@ + esc_text(s@.subrange(k as int, s@.len() as int)));
        }
    }
}

/// Appends `"..."`: a quoted, escaped JSON string.
fn write_quoted(s: &str, out: &mut Vec<char>)
    ensures
        final(out)@ == old(out)@ + seq!['"'] + esc_text(s@) + seq!['"'],
{
    out.push('"');
    write_escaped(s, 0, out);
    out.push('"');
    proof {
        assert(s@.subrange(0, s@.len() as int) =~= s@);
        assert(out@ =~= old(out)@ + seq!['"'] + esc_text(s@) + seq!['"']);
    }
}

/// Appends the serialized text of `v`.
fn write_json(v: &JsonValue, out: &mut Vec<char>)
    ensures
        final(out)@ == old(out)@ + ser(v@),
    decreases v, 0int,
{
    match v {
        JsonValue::Null => {
            proof { reveal_strlit("null"); }
            write_raw("null", 0, out);
            proof {
                assert("null"@.subrange(0, 4) =~= seq!['n', 'u', 'l', 'l']);
                assert(out@ =~= old(out)@ + ser(v@));
            }
        },
        JsonValue::Bool(b) => {
            if *b {
                proof { reveal_strlit("true"); }
                write_raw("true", 0, out);
                proof {
                    assert("true"@.subrange(0, 4) =~= seq!['t', 'r', 'u', 'e']);
                    assert(out@ =~= old(out)@ + ser(v@));
                }
            } else {
                proof { reveal_strlit("false"); }
                write_raw("false", 0, out);
                proof {
                    assert("false"@.subrange(0, 5) =~= seq!['f', 'a', 'l', 's', 'e']);
                    assert(out@ =~= old(out)@ + ser(v@));
                }
            }
        },
        JsonValue::Number(t) => {
            write_raw(t.as_str(), 0, out);
            proof {
                assert(t@.subrange(0, t@.len() as int) =~= t@);
                assert(out@ =~= old(out)@ + ser(v@));
            }
        },
        JsonValue::Text(t) => {
            write_quoted(t.as_str(), out);
            proof {
                assert(out@ =~= old(out)@ + ser(v@));
            }
        },
        JsonValue::Array(items) => {
            out.push('[');
            write_items(items, 0, out);
            out.push(']');
            proof {
                assert(items@.subrange(0, items@.len() as int) =~= items@);
                assert(out@ =~= old(out)@ + ser(v@));
            }
        },
        JsonValue::Object(fields) => {
            out.push('{');
            write_fields(fields, 0, out);
            out.push('}');
            proof {
                assert(fields@.subrange(0, fields@.len() as int) =~= fields@);
                assert(out@ =~= old(out)@ + ser(v@));
            }
        },
    }
}

/// Appends the comma-separated elements of `items` from index `k` on.
fn write_items(items: &Vec<JsonValue>, k: usize, out: &mut Vec<char>)
    requires
        k <= items.len(),
    ensures
        final(out)@ == old(out)@ + ser_items(jval_items(items@.subrange(k as int, items@.len() as int))),
    decreases items@, items@.len() - k + 1,
{
    let ghost rest = items@.subrange(k as int, items@.len() as int);
    if k < items.len() {
        write_json(&items[k], out);
        if k + 1 < items.len() {
            out.push(',');
            write_items(items, k + 1, out);
        }
        proof {
            lemma_jval_items_len(rest);
            lemma_jval_items_len(rest.drop_first());
            assert(rest.drop_first() =~= items@.subrange(k + 1 as int, items@.len() as int));
            assert(jval_items(rest).drop_first() =~= jval_items(rest.drop_first()));
            assert(out@ =~= old(out)@ + ser_items(jval_items(rest)));
        }
    } else {
        proof {
            assert(rest =~= Seq::<JsonValue>::empty());
            assert(out@ =~= old(out)@ + ser_items(jval_items(rest)));
        }
    }
}

/// Appends the comma-separated members of `fields` from index `k` on.
fn write_fields(fields: &Vec<(String, JsonValue)>, k: usize, out: &mut Vec<char>)
    requires
        k <= fields.len(),
    ensures
        final(out)@ == old(out)@ + ser_fields(jval_fields(fields@.subrange(k as int, fields@.len() as int))),
    decreases fields@, fields@.len() - k + 1,
{
    let ghost rest = fields@.subrange(k as int, fields@.len() as int);
    if k < fields.len() {
        let f = &fields[k];
        write_quoted(f.0.as_str(), out);
        out.push(':');
        write_json(&f.1, out);
        if k + 1 < fields.len() {
            out.push(',');
            write_fields(fields, k + 1, out);
        }
        proof {
            lemma_jval_fields_len(rest);
            lemma_jval_fields_len(rest.drop_first());
            assert(rest[0] == fields@[k as int]);
            assert(jval_fields(rest) == seq![(rest[0].0@, jval(rest[0].1))] + jval_fields(
                rest.drop_first(),
            ));
            assert(jval_fields(rest)[0] == (rest[0].0@, jval(rest[0].1)));
            assert(rest.drop_first() =~= fields@.subrange(k + 1 as int, fields@.len() as int));
            assert(jval_fields(rest).drop_first() =~= jval_fields(rest.drop_first()));
            let jf = jval_fields(rest);
            assert(ser_field(jf[0]) =~= seq!['"'] + esc_text(rest[0].0@) + seq!['"', ':'] + ser(
                jval(rest[0].1),
            ));
            if rest.len() == 1 {
                assert(ser_fields(jf) == ser_field(jf[0]));
            } else {
                assert(ser_fields(jf) == ser_field(jf[0]) + seq![','] + ser_fields(
                    jf.drop_first(),
                ));
                assert(ser_fields(jf.drop_first()) == ser_fields(jval_fields(rest.drop_first())));
            }
            assert(out@ =~= old(out)@ + ser_fields(jval_fields(rest)));
        }
    } else {
        proof {
            assert(rest =~= Seq::<(String, JsonValue)>::empty());
            assert(out@ =~= old(out)@ + ser_fields(jval_fields(rest)));
        }
    }
}

/// The decimal digits of a non-negative integer, most significant first,
/// with no leading zero except for the number zero itself.
pub open spec fn dec_digits(n: nat) -> Seq<char>
    decreases n,
{
    if n < 10 {
        seq![hex_digit(n)]
    } else {
        dec_digits(n / 10) + seq![hex_digit(n % 10)]
    }
}

/// The decimal text of an integer: a `-` sign for negative values, then digits.
pub open spec fn dec_int(n: int) -> Seq<char> {
    if n < 0 {
        seq!['-'] + dec_digits((-n) as nat)
    } else {
        dec_digits(n as nat)
    }
}

/// Appends the decimal digits of `m`.
fn push_digits(m: u64, out: &mut Vec<char>)
    ensures
        final(out)@ == old(out)@ + dec_digits(m as nat),
    decreases m,
{
    if m < 10 {
        out.push(hex_digit_char(m as u32));
        proof {
            assert(out@ =~= old(out)@ + dec_digits(m as nat));
        }
    } else {
        push_digits(m / 10, out);
        out.push(hex_digit_char((m % 10) as u32));
        proof {
            assert(out@ =~= old(out)@ + dec_digits(m as nat));
        }
    }
}

impl JsonValue {
    /// The JSON number carrying the decimal text of `n`.
    pub fn from_i32(n: i32) -> (r: JsonValue)
        ensures
            r@ == JsonVal::Number(dec_int(n as int)),
    {
        let mut out: Vec<char> = Vec::new();
        if n < 0 {
            out.push('-');
            let m = -(n as i64);
            push_digits(m as u64, &mut out);
        } else {
            push_digits(n as u64, &mut out);
        }
        proof {
            assert(out@ =~= dec_int(n as int));
        }
        JsonValue::Number(chars_to_string(&out))
    }

    /// The compact serialized text of this value: exactly `ser` of its model.
    pub fn serialize(&self) -> (r: String)
        ensures
            r@ == ser(self@),
    {
        let mut out: Vec<char> = Vec::new();
        write_json(self, &mut out);
        chars_to_string(&out)
    }
}

} // verus!
