//! A JSON parser over character sequences.
//!
//! The grammar is stated once, as specification functions over `Seq<char>`
//! (`parse_value` and its helpers), and the executable parser is proved to
//! return exactly what those functions describe. Numbers are kept as their
//! source text; strings are unescaped. A `\u` escape naming a surrogate
//! code point is rejected, as is an unescaped control character.

use crate::json::{jval, jval_fields, jval_items, JsonVal, JsonValue};
use vstd::prelude::*;

verus! {

broadcast use vstd::std_specs::vec::group_vec_axioms, vstd::seq::group_seq_axioms;

/// Whitespace characters that JSON allows between tokens.
pub open spec fn is_json_ws(c: char) -> bool {
    c == ' ' || c == '\t' || c == '\n' || c == '\r'
}

/// The first position at or after `i` holding no JSON whitespace.
pub open spec fn ws_end(s: Seq<char>, i: int) -> int
    decreases s.len() - i,
{
    if 0 <= i < s.len() && is_json_ws(s[i]) {
        ws_end(s, i + 1)
    } else {
        i
    }
}

/// Whether `c` is a decimal digit.
pub open spec fn is_digit(c: char) -> bool {
    48 <= c as u32 <= 57
}

/// The first position at or after `i` holding no decimal digit.
pub open spec fn digits_end(s: Seq<char>, i: int) -> int
    decreases s.len() - i,
{
    if 0 <= i < s.len() && is_digit(s[i]) {
        digits_end(s, i + 1)
    } else {
        i
    }
}

/// The end of the integer part of a number starting at `i` (sign already
/// consumed): one `0`, or a nonzero digit followed by digits.
pub open spec fn int_end(s: Seq<char>, i: int) -> Option<int> {
    if 0 <= i < s.len() && s[i] == '0' {
        Some(i + 1)
    } else if 0 <= i < s.len() && is_digit(s[i]) {
        Some(digits_end(s, i))
    } else {
        None
    }
}

/// The end of the optional fraction part starting at `i`.
pub open spec fn frac_end(s: Seq<char>, i: int) -> Option<int> {
    if 0 <= i < s.len() && s[i] == '.' {
        if i + 1 < s.len() && is_digit(s[i + 1]) {
            Some(digits_end(s, i + 1))
        } else {
            None
        }
    } else {
        Some(i)
    }
}

/// The end of the optional exponent part starting at `i`.
pub open spec fn exp_end(s: Seq<char>, i: int) -> Option<int> {
    if 0 <= i < s.len() && (s[i] == 'e' || s[i] == 'E') {
        let j = if i + 1 < s.len() && (s[i + 1] == '+' || s[i + 1] == '-') {
            i + 2
        } else {
            i + 1
        };
        if j < s.len() && is_digit(s[j]) {
            Some(digits_end(s, j))
        } else {
            None
        }
    } else {
        Some(i)
    }
}

/// The end of a JSON number starting at `i`, if the text there is one.
pub open spec fn number_end(s: Seq<char>, i: int) -> Option<int> {
    let j = if 0 <= i < s.len() && s[i] == '-' {
        i + 1
    } else {
        i
    };
    match int_end(s, j) {
        Some(k) => match frac_end(s, k) {
            Some(m) => exp_end(s, m),
            None => None,
        },
        None => None,
    }
}

/// The value of a hexadecimal digit character.
pub open spec fn hex_val(c: char) -> Option<nat> {
    let u = c as u32;
    if 48 <= u <= 57 {
        Some((u - 48) as nat)
    } else if 97 <= u <= 102 {
        Some((u - 87) as nat)
    } else if 65 <= u <= 70 {
        Some((u - 55) as nat)
    } else {
        None
    }
}

/// The character named by a one-letter escape.
pub open spec fn unescape_short(c: char) -> Option<char> {
    if c == '"' { Some('"') }
    else if c == '\\' { Some('\\') }
    else if c == '/' { Some('/') }
    else if c == 'n' { Some('\n') }
    else if c == 't' { Some('\t') }
    else if c == 'r' { Some('\r') }
    else if c == 'b' { Some('\u{8}') }
    else if c == 'f' { Some('\u{c}') }
    else { None }
}

/// Whether a code point can stand alone in a string: any scalar value.
pub open spec fn is_scalar(u: nat) -> bool {
    u < 0xD800 || (0xE000 <= u && u <= 0x10FFFF)
}

/// The unescaped characters of a string body starting just after the opening
/// quote, with the position just after the closing quote.
pub open spec fn parse_string_body(s: Seq<char>, i: int) -> Option<(Seq<char>, int)>
    decreases s.len() - i,
{
    if !(0 <= i < s.len()) {
        None
    } else if s[i] == '"' {
        Some((Seq::empty(), i + 1))
    } else if s[i] == '\\' {
        if i + 2 <= s.len() {
            if s[i + 1] == 'u' {
                if i + 6 <= s.len() {
                    match (hex_val(s[i + 2]), hex_val(s[i + 3]), hex_val(s[i + 4]), hex_val(
                        s[i + 5],
                    )) {
                        (Some(a), Some(b), Some(c), Some(d)) => {
                            let u = a * 4096 + b * 256 + c * 16 + d;
                            if is_scalar(u) {
                                match parse_string_body(s, i + 6) {
                                    Some((t, j)) => Some((seq![((u as u32) as char)] + t, j)),
                                    None => None,
                                }
                            } else {
                                None
                            }
                        },
                        _ => None,
                    }
                } else {
                    None
                }
            } else {
                match unescape_short(s[i + 1]) {
                    Some(c) => match parse_string_body(s, i + 2) {
                        Some((t, j)) => Some((seq![c] + t, j)),
                        None => None,
                    },
                    None => None,
                }
            }
        } else {
            None
        }
    } else if (s[i] as u32) < 32 {
        None
    } else {
        match parse_string_body(s, i + 1) {
            Some((t, j)) => Some((seq![s[i]] + t, j)),
            None => None,
        }
    }
}

/// The JSON value starting exactly at `i` (no leading whitespace), with the
/// position just after it.
pub open spec fn parse_value(s: Seq<char>, i: int) -> Option<(JsonVal, int)>
    decreases s.len() - i, 0int,
{
    if !(0 <= i < s.len()) {
        None
    } else if s[i] == 'n' {
        if i + 4 <= s.len() && s[i + 1] == 'u' && s[i + 2] == 'l' && s[i + 3] == 'l' {
            Some((JsonVal::Null, i + 4))
        } else {
            None
        }
    } else if s[i] == 't' {
        if i + 4 <= s.len() && s[i + 1] == 'r' && s[i + 2] == 'u' && s[i + 3] == 'e' {
            Some((JsonVal::Bool(true), i + 4))
        } else {
            None
        }
    } else if s[i] == 'f' {
        if i + 5 <= s.len() && s[i + 1] == 'a' && s[i + 2] == 'l' && s[i + 3] == 's' && s[i + 4]
            == 'e' {
            Some((JsonVal::Bool(false), i + 5))
        } else {
            None
        }
    } else if s[i] == '"' {
        match parse_string_body(s, i + 1) {
            Some((t, j)) => Some((JsonVal::Text(t), j)),
            None => None,
        }
    } else if s[i] == '[' {
        let j = ws_end(s, i + 1);
        if !(i < j <= s.len()) {
            None
        } else if j < s.len() && s[j] == ']' {
            Some((JsonVal::Array(Seq::empty()), j + 1))
        } else {
            match parse_elems(s, j) {
                Some((es, m)) => Some((JsonVal::Array(es), m)),
                None => None,
            }
        }
    } else if s[i] == '{' {
        let j = ws_end(s, i + 1);
        if !(i < j <= s.len()) {
            None
        } else if j < s.len() && s[j] == '}' {
            Some((JsonVal::Object(Seq::empty()), j + 1))
        } else {
            match parse_members(s, j) {
                Some((fs, m)) => Some((JsonVal::Object(fs), m)),
                None => None,
            }
        }
    } else if s[i] == '-' || is_digit(s[i]) {
        match number_end(s, i) {
            Some(j) => Some((JsonVal::Number(s.subrange(i, j)), j)),
            None => None,
        }
    } else {
        None
    }
}

/// The elements of a non-empty array, starting at the first element's value,
/// with the position just after the closing bracket.
pub open spec fn parse_elems(s: Seq<char>, i: int) -> Option<(Seq<JsonVal>, int)>
    decreases s.len() - i, 1int,
{
    match parse_value(s, i) {
        Some((v, j)) => {
            let j2 = ws_end(s, j);
            if j2 < s.len() && s[j2] == ',' {
                let k = ws_end(s, j2 + 1);
                if !(i < k <= s.len()) {
                    None
                } else {
                    match parse_elems(s, k) {
                        Some((es, m)) => Some((seq![v] + es, m)),
                        None => None,
                    }
                }
            } else if j2 < s.len() && s[j2] == ']' {
                Some((seq![v], j2 + 1))
            } else {
                None
            }
        },
        None => None,
    }
}

/// The members of a non-empty object, starting at the first key's quote,
/// with the position just after the closing brace.
pub open spec fn parse_members(s: Seq<char>, i: int) -> Option<(Seq<(Seq<char>, JsonVal)>, int)>
    decreases s.len() - i, 1int,
{
    if !(0 <= i < s.len() && s[i] == '"') {
        None
    } else {
        match parse_string_body(s, i + 1) {
            Some((key, j)) => {
                let j2 = ws_end(s, j);
                if j2 < s.len() && s[j2] == ':' {
                    let vk = ws_end(s, j2 + 1);
                    if !(i <= vk <= s.len()) {
                        None
                    } else {
                        match parse_value(s, vk) {
                            Some((v, j3)) => {
                                let j4 = ws_end(s, j3);
                                if j4 < s.len() && s[j4] == ',' {
                                    let k = ws_end(s, j4 + 1);
                                    if !(i < k <= s.len()) {
                                        None
                                    } else {
                                        match parse_members(s, k) {
                                            Some((fs, m)) => Some((seq![(key, v)] + fs, m)),
                                            None => None,
                                        }
                                    }
                                } else if j4 < s.len() && s[j4] == '}' {
                                    Some((seq![(key, v)], j4 + 1))
                                } else {
                                    None
                                }
                            },
                            None => None,
                        }
                    }
                } else {
                    None
                }
            },
            None => None,
        }
    }
}

/// The JSON value carried by the whole text, allowing leading and trailing
/// whitespace and nothing else.
pub open spec fn parse_json(s: Seq<char>) -> Option<JsonVal> {
    let i = ws_end(s, 0);
    match parse_value(s, i) {
        Some((v, j)) => {
            if ws_end(s, j) == s.len() {
                Some(v)
            } else {
                None
            }
        },
        None => None,
    }
}

/// Whether `c` is JSON whitespace.
fn is_ws_char(c: char) -> (r: bool)
    ensures
        r == is_json_ws(c),
{
    c == ' ' || c == '\t' || c == '\n' || c == '\r'
}

/// Whether `c` is a decimal digit.
fn is_digit_char(c: char) -> (r: bool)
    ensures
        r == is_digit(c),
{
    let u = c as u32;
    48 <= u && u <= 57
}

/// Skips JSON whitespace.
fn skip_ws(s: &Vec<char>, i: usize) -> (r: usize)
    requires
        i <= s.len(),
    ensures
        r as int == ws_end(s@, i as int),
        i <= r <= s.len(),
    decreases s@.len() - i,
{
    if i < s.len() && is_ws_char(s[i]) {
        skip_ws(s, i + 1)
    } else {
        i
    }
}

/// Skips decimal digits.
fn skip_digits(s: &Vec<char>, i: usize) -> (r: usize)
    requires
        i <= s.len(),
    ensures
        r as int == digits_end(s@, i as int),
        i <= r <= s.len(),
    decreases s@.len() - i,
{
    if i < s.len() && is_digit_char(s[i]) {
        skip_digits(s, i + 1)
    } else {
        i
    }
}

/// The end of the integer part of a number, sign already consumed.
fn int_end_at(s: &Vec<char>, i: usize) -> (r: Option<usize>)
    requires
        i <= s.len(),
    ensures
        match r {
            Some(j) => int_end(s@, i as int) == Some(j as int) && i < j <= s.len(),
            None => int_end(s@, i as int) is None,
        },
{
    if i < s.len() && s[i] == '0' {
        Some(i + 1)
    } else if i < s.len() && is_digit_char(s[i]) {
        Some(skip_digits(s, i + 1))
    } else {
        None
    }
}

/// The end of the optional fraction part.
fn frac_end_at(s: &Vec<char>, i: usize) -> (r: Option<usize>)
    requires
        i <= s.len(),
    ensures
        match r {
            Some(j) => frac_end(s@, i as int) == Some(j as int) && i <= j <= s.len(),
            None => frac_end(s@, i as int) is None,
        },
{
    if i < s.len() && s[i] == '.' {
        if i + 1 < s.len() && is_digit_char(s[i + 1]) {
            Some(skip_digits(s, i + 1))
        } else {
            None
        }
    } else {
        Some(i)
    }
}

/// The end of the optional exponent part.
fn exp_end_at(s: &Vec<char>, i: usize) -> (r: Option<usize>)
    requires
        i <= s.len(),
    ensures
        match r {
            Some(j) => exp_end(s@, i as int) == Some(j as int) && i <= j <= s.len(),
            None => exp_end(s@, i as int) is None,
        },
{
    if i < s.len() && (s[i] == 'e' || s[i] == 'E') {
        let j = if i + 1 < s.len() && (s[i + 1] == '+' || s[i + 1] == '-') {
            i + 2
        } else {
            i + 1
        };
        if j < s.len() && is_digit_char(s[j]) {
            Some(skip_digits(s, j))
        } else {
            None
        }
    } else {
        Some(i)
    }
}

/// The end of a JSON number starting at `i`.
fn number_end_at(s: &Vec<char>, i: usize) -> (r: Option<usize>)
    requires
        i <= s.len(),
    ensures
        match r {
            Some(j) => number_end(s@, i as int) == Some(j as int) && i < j <= s.len(),
            None => number_end(s@, i as int) is None,
        },
{
    let j = if i < s.len() && s[i] == '-' {
        i + 1
    } else {
        i
    };
    match int_end_at(s, j) {
        Some(k) => match frac_end_at(s, k) {
            Some(m) => exp_end_at(s, m),
            None => None,
        },
        None => None,
    }
}

/// The value of a hexadecimal digit character.
fn hex_val_at(c: char) -> (r: Option<u32>)
    ensures
        match r {
            Some(v) => hex_val(c) == Some(v as nat) && v < 16,
            None => hex_val(c) is None,
        },
{
    let u = c as u32;
    if 48 <= u && u <= 57 {
        Some(u - 48)
    } else if 97 <= u && u <= 102 {
        Some(u - 87)
    } else if 65 <= u && u <= 70 {
        Some(u - 55)
    } else {
        None
    }
}

/// After pushing `c` onto `pre` and then growing the vector to `cur`, the
/// part of `cur` beyond `pre` starts with `c` and continues with the part
/// beyond `mid`.
proof fn lemma_prefix_concat(pre: Seq<char>, c: char, mid: Seq<char>, cur: Seq<char>)
    requires
        mid == pre.push(c),
        mid.len() <= cur.len(),
        cur.subrange(0, mid.len() as int) == mid,
    ensures
        cur.subrange(pre.len() as int, cur.len() as int) == seq![c] + cur.subrange(
            mid.len() as int,
            cur.len() as int,
        ),
        cur.subrange(0, pre.len() as int) == pre,
{
    assert(cur.subrange(0, mid.len() as int)[pre.len() as int] == mid[pre.len() as int]);
    assert forall|n: int| 0 <= n < pre.len() implies cur.subrange(0, pre.len() as int)[n]
        == pre[n] by {
        assert(cur.subrange(0, mid.len() as int)[n] == mid[n]);
    }
    assert(cur.subrange(0, pre.len() as int) =~= pre);
    assert forall|n: int| 0 <= n < cur.len() - pre.len() implies cur.subrange(
        pre.len() as int,
        cur.len() as int,
    )[n] == (seq![c] + cur.subrange(mid.len() as int, cur.len() as int))[n] by {
        if n == 0 {
            assert(cur.subrange(0, mid.len() as int)[pre.len() as int] == mid[pre.len() as int]);
        }
    }
    assert(cur.subrange(pre.len() as int, cur.len() as int) =~= seq![c] + cur.subrange(
        mid.len() as int,
        cur.len() as int,
    ));
}

/// Relies on `char::from_u32`: `Some` exactly for Unicode scalar values,
/// returning the character with that value.
#[verifier::external_body]
fn char_from_u32(u: u32) -> (r: Option<char>)
    ensures
        is_scalar(u as nat) ==> r == Some(u as char),
        !is_scalar(u as nat) ==> r is None,
{
    char::from_u32(u)
}

/// Appends the unescaped characters of a string body to `out`, returning the
/// position just after the closing quote.
#[verifier::rlimit(50)]
fn parse_string_chars(s: &Vec<char>, i: usize, out: &mut Vec<char>) -> (r: Option<usize>)
    requires
        i <= s.len(),
    ensures
        match r {
            Some(j) => {
                &&& parse_string_body(s@, i as int) == Some(
                    (final(out)@.subrange(old(out)@.len() as int, final(out)@.len() as int), j as int),
                )
                &&& old(out)@.len() <= final(out)@.len()
                &&& final(out)@.subrange(0, old(out)@.len() as int) == old(out)@
                &&& i < j <= s.len()
            },
            None => parse_string_body(s@, i as int) is None,
        },
    decreases s@.len() - i,
{
    if i >= s.len() {
        return None;
    }
    let c = s[i];
    if c == '"' {
        proof {
            assert(out@.skip(old(out)@.len() as int) =~= Seq::<char>::empty());
            assert(out@.subrange(0, old(out)@.len() as int) =~= old(out)@);
        }
        Some(i + 1)
    } else if c == '\\' {
        if s.len() - i >= 2 {
            let e = s[i + 1];
            if e == 'u' {
                if s.len() - i >= 6 {
                    let h0 = hex_val_at(s[i + 2]);
                    let h1 = hex_val_at(s[i + 3]);
                    let h2 = hex_val_at(s[i + 4]);
                    let h3 = hex_val_at(s[i + 5]);
                    match (h0, h1, h2, h3) {
                        (Some(a), Some(b), Some(cc), Some(d)) => {
                            let u = a * 4096 + b * 256 + cc * 16 + d;
                            match char_from_u32(u) {
                                Some(uc) => {
                                    out.push(uc);
                                    let ghost mid = out@;
                                    match parse_string_chars(s, i + 6, out) {
                                        Some(j) => {
                                            proof {
                                                lemma_prefix_concat(old(out)@, uc, mid, out@);
                                            }
                                            Some(j)
                                        },
                                        None => None,
                                    }
                                },
                                None => None,
                            }
                        },
                        _ => None,
                    }
                } else {
                    None
                }
            } else {
                let sc = match e {
                    '"' => Some('"'),
                    '\\' => Some('\\'),
                    '/' => Some('/'),
                    'n' => Some('\n'),
                    't' => Some('\t'),
                    'r' => Some('\r'),
                    'b' => Some('\u{8}'),
                    'f' => Some('\u{c}'),
                    _ => None,
                };
                proof {
                    assert(sc == unescape_short(e));
                }
                match sc {
                    Some(ec) => {
                        out.push(ec);
                        let ghost mid = out@;
                        match parse_string_chars(s, i + 2, out) {
                            Some(j) => {
                                proof {
                                    lemma_prefix_concat(old(out)@, ec, mid, out@);
                                }
                                Some(j)
                            },
                            None => None,
                        }
                    },
                    None => None,
                }
            }
        } else {
            None
        }
    } else if (c as u32) < 32 {
        None
    } else {
        out.push(c);
        let ghost mid = out@;
        match parse_string_chars(s, i + 1, out) {
            Some(j) => {
                proof {
                    lemma_prefix_concat(old(out)@, c, mid, out@);
                }
                Some(j)
            },
            None => None,
        }
    }
}

/// Parses the string whose opening quote stands at `i - 1`.
fn parse_text_at(s: &Vec<char>, i: usize) -> (r: Option<(String, usize)>)
    requires
        i <= s.len(),
    ensures
        match r {
            Some((t, j)) => parse_string_body(s@, i as int) == Some((t@, j as int)) && i < j
                <= s.len(),
            None => parse_string_body(s@, i as int) is None,
        },
{
    let mut buf: Vec<char> = Vec::new();
    match parse_string_chars(s, i, &mut buf) {
        Some(j) => {
            proof {
                assert(buf@.subrange(0, buf@.len() as int) =~= buf@);
            }
            Some((crate::json::chars_to_string(&buf), j))
        },
        None => None,
    }
}

/// Appends the characters of `s` between positions `i` and `j`.
fn copy_range(s: &Vec<char>, i: usize, j: usize, out: &mut Vec<char>)
    requires
        i <= j <= s.len(),
    ensures
        final(out)@ == old(out)@ + s@.subrange(i as int, j as int),
    decreases j - i,
{
    if i < j {
        out.push(s[i]);
        copy_range(s, i + 1, j, out);
        proof {
            assert(out@ =~= old(out)@ + s@.subrange(i as int, j as int));
        }
    } else {
        proof {
            assert(out@ =~= old(out)@ + s@.subrange(i as int, j as int));
        }
    }
}

/// Parses the JSON value starting exactly at `i`.
fn parse_value_at(s: &Vec<char>, i: usize) -> (r: Option<(JsonValue, usize)>)
    requires
        i <= s.len(),
    ensures
        match r {
            Some((v, j)) => parse_value(s@, i as int) == Some((v@, j as int)) && i < j <= s.len(),
            None => parse_value(s@, i as int) is None,
        },
    decreases s@.len() - i, 0int,
{
    if i >= s.len() {
        return None;
    }
    let c = s[i];
    if c == 'n' {
        if s.len() - i >= 4 && s[i + 1] == 'u' && s[i + 2] == 'l' && s[i + 3] == 'l' {
            Some((JsonValue::Null, i + 4))
        } else {
            None
        }
    } else if c == 't' {
        if s.len() - i >= 4 && s[i + 1] == 'r' && s[i + 2] == 'u' && s[i + 3] == 'e' {
            Some((JsonValue::Bool(true), i + 4))
        } else {
            None
        }
    } else if c == 'f' {
        if s.len() - i >= 5 && s[i + 1] == 'a' && s[i + 2] == 'l' && s[i + 3] == 's' && s[i + 4]
            == 'e' {
            Some((JsonValue::Bool(false), i + 5))
        } else {
            None
        }
    } else if c == '"' {
        match parse_text_at(s, i + 1) {
            Some((t, j)) => Some((JsonValue::Text(t), j)),
            None => None,
        }
    } else if c == '[' {
        let j = skip_ws(s, i + 1);
        if j < s.len() && s[j] == ']' {
            let es: Vec<JsonValue> = Vec::new();
            proof {
                assert(jval_items(es@) =~= Seq::<JsonVal>::empty());
            }
            Some((JsonValue::Array(es), j + 1))
        } else {
            match parse_elems_at(s, j) {
                Some((es, m)) => Some((JsonValue::Array(es), m)),
                None => None,
            }
        }
    } else if c == '{' {
        let j = skip_ws(s, i + 1);
        if j < s.len() && s[j] == '}' {
            let fs: Vec<(String, JsonValue)> = Vec::new();
            proof {
                assert(jval_fields(fs@) =~= Seq::<(Seq<char>, JsonVal)>::empty());
            }
            Some((JsonValue::Object(fs), j + 1))
        } else {
            match parse_members_at(s, j) {
                Some((fs, m)) => Some((JsonValue::Object(fs), m)),
                None => None,
            }
        }
    } else if c == '-' || is_digit_char(c) {
        match number_end_at(s, i) {
            Some(j) => {
                let mut buf: Vec<char> = Vec::new();
                copy_range(s, i, j, &mut buf);
                Some((JsonValue::Number(crate::json::chars_to_string(&buf)), j))
            },
            None => None,
        }
    } else {
        None
    }
}

/// Parses the elements of a non-empty array, starting at the first value.
fn parse_elems_at(s: &Vec<char>, i: usize) -> (r: Option<(Vec<JsonValue>, usize)>)
    requires
        i <= s.len(),
    ensures
        match r {
            Some((es, m)) => parse_elems(s@, i as int) == Some((jval_items(es@), m as int)) && i
                < m <= s.len(),
            None => parse_elems(s@, i as int) is None,
        },
    decreases s@.len() - i, 1int,
{
    match parse_value_at(s, i) {
        None => None,
        Some((v, j)) => {
            let j2 = skip_ws(s, j);
            if j2 < s.len() && s[j2] == ',' {
                let k = skip_ws(s, j2 + 1);
                match parse_elems_at(s, k) {
                    Some((es, m)) => {
                        let ghost pre = es@;
                        let mut es = es;
                        es.insert(0, v);
                        proof {
                            assert(es@ =~= seq![v] + pre);
                            assert(es@.drop_first() =~= pre);
                            assert(jval_items(es@) =~= seq![jval(v)] + jval_items(pre));
                        }
                        Some((es, m))
                    },
                    None => None,
                }
            } else if j2 < s.len() && s[j2] == ']' {
                let mut es: Vec<JsonValue> = Vec::new();
                es.push(v);
                proof {
                    assert(es@.drop_first() =~= Seq::<JsonValue>::empty());
                    assert(jval_items(Seq::<JsonValue>::empty()) =~= Seq::<JsonVal>::empty());
                    assert(jval_items(es@) =~= seq![jval(v)]);
                }
                Some((es, j2 + 1))
            } else {
                None
            }
        },
    }
}

/// Parses the members of a non-empty object, starting at the first key.
fn parse_members_at(s: &Vec<char>, i: usize) -> (r: Option<(Vec<(String, JsonValue)>, usize)>)
    requires
        i <= s.len(),
    ensures
        match r {
            Some((fs, m)) => parse_members(s@, i as int) == Some((jval_fields(fs@), m as int))
                && i < m <= s.len(),
            None => parse_members(s@, i as int) is None,
        },
    decreases s@.len() - i, 1int,
{
    if i < s.len() && s[i] == '"' {
        match parse_text_at(s, i + 1) {
            None => None,
            Some((key, j)) => {
                let j2 = skip_ws(s, j);
                if j2 < s.len() && s[j2] == ':' {
                    let vk = skip_ws(s, j2 + 1);
                    match parse_value_at(s, vk) {
                        None => None,
                        Some((v, j3)) => {
                            let j4 = skip_ws(s, j3);
                            if j4 < s.len() && s[j4] == ',' {
                                let k = skip_ws(s, j4 + 1);
                                match parse_members_at(s, k) {
                                    Some((fs, m)) => {
                                        let ghost pre = fs@;
                                        let mut fs = fs;
                                        fs.insert(0, (key, v));
                                        proof {
                                            assert(fs@ =~= seq![(key, v)] + pre);
                                            assert(fs@.drop_first() =~= pre);
                                            assert(jval_fields(fs@) =~= seq![(key@, jval(v))]
                                                + jval_fields(pre));
                                        }
                                        Some((fs, m))
                                    },
                                    None => None,
                                }
                            } else if j4 < s.len() && s[j4] == '}' {
                                let mut fs: Vec<(String, JsonValue)> = Vec::new();
                                fs.push((key, v));
                                proof {
                                    assert(fs@.drop_first() =~= Seq::<(String, JsonValue)>::empty());
                                    assert(jval_fields(Seq::<(String, JsonValue)>::empty()) =~= Seq::<
                                        (Seq<char>, JsonVal),
                                    >::empty());
                                    assert(jval_fields(fs@) =~= seq![(key@, jval(v))]);
                                }
                                Some((fs, j4 + 1))
                            } else {
                                None
                            }
                        },
                    }
                } else {
                    None
                }
            },
        }
    } else {
        None
    }
}

/// Parses a whole JSON text: one value with only whitespace around it.
pub fn parse_json_text(s: &str) -> (r: Option<JsonValue>)
    ensures
        match r {
            Some(v) => parse_json(s@) == Some(v@),
            None => parse_json(s@) is None,
        },
{
    let cs = crate::json::to_chars(s);
    let i = skip_ws(&cs, 0);
    match parse_value_at(&cs, i) {
        Some((v, j)) => {
            let e = skip_ws(&cs, j);
            if e == cs.len() {
                Some(v)
            } else {
                None
            }
        },
        None => None,
    }
}

} // verus!
