//! A small JSON reader and writer. Object members stay in a `Vec`, so their
//! order is kept on write and duplicate keys stay visible to the caller.
//! A number is kept as the text it was written with.

use vstd::prelude::*;
use crate::text::{
    append_chars, decimal, is_digit, is_whitespace, is_ws, push_decimal, push_str, slice_chars,
    string_of,
};

verus! {

/// A JSON value.
#[derive(Debug)]
pub enum Value {
    Null,
    Bool(bool),
    Number(String),
    String(String),
    Array(Vec<Value>),
    Object(Vec<(String, Value)>),
}

/// The mathematical value of a JSON value.
pub enum JsonM {
    Null,
    Bool(bool),
    Number(Seq<char>),
    Str(Seq<char>),
    Array(Seq<JsonM>),
    Object(Seq<(Seq<char>, JsonM)>),
}

pub open spec fn value_view(v: Value) -> JsonM
    decreases v,
{
    match v {
        Value::Null => JsonM::Null,
        Value::Bool(b) => JsonM::Bool(b),
        Value::Number(t) => JsonM::Number(t@),
        Value::String(t) => JsonM::Str(t@),
        Value::Array(a) => JsonM::Array(values_view(a@)),
        Value::Object(o) => JsonM::Object(members_view(o@)),
    }
}

pub open spec fn values_view(s: Seq<Value>) -> Seq<JsonM>
    decreases s,
{
    if s.len() == 0 {
        seq![]
    } else {
        values_view(s.subrange(0, s.len() - 1)).push(value_view(s[s.len() - 1]))
    }
}

pub open spec fn members_view(s: Seq<(String, Value)>) -> Seq<(Seq<char>, JsonM)>
    decreases s,
{
    if s.len() == 0 {
        seq![]
    } else {
        members_view(s.subrange(0, s.len() - 1)).push(
            (s[s.len() - 1].0@, value_view(s[s.len() - 1].1)),
        )
    }
}

impl View for Value {
    type V = JsonM;

    open spec fn view(&self) -> JsonM {
        value_view(*self)
    }
}


// ---------------------------------------------------------------- reading

/// The first position at or after `p` that does not hold white space.
pub open spec fn skip_ws_spec(s: Seq<char>, p: int) -> int
    decreases s.len() - p,
{
    if 0 <= p < s.len() && is_ws(s[p]) {
        skip_ws_spec(s, p + 1)
    } else {
        p
    }
}

pub proof fn lemma_skip_ws(s: Seq<char>, p: int)
    ensures
        p <= skip_ws_spec(s, p),
        p <= s.len() ==> skip_ws_spec(s, p) <= s.len(),
        forall|k: int| p <= k < skip_ws_spec(s, p) ==> is_ws(#[trigger] s[k]),
        0 <= skip_ws_spec(s, p) < s.len() ==> !is_ws(s[skip_ws_spec(s, p)]),
        skip_ws_spec(s, skip_ws_spec(s, p)) == skip_ws_spec(s, p),
    decreases s.len() - p,
{
    if 0 <= p < s.len() && is_ws(s[p]) {
        lemma_skip_ws(s, p + 1);
    }
}

pub open spec fn msg_at(text: Seq<char>, p: int) -> Seq<char> {
    text + decimal(p as nat)
}

pub open spec fn msg_trailing(p: int) -> Seq<char> {
    msg_at("unexpected trailing content at position "@, p)
}

pub open spec fn msg_unexpected_char(c: char, p: int) -> Seq<char> {
    "unexpected character '"@ + seq![c] + msg_at("' at position "@, p)
}

pub open spec fn msg_end_of_input() -> Seq<char> {
    "unexpected end of input"@
}

pub open spec fn msg_invalid_literal(p: int) -> Seq<char> {
    msg_at("invalid literal at position "@, p)
}

pub open spec fn msg_expected_key(p: int) -> Seq<char> {
    msg_at("expected string key at position "@, p)
}

pub open spec fn msg_expected_colon(p: int) -> Seq<char> {
    msg_at("expected ':' at position "@, p)
}

pub open spec fn msg_expected_member_sep(p: int) -> Seq<char> {
    msg_at("expected ',' or '}' at position "@, p)
}

pub open spec fn msg_expected_item_sep(p: int) -> Seq<char> {
    msg_at("expected ',' or ']' at position "@, p)
}

pub open spec fn msg_invalid_escape(p: int) -> Seq<char> {
    msg_at("invalid escape sequence at position "@, p)
}

pub open spec fn msg_unterminated() -> Seq<char> {
    "unterminated string"@
}

pub open spec fn msg_truncated_escape() -> Seq<char> {
    "truncated unicode escape"@
}

pub open spec fn msg_invalid_unicode(hex: Seq<char>) -> Seq<char> {
    "invalid unicode escape '"@ + hex + "'"@
}

pub open spec fn msg_invalid_number(t: Seq<char>) -> Seq<char> {
    "invalid number '"@ + t + "'"@
}

pub open spec fn lit_true() -> Seq<char> {
    seq!['t', 'r', 'u', 'e']
}

pub open spec fn lit_false() -> Seq<char> {
    seq!['f', 'a', 'l', 's', 'e']
}

pub open spec fn lit_null() -> Seq<char> {
    seq!['n', 'u', 'l', 'l']
}

/// The keyword `lit` at `p`, standing for `v`.
pub open spec fn p_literal(s: Seq<char>, p: int, lit: Seq<char>, v: JsonM) -> Result<(JsonM, int), Seq<char>> {
    if p + lit.len() <= s.len() && s.subrange(p, p + lit.len()) == lit {
        Ok((v, p + lit.len()))
    } else {
        Err(msg_invalid_literal(p))
    }
}

pub open spec fn is_hex(c: char) -> bool {
    ('0' <= c <= '9') || ('a' <= c <= 'f') || ('A' <= c <= 'F')
}

pub open spec fn hex_digit_value(c: char) -> nat {
    if '0' <= c <= '9' {
        (c as u32 - '0' as u32) as nat
    } else if 'a' <= c <= 'f' {
        (c as u32 - 'a' as u32 + 10) as nat
    } else {
        (c as u32 - 'A' as u32 + 10) as nat
    }
}

pub open spec fn all_hex(t: Seq<char>) -> bool {
    forall|i: int| 0 <= i < t.len() ==> #[trigger] is_hex(t[i])
}

pub open spec fn hex_value(t: Seq<char>) -> nat
    decreases t.len(),
{
    if t.len() == 0 {
        0
    } else {
        hex_value(t.drop_last()) * 16 + hex_digit_value(t.last())
    }
}

/// The four characters at `start` read as a hexadecimal `u32` the way
/// `u32::from_str_radix(_, 16)` reads them: four hex digits, or `+` and three.
pub open spec fn p_hex4(s: Seq<char>, start: int) -> Result<u32, Seq<char>> {
    if start + 4 > s.len() {
        Err(msg_truncated_escape())
    } else {
        let h = s.subrange(start, start + 4);
        if all_hex(h) {
            Ok(hex_value(h) as u32)
        } else if h[0] == '+' && all_hex(h.skip(1)) {
            Ok(hex_value(h.skip(1)) as u32)
        } else {
            Err(msg_invalid_unicode(h))
        }
    }
}

/// The character of a `\u` code: U+FFFD for a surrogate.
pub open spec fn code_char(code: u32) -> char {
    if 0xD800 <= code <= 0xDFFF {
        '\u{FFFD}'
    } else {
        code as char
    }
}

/// The character that `\c` stands for, for the one-letter escapes.
pub open spec fn simple_escape(c: char) -> Option<char> {
    if c == '"' {
        Some('"')
    } else if c == '\\' {
        Some('\\')
    } else if c == '/' {
        Some('/')
    } else if c == 'b' {
        Some('\u{8}')
    } else if c == 'f' {
        Some('\u{c}')
    } else if c == 'n' {
        Some('\n')
    } else if c == 'r' {
        Some('\r')
    } else if c == 't' {
        Some('\t')
    } else {
        None
    }
}

/// The rest of a string literal from `p` (just after the opening quote, or
/// further in with `acc` read so far): its characters and the position after
/// the closing quote.
pub open spec fn p_string(s: Seq<char>, p: int, acc: Seq<char>) -> Result<(Seq<char>, int), Seq<char>>
    decreases s.len() - p,
{
    if p < 0 || p >= s.len() {
        Err(msg_unterminated())
    } else if s[p] == '"' {
        Ok((acc, p + 1))
    } else if s[p] == '\\' {
        if p + 1 >= s.len() {
            Err(msg_invalid_escape(p + 1))
        } else if s[p + 1] == 'u' {
            match p_hex4(s, p + 2) {
                Ok(code) => p_string(s, p + 6, acc.push(code_char(code))),
                Err(m) => Err(m),
            }
        } else {
            match simple_escape(s[p + 1]) {
                Some(c) => p_string(s, p + 2, acc.push(c)),
                None => Err(msg_invalid_escape(p + 1)),
            }
        }
    } else {
        p_string(s, p + 1, acc.push(s[p]))
    }
}

pub proof fn lemma_p_string_end(s: Seq<char>, p: int, acc: Seq<char>)
    ensures
        p_string(s, p, acc) matches Ok((t, e)) ==> p < e <= s.len(),
    decreases s.len() - p,
{
    if 0 <= p < s.len() && s[p] != '"' {
        if s[p] == '\\' {
            if p + 1 < s.len() {
                if s[p + 1] == 'u' {
                    if let Ok(code) = p_hex4(s, p + 2) {
                        lemma_p_string_end(s, p + 6, acc.push(code_char(code)));
                    }
                } else if let Some(c) = simple_escape(s[p + 1]) {
                    lemma_p_string_end(s, p + 2, acc.push(c));
                }
            }
        } else {
            lemma_p_string_end(s, p + 1, acc.push(s[p]));
        }
    }
}

/// The first position at or after `p` that does not hold a decimal digit.
pub open spec fn scan_digits(s: Seq<char>, p: int) -> int
    decreases s.len() - p,
{
    if 0 <= p < s.len() && is_digit(s[p]) {
        scan_digits(s, p + 1)
    } else {
        p
    }
}

pub proof fn lemma_scan_digits(s: Seq<char>, p: int)
    ensures
        p <= scan_digits(s, p),
        p <= s.len() ==> scan_digits(s, p) <= s.len(),
        forall|k: int| p <= k < scan_digits(s, p) ==> is_digit(#[trigger] s[k]),
        0 <= scan_digits(s, p) < s.len() ==> !is_digit(s[scan_digits(s, p)]),
    decreases s.len() - p,
{
    if 0 <= p < s.len() && is_digit(s[p]) {
        lemma_scan_digits(s, p + 1);
    }
}

/// The shape of the number token starting at `p`: `-`? digits (`.` digits)?
/// ([eE] [+-]? digits)?. The tuple holds the start of the integer digits, its
/// end, whether a `.` follows, the end of the fraction, whether an exponent
/// follows, the start of the exponent digits and the end of the token.
pub open spec fn number_shape(s: Seq<char>, p: int) -> (int, int, bool, int, bool, int, int) {
    let a = if p < s.len() && s[p] == '-' {
        p + 1
    } else {
        p
    };
    let b = scan_digits(s, a);
    let dot = b < s.len() && s[b] == '.';
    let c = if dot {
        scan_digits(s, b + 1)
    } else {
        b
    };
    let exp = c < s.len() && (s[c] == 'e' || s[c] == 'E');
    let d = if exp {
        if c + 1 < s.len() && (s[c + 1] == '+' || s[c + 1] == '-') {
            c + 2
        } else {
            c + 1
        }
    } else {
        c
    };
    let e = if exp {
        scan_digits(s, d)
    } else {
        c
    };
    (a, b, dot, c, exp, d, e)
}

/// The number token at `p`. Like `f64` parsing, it needs a digit before or
/// after the point, and at least one exponent digit after an `e`.
pub open spec fn p_number(s: Seq<char>, p: int) -> Result<(JsonM, int), Seq<char>> {
    let (a, b, dot, c, exp, d, e) = number_shape(s, p);
    let digits = (b - a) + if dot {
        c - (b + 1)
    } else {
        0
    };
    let text = s.subrange(p, e);
    if digits >= 1 && (!exp || e > d) {
        Ok((JsonM::Number(text), e))
    } else {
        Err(msg_invalid_number(text))
    }
}

/// Whether `t` is exactly one number token.
pub open spec fn number_token(t: Seq<char>) -> bool {
    t.len() > 0 && (t[0] == '-' || is_digit(t[0])) && p_number(t, 0) == Ok::<(JsonM, int), Seq<char>>(
        (JsonM::Number(t), t.len() as int),
    )
}

/// The value at `p` (after white space) and the position after it.
pub open spec fn p_value(s: Seq<char>, p: int) -> Result<(JsonM, int), Seq<char>>
    decreases s.len() - p, 0int,
{
    let q = skip_ws_spec(s, p);
    if q < p || q >= s.len() {
        Err(msg_end_of_input())
    } else {
        let c = s[q];
        if c == '{' {
            p_object(s, q + 1)
        } else if c == '[' {
            p_array(s, q + 1)
        } else if c == '"' {
            match p_string(s, q + 1, seq![]) {
                Ok((t, e)) => Ok((JsonM::Str(t), e)),
                Err(m) => Err(m),
            }
        } else if c == 't' {
            p_literal(s, q, lit_true(), JsonM::Bool(true))
        } else if c == 'f' {
            p_literal(s, q, lit_false(), JsonM::Bool(false))
        } else if c == 'n' {
            p_literal(s, q, lit_null(), JsonM::Null)
        } else if c == '-' || is_digit(c) {
            p_number(s, q)
        } else {
            Err(msg_unexpected_char(c, q))
        }
    }
}

/// An object's members from `p` (just after the `{`).
pub open spec fn p_object(s: Seq<char>, p: int) -> Result<(JsonM, int), Seq<char>>
    decreases s.len() - p, 2int,
{
    let q = skip_ws_spec(s, p);
    if q < p || q > s.len() {
        Err(seq![])
    } else if q < s.len() && s[q] == '}' {
        Ok((JsonM::Object(seq![]), q + 1))
    } else {
        p_members(s, q, seq![])
    }
}

/// The remaining members of an object from `p`, after the members `acc`.
pub open spec fn p_members(s: Seq<char>, p: int, acc: Seq<(Seq<char>, JsonM)>) -> Result<
    (JsonM, int),
    Seq<char>,
>
    decreases s.len() - p, 1int,
{
    let q = skip_ws_spec(s, p);
    if !(p <= q < s.len() && s[q] == '"') {
        Err(msg_expected_key(q))
    } else {
        match p_string(s, q + 1, seq![]) {
            Err(m) => Err(m),
            Ok((key, q2)) => {
                let q3 = skip_ws_spec(s, q2);
                if !(q < q3 < s.len() && s[q3] == ':') {
                    Err(msg_expected_colon(q3))
                } else {
                    match p_value(s, q3 + 1) {
                        Err(m) => Err(m),
                        Ok((v, q4)) => {
                            let q5 = skip_ws_spec(s, q4);
                            let acc2 = acc.push((key, v));
                            if q5 < s.len() && s[q5] == ',' {
                                if q5 > q3 {
                                    p_members(s, q5 + 1, acc2)
                                } else {
                                    Err(seq![])
                                }
                            } else if q5 < s.len() && s[q5] == '}' {
                                Ok((JsonM::Object(acc2), q5 + 1))
                            } else {
                                Err(msg_expected_member_sep(q5))
                            }
                        },
                    }
                }
            },
        }
    }
}

/// An array's items from `p` (just after the `[`).
pub open spec fn p_array(s: Seq<char>, p: int) -> Result<(JsonM, int), Seq<char>>
    decreases s.len() - p, 2int,
{
    let q = skip_ws_spec(s, p);
    if q < p || q > s.len() {
        Err(seq![])
    } else if q < s.len() && s[q] == ']' {
        Ok((JsonM::Array(seq![]), q + 1))
    } else {
        p_items(s, q, seq![])
    }
}

/// The remaining items of an array from `p`, after the items `acc`.
pub open spec fn p_items(s: Seq<char>, p: int, acc: Seq<JsonM>) -> Result<(JsonM, int), Seq<char>>
    decreases s.len() - p, 1int,
{
    match p_value(s, p) {
        Err(m) => Err(m),
        Ok((v, q)) => {
            let q2 = skip_ws_spec(s, q);
            let acc2 = acc.push(v);
            if q2 < s.len() && s[q2] == ',' {
                if q2 >= p {
                    p_items(s, q2 + 1, acc2)
                } else {
                    Err(seq![])
                }
            } else if q2 < s.len() && s[q2] == ']' {
                Ok((JsonM::Array(acc2), q2 + 1))
            } else {
                Err(msg_expected_item_sep(q2))
            }
        },
    }
}

/// What reading a whole JSON text gives: one value with nothing but white
/// space after it.
pub open spec fn parse_spec(s: Seq<char>) -> Result<JsonM, Seq<char>> {
    match p_value(s, 0) {
        Err(m) => Err(m),
        Ok((v, p)) => {
            let q = skip_ws_spec(s, p);
            if q != s.len() {
                Err(msg_trailing(q))
            } else {
                Ok(v)
            }
        },
    }
}


/// Whether an exec parse result is the spec result.
pub open spec fn value_result_is(r: Result<(Value, usize), String>, s: Result<(JsonM, int), Seq<char>>) -> bool {
    match s {
        Ok((m, q)) => r matches Ok((v, q2)) && v@ == m && q2 == q,
        Err(e) => r matches Err(msg) && msg@ == e,
    }
}

fn message(text: &str) -> (m: String)
    ensures
        m@ == text@,
{
    String::from_str(text)
}

fn message_at(text: &str, p: usize) -> (m: String)
    ensures
        m@ == msg_at(text@, p as int),
{
    let mut v: Vec<char> = Vec::new();
    push_str(&mut v, text);
    push_decimal(&mut v, p as u64);
    string_of(&v)
}

fn skip_ws(chars: &Vec<char>, pos: usize) -> (r: usize)
    requires
        pos <= chars.len(),
    ensures
        r == skip_ws_spec(chars@, pos as int),
        pos <= r <= chars.len(),
{
    let mut p = pos;
    while p < chars.len() && is_whitespace(chars[p])
        invariant
            pos <= p <= chars.len(),
            skip_ws_spec(chars@, pos as int) == skip_ws_spec(chars@, p as int),
        decreases chars.len() - p,
    {
        p = p + 1;
    }
    p
}

fn parse_literal(chars: &Vec<char>, pos: usize, lit: &Vec<char>, value: Value) -> (r: Result<(Value, usize), String>)
    requires
        pos <= chars.len(),
    ensures
        value_result_is(r, p_literal(chars@, pos as int, lit@, value@)),
{
    if lit.len() <= chars.len() - pos {
        let mut i: usize = 0;
        while i < lit.len()
            invariant
                i <= lit.len(),
                pos + lit.len() <= chars.len(),
                forall|j: int| 0 <= j < i ==> chars@[pos + j] == lit@[j],
            decreases lit.len() - i,
        {
            if chars[pos + i] != lit[i] {
                assert(chars@.subrange(pos as int, pos + lit.len())[i as int] != lit@[i as int]);
                return Err(message_at("invalid literal at position ", pos));
            }
            i = i + 1;
        }
        assert(chars@.subrange(pos as int, pos + lit.len()) =~= lit@);
        Ok((value, pos + lit.len()))
    } else {
        Err(message_at("invalid literal at position ", pos))
    }
}

fn hex_digit(c: char) -> (r: Option<u32>)
    ensures
        r matches Some(d) ==> is_hex(c) && d == hex_digit_value(c),
        r is None ==> !is_hex(c),
{
    if '0' <= c && c <= '9' {
        Some(c as u32 - '0' as u32)
    } else if 'a' <= c && c <= 'f' {
        Some(c as u32 - 'a' as u32 + 10)
    } else if 'A' <= c && c <= 'F' {
        Some(c as u32 - 'A' as u32 + 10)
    } else {
        None
    }
}

/// The hex value of `chars[from..to]` when every character there is a hex digit.
fn hex_run(chars: &Vec<char>, from: usize, to: usize) -> (r: Option<u32>)
    requires
        from <= to <= chars.len(),
        to - from <= 4,
    ensures
        r matches Some(n) ==> all_hex(chars@.subrange(from as int, to as int)) && n == hex_value(
            chars@.subrange(from as int, to as int),
        ) && n < pow16(to - from),
        r is None ==> !all_hex(chars@.subrange(from as int, to as int)),
{
    let ghost h = chars@.subrange(from as int, to as int);
    let mut acc: u32 = 0;
    let mut i = from;
    assert(h.take(0) =~= Seq::<char>::empty());
    while i < to
        invariant
            from <= i <= to <= chars.len(),
            to - from <= 4,
            h == chars@.subrange(from as int, to as int),
            all_hex(h.take(i - from)),
            acc == hex_value(h.take(i - from)),
            acc < pow16(i - from),
        decreases to - i,
    {
        match hex_digit(chars[i]) {
            Some(d) => {
                assert(pow16(i - from) <= 4096) by {
                    reveal_with_fuel(pow16, 4);
                }
                assert(h.take(i - from + 1).drop_last() =~= h.take(i - from));
                assert(h.take(i - from + 1).last() == chars@[i as int]);
                assert(acc * 16 + d < pow16(i - from + 1)) by (nonlinear_arith)
                    requires
                        acc < pow16(i - from),
                        d < 16,
                        pow16(i - from + 1) == pow16(i - from) * 16,
                ;
                acc = acc * 16 + d;
                i = i + 1;
                assert(all_hex(h.take(i - from)));
            },
            None => {
                assert(!is_hex(h[i - from]));
                return None;
            },
        }
    }
    assert(h.take(i - from) =~= h);
    Some(acc)
}

pub open spec fn pow16(n: int) -> int
    decreases n,
{
    if n <= 0 {
        1
    } else {
        16 * pow16(n - 1)
    }
}

fn parse_hex4(chars: &Vec<char>, start: usize) -> (r: Result<u32, String>)
    requires
        start <= chars.len(),
    ensures
        match p_hex4(chars@, start as int) {
            Ok(n) => r matches Ok(m) && m == n && n <= 0xffff,
            Err(e) => r matches Err(msg) && msg@ == e,
        },
{
    if chars.len() - start < 4 {
        return Err(message("truncated unicode escape"));
    }
    let ghost h = chars@.subrange(start as int, start + 4);
    assert(pow16(4) == 0x10000 && pow16(3) == 0x1000) by {
        reveal_with_fuel(pow16, 5);
    }
    match hex_run(chars, start, start + 4) {
        Some(n) => Ok(n),
        None => {
            if chars[start] == '+' {
                assert(h.skip(1) =~= chars@.subrange(start + 1, start + 4));
                if let Some(n) = hex_run(chars, start + 1, start + 4) {
                    return Ok(n);
                }
            }
            let hv = slice_chars(chars, start, start + 4);
            let mut m: Vec<char> = Vec::new();
            push_str(&mut m, "invalid unicode escape '");
            append_chars(&mut m, &hv);
            push_str(&mut m, "'");
            assert(m@ =~= msg_invalid_unicode(h));
            Err(string_of(&m))
        },
    }
}

/// Calls `char::from_u32`, which gives `None` exactly for surrogates and
/// values above U+10FFFF.
#[verifier::external_body]
fn char_from_u32(code: u32) -> (r: Option<char>)
    ensures
        r == if code < 0xD800 || (0xDFFF < code && code <= 0x10FFFF) {
            Some(code as char)
        } else {
            None::<char>
        },
{
    char::from_u32(code)
}

fn code_to_char(code: u32) -> (c: char)
    requires
        code <= 0xffff,
    ensures
        c == code_char(code),
{
    match char_from_u32(code) {
        Some(c) => c,
        None => '\u{FFFD}',
    }
}

fn simple_escape_exec(c: char) -> (r: Option<char>)
    ensures
        r == simple_escape(c),
{
    if c == '"' {
        Some('"')
    } else if c == '\\' {
        Some('\\')
    } else if c == '/' {
        Some('/')
    } else if c == 'b' {
        Some('\u{8}')
    } else if c == 'f' {
        Some('\u{c}')
    } else if c == 'n' {
        Some('\n')
    } else if c == 'r' {
        Some('\r')
    } else if c == 't' {
        Some('\t')
    } else {
        None
    }
}

/// Reads a string literal whose opening quote stands just before `pos`.
fn parse_string(chars: &Vec<char>, pos: usize) -> (r: Result<(String, usize), String>)
    requires
        pos <= chars.len(),
    ensures
        match p_string(chars@, pos as int, seq![]) {
            Ok((t, e)) => r matches Ok((st, q)) && st@ == t && q == e && pos < q <= chars.len(),
            Err(m) => r matches Err(msg) && msg@ == m,
        },
{
    let mut acc: Vec<char> = Vec::new();
    let mut p = pos;
    loop
        invariant
            pos <= p <= chars.len(),
            p_string(chars@, pos as int, seq![]) == p_string(chars@, p as int, acc@),
        decreases chars.len() - p,
    {
        if p >= chars.len() {
            return Err(message("unterminated string"));
        }
        let c = chars[p];
        if c == '"' {
            return Ok((string_of(&acc), p + 1));
        }
        if c == '\\' {
            if p + 1 >= chars.len() {
                return Err(message_at("invalid escape sequence at position ", p + 1));
            }
            let e = chars[p + 1];
            if e == 'u' {
                match parse_hex4(chars, p + 2) {
                    Ok(code) => {
                        acc.push(code_to_char(code));
                        p = p + 6;
                    },
                    Err(m) => {
                        return Err(m);
                    },
                }
            } else {
                match simple_escape_exec(e) {
                    Some(x) => {
                        acc.push(x);
                        p = p + 2;
                    },
                    None => {
                        return Err(message_at("invalid escape sequence at position ", p + 1));
                    },
                }
            }
        } else {
            acc.push(c);
            p = p + 1;
        }
    }
}

pub(crate) fn scan_digits_exec(chars: &Vec<char>, pos: usize) -> (r: usize)
    requires
        pos <= chars.len(),
    ensures
        r == scan_digits(chars@, pos as int),
        pos <= r <= chars.len(),
{
    let mut p = pos;
    while p < chars.len() && '0' <= chars[p] && chars[p] <= '9'
        invariant
            pos <= p <= chars.len(),
            scan_digits(chars@, pos as int) == scan_digits(chars@, p as int),
        decreases chars.len() - p,
    {
        p = p + 1;
    }
    p
}

/// The positions that `number_shape` describes for the token at `pos`.
pub(crate) fn number_positions(chars: &Vec<char>, pos: usize) -> (r: (usize, usize, bool, usize, bool, usize, usize))
    requires
        pos < chars.len(),
    ensures
        number_shape(chars@, pos as int) == (
            r.0 as int,
            r.1 as int,
            r.2,
            r.3 as int,
            r.4,
            r.5 as int,
            r.6 as int,
        ),
        pos <= r.0 <= r.1 <= r.3 <= r.5 <= r.6 <= chars.len(),
        r.0 <= pos + 1,
        r.2 ==> r.1 < r.3,
        r.4 ==> r.3 < r.5,
        !r.4 ==> r.5 == r.3 && r.6 == r.3,
{
    let len = chars.len();
    let a = if chars[pos] == '-' {
        pos + 1
    } else {
        pos
    };
    let b = scan_digits_exec(chars, a);
    let dot = b < len && chars[b] == '.';
    let c = if dot {
        scan_digits_exec(chars, b + 1)
    } else {
        b
    };
    let exp = c < len && (chars[c] == 'e' || chars[c] == 'E');
    let d = if exp {
        if c + 1 < len && (chars[c + 1] == '+' || chars[c + 1] == '-') {
            c + 2
        } else {
            c + 1
        }
    } else {
        c
    };
    let e = if exp {
        scan_digits_exec(chars, d)
    } else {
        c
    };
    (a, b, dot, c, exp, d, e)
}

pub(crate) fn parse_number(chars: &Vec<char>, pos: usize) -> (r: Result<(Value, usize), String>)
    requires
        pos < chars.len(),
    ensures
        value_result_is(r, p_number(chars@, pos as int)),
        r matches Ok((_, q)) ==> pos < q <= chars.len(),
{
    let (a, b, dot, c, exp, d, e) = number_positions(chars, pos);
    let digits = (b - a) + if dot {
        c - (b + 1)
    } else {
        0
    };
    let text = slice_chars(chars, pos, e);
    if digits >= 1 && (!exp || e > d) {
        Ok((Value::Number(string_of(&text)), e))
    } else {
        let mut m: Vec<char> = Vec::new();
        push_str(&mut m, "invalid number '");
        append_chars(&mut m, &text);
        push_str(&mut m, "'");
        assert(m@ =~= msg_invalid_number(text@));
        Err(string_of(&m))
    }
}

/// Reads the value at `pos` (after white space).
fn parse_value(chars: &Vec<char>, pos: usize) -> (r: Result<(Value, usize), String>)
    requires
        pos <= chars.len(),
    ensures
        value_result_is(r, p_value(chars@, pos as int)),
        r matches Ok((_, q)) ==> pos < q <= chars.len(),
    decreases chars.len() - pos, 0int,
{
    let q = skip_ws(chars, pos);
    if q >= chars.len() {
        return Err(message("unexpected end of input"));
    }
    let c = chars[q];
    if c == '{' {
        parse_object(chars, q + 1)
    } else if c == '[' {
        parse_array(chars, q + 1)
    } else if c == '"' {
        match parse_string(chars, q + 1) {
            Ok((t, e)) => Ok((Value::String(t), e)),
            Err(m) => Err(m),
        }
    } else if c == 't' {
        let lit = vec!['t', 'r', 'u', 'e'];
        assert(lit@ =~= lit_true());
        parse_literal(chars, q, &lit, Value::Bool(true))
    } else if c == 'f' {
        let lit = vec!['f', 'a', 'l', 's', 'e'];
        assert(lit@ =~= lit_false());
        parse_literal(chars, q, &lit, Value::Bool(false))
    } else if c == 'n' {
        let lit = vec!['n', 'u', 'l', 'l'];
        assert(lit@ =~= lit_null());
        parse_literal(chars, q, &lit, Value::Null)
    } else if c == '-' || ('0' <= c && c <= '9') {
        parse_number(chars, q)
    } else {
        let mut m: Vec<char> = Vec::new();
        push_str(&mut m, "unexpected character '");
        m.push(c);
        push_str(&mut m, "' at position ");
        push_decimal(&mut m, q as u64);
        assert(m@ =~= msg_unexpected_char(c, q as int));
        Err(string_of(&m))
    }
}

/// Reads an object whose `{` stands just before `pos`.
fn parse_object(chars: &Vec<char>, pos: usize) -> (r: Result<(Value, usize), String>)
    requires
        1 <= pos <= chars.len(),
    ensures
        value_result_is(r, p_object(chars@, pos as int)),
        r matches Ok((_, q)) ==> pos <= q <= chars.len(),
    decreases chars.len() - pos, 2int,
{
    let ghost s = chars@;
    let mut entries: Vec<(String, Value)> = Vec::new();
    let mut p = skip_ws(chars, pos);
    if p < chars.len() && chars[p] == '}' {
        proof {
            assert(members_view(entries@) =~= Seq::<(Seq<char>, JsonM)>::empty());
        }
        return Ok((Value::Object(entries), p + 1));
    }
    proof {
        lemma_skip_ws(s, pos as int);
        assert(members_view(entries@) =~= Seq::<(Seq<char>, JsonM)>::empty());
    }
    loop
        invariant
            s == chars@,
            1 <= pos <= p <= chars.len(),
            p_object(s, pos as int) == p_members(s, p as int, members_view(entries@)),
        decreases chars.len() - p,
    {
        let q = skip_ws(chars, p);
        if !(q < chars.len() && chars[q] == '"') {
            return Err(message_at("expected string key at position ", q));
        }
        let (key, q2) = match parse_string(chars, q + 1) {
            Ok(x) => x,
            Err(m) => {
                return Err(m);
            },
        };
        let q3 = skip_ws(chars, q2);
        if !(q3 < chars.len() && chars[q3] == ':') {
            return Err(message_at("expected ':' at position ", q3));
        }
        let (v, q4) = match parse_value(chars, q3 + 1) {
            Ok(x) => x,
            Err(m) => {
                return Err(m);
            },
        };
        let q5 = skip_ws(chars, q4);
        let ghost before = entries@;
        entries.push((key, v));
        assert(entries@.subrange(0, entries@.len() - 1) =~= before);
        if q5 < chars.len() && chars[q5] == ',' {
            p = q5 + 1;
        } else if q5 < chars.len() && chars[q5] == '}' {
            return Ok((Value::Object(entries), q5 + 1));
        } else {
            return Err(message_at("expected ',' or '}' at position ", q5));
        }
    }
}

/// Reads an array whose `[` stands just before `pos`.
fn parse_array(chars: &Vec<char>, pos: usize) -> (r: Result<(Value, usize), String>)
    requires
        1 <= pos <= chars.len(),
    ensures
        value_result_is(r, p_array(chars@, pos as int)),
        r matches Ok((_, q)) ==> pos <= q <= chars.len(),
    decreases chars.len() - pos, 2int,
{
    let ghost s = chars@;
    let mut items: Vec<Value> = Vec::new();
    let mut p = skip_ws(chars, pos);
    if p < chars.len() && chars[p] == ']' {
        proof {
            assert(values_view(items@) =~= Seq::<JsonM>::empty());
        }
        return Ok((Value::Array(items), p + 1));
    }
    proof {
        assert(values_view(items@) =~= Seq::<JsonM>::empty());
    }
    loop
        invariant
            s == chars@,
            1 <= pos <= p <= chars.len(),
            p_array(s, pos as int) == p_items(s, p as int, values_view(items@)),
        decreases chars.len() - p,
    {
        let (v, q) = match parse_value(chars, p) {
            Ok(x) => x,
            Err(m) => {
                return Err(m);
            },
        };
        let q2 = skip_ws(chars, q);
        let ghost before = items@;
        items.push(v);
        assert(items@.subrange(0, items@.len() - 1) =~= before);
        if q2 < chars.len() && chars[q2] == ',' {
            p = q2 + 1;
        } else if q2 < chars.len() && chars[q2] == ']' {
            return Ok((Value::Array(items), q2 + 1));
        } else {
            return Err(message_at("expected ',' or ']' at position ", q2));
        }
    }
}

/// Reads a whole JSON text, as `parse_spec` describes.
pub fn parse(input: &str) -> (r: Result<Value, String>)
    ensures
        match parse_spec(input@) {
            Ok(m) => r matches Ok(v) && v@ == m,
            Err(e) => r matches Err(msg) && msg@ == e,
        },
{
    let chars = crate::text::chars_of(input);
    let (value, pos) = match parse_value(&chars, 0) {
        Ok(x) => x,
        Err(m) => {
            return Err(m);
        },
    };
    let q = skip_ws(&chars, pos);
    if q != chars.len() {
        return Err(message_at("unexpected trailing content at position ", q));
    }
    Ok(value)
}


// ---------------------------------------------------------------- writing

/// `level` steps of two-space indentation.
pub open spec fn indent_spec(level: nat) -> Seq<char>
    decreases level,
{
    if level == 0 {
        seq![]
    } else {
        indent_spec((level - 1) as nat) + seq![' ', ' ']
    }
}

/// The lowercase hex digit of `d < 16`.
pub open spec fn hex_lower(d: nat) -> char {
    if d < 10 {
        (d + '0' as u32) as char
    } else {
        (d - 10 + 'a' as u32) as char
    }
}

/// How a character is written inside a string literal.
pub open spec fn escape_json_char(c: char) -> Seq<char> {
    if c == '"' {
        seq!['\\', '"']
    } else if c == '\\' {
        seq!['\\', '\\']
    } else if c == '\n' {
        seq!['\\', 'n']
    } else if c == '\r' {
        seq!['\\', 'r']
    } else if c == '\t' {
        seq!['\\', 't']
    } else if (c as u32) < 0x20 {
        seq!['\\', 'u', '0', '0', hex_lower((c as u32 / 16) as nat), hex_lower((c as u32 % 16) as nat)]
    } else {
        seq![c]
    }
}

pub open spec fn escape_json(t: Seq<char>) -> Seq<char>
    decreases t.len(),
{
    if t.len() == 0 {
        seq![]
    } else {
        escape_json(t.drop_last()) + escape_json_char(t.last())
    }
}

/// A string literal.
pub open spec fn w_string(t: Seq<char>) -> Seq<char> {
    seq!['"'] + escape_json(t) + seq!['"']
}

/// The text of a value nested `level` deep: empty containers as `[]` and
/// `{}`, other containers with one item per line, indented two spaces per level.
pub open spec fn w_value(v: JsonM, level: nat) -> Seq<char>
    decreases v,
{
    match v {
        JsonM::Null => lit_null(),
        JsonM::Bool(b) => if b {
            lit_true()
        } else {
            lit_false()
        },
        JsonM::Number(t) => t,
        JsonM::Str(t) => w_string(t),
        JsonM::Array(items) => if items.len() == 0 {
            seq!['[', ']']
        } else {
            seq!['[', '\n'] + w_items(items, level, false) + indent_spec(level) + seq![']']
        },
        JsonM::Object(ms) => if ms.len() == 0 {
            seq!['{', '}']
        } else {
            seq!['{', '\n'] + w_members(ms, level, false) + indent_spec(level) + seq!['}']
        },
    }
}

/// The lines of `items`; every line but the last of a whole list ends in a
/// comma (`more` says that items follow these ones).
pub open spec fn w_items(items: Seq<JsonM>, level: nat, more: bool) -> Seq<char>
    decreases items,
{
    if items.len() == 0 {
        seq![]
    } else {
        w_items(items.subrange(0, items.len() - 1), level, true) + indent_spec(level + 1)
            + w_value(items[items.len() - 1], level + 1) + if more {
            seq![',', '\n']
        } else {
            seq!['\n']
        }
    }
}

/// The lines of the members `ms`, as `w_items` lays out items.
pub open spec fn w_members(ms: Seq<(Seq<char>, JsonM)>, level: nat, more: bool) -> Seq<char>
    decreases ms,
{
    if ms.len() == 0 {
        seq![]
    } else {
        w_members(ms.subrange(0, ms.len() - 1), level, true) + indent_spec(level + 1) + w_string(
            ms[ms.len() - 1].0,
        ) + seq![':', ' '] + w_value(ms[ms.len() - 1].1, level + 1) + if more {
            seq![',', '\n']
        } else {
            seq!['\n']
        }
    }
}

/// The text of a whole value.
pub open spec fn write_spec(v: JsonM) -> Seq<char> {
    w_value(v, 0)
}

fn hex_lower_exec(d: u32) -> (c: char)
    requires
        d < 16,
    ensures
        c == hex_lower(d as nat),
{
    if d < 10 {
        char_of_u32_digit(d)
    } else {
        match d {
            10 => 'a',
            11 => 'b',
            12 => 'c',
            13 => 'd',
            14 => 'e',
            _ => 'f',
        }
    }
}

fn char_of_u32_digit(d: u32) -> (c: char)
    requires
        d < 10,
    ensures
        c == (d + '0' as u32) as char,
{
    match d {
        0 => '0',
        1 => '1',
        2 => '2',
        3 => '3',
        4 => '4',
        5 => '5',
        6 => '6',
        7 => '7',
        8 => '8',
        _ => '9',
    }
}

fn write_string(s: &str, out: &mut Vec<char>)
    ensures
        final(out)@ == old(out)@ + w_string(s@),
{
    let t = crate::text::chars_of(s);
    out.push('"');
    let ghost base = out@;
    let mut i: usize = 0;
    while i < t.len()
        invariant
            i <= t.len(),
            t@ == s@,
            out@ == base + escape_json(t@.take(i as int)),
        decreases t.len() - i,
    {
        assert(t@.take(i + 1).drop_last() =~= t@.take(i as int));
        let c = t[i];
        let ghost before = out@;
        if c == '"' {
            out.push('\\');
            out.push('"');
        } else if c == '\\' {
            out.push('\\');
            out.push('\\');
        } else if c == '\n' {
            out.push('\\');
            out.push('n');
        } else if c == '\r' {
            out.push('\\');
            out.push('r');
        } else if c == '\t' {
            out.push('\\');
            out.push('t');
        } else if (c as u32) < 0x20 {
            out.push('\\');
            out.push('u');
            out.push('0');
            out.push('0');
            out.push(hex_lower_exec(c as u32 / 16));
            out.push(hex_lower_exec(c as u32 % 16));
        } else {
            out.push(c);
        }
        assert(out@ =~= before + escape_json_char(c));
        i = i + 1;
        assert(out@ =~= base + escape_json(t@.take(i as int)));
    }
    assert(t@.take(t.len() as int) =~= t@);
    out.push('"');
    assert(out@ =~= old(out)@ + w_string(s@));
}

/// Appends `s` and then `t` to `out`.
fn push_pair(out: &mut Vec<char>, a: char, b: char)
    ensures
        final(out)@ == old(out)@ + seq![a, b],
{
    out.push(a);
    out.push(b);
    assert(out@ =~= old(out)@ + seq![a, b]);
}

fn write_value(value: &Value, Ghost(level): Ghost<nat>, ind: &Vec<char>, out: &mut Vec<char>)
    requires
        ind@ == indent_spec(level),
    ensures
        final(out)@ == old(out)@ + w_value(value@, level),
    decreases value,
{
    let ghost base = out@;
    match value {
        Value::Null => {
            push_str(out, "null");
            proof {
                reveal_strlit("null");
            }
            assert(out@ =~= base + lit_null());
        },
        Value::Bool(b) => {
            if *b {
                push_str(out, "true");
                proof {
                    reveal_strlit("true");
                }
                assert(out@ =~= base + lit_true());
            } else {
                push_str(out, "false");
                proof {
                    reveal_strlit("false");
                }
                assert(out@ =~= base + lit_false());
            }
        },
        Value::Number(t) => {
            push_str(out, t.as_str());
        },
        Value::String(t) => {
            write_string(t.as_str(), out);
        },
        Value::Array(items) => {
            if items.len() == 0 {
                push_pair(out, '[', ']');
                return;
            }
            push_pair(out, '[', '\n');
            let mut inner = ind.clone();
            push_pair(&mut inner, ' ', ' ');
            assert(inner@ =~= indent_spec(level + 1));
            let ghost head = out@;
            let ghost ms = values_view(items@);
            proof {
                lemma_values_view_len(items@);
                assert(ms.subrange(0, 0) =~= Seq::<JsonM>::empty());
            }
            let n = items.len();
            let mut i: usize = 0;
            loop
                invariant_except_break
                    out@ == head + w_items(ms.subrange(0, i as int), level, true),
                invariant
                    0 < n == items.len(),
                    *value === Value::Array(*items),
                    i < n,
                    ms == values_view(items@),
                    ms.len() == n,
                    inner@ == indent_spec(level + 1),
                ensures
                    out@ == head + w_items(ms, level, false),
                decreases n - i,
            {
                append_chars(out, &inner);
                proof {
                    lemma_values_view_index(items@, i as int);
                }
                assert(decreases_to!(*value => (*value)->Array_0));
                assert(decreases_to!(*items => items@));
                assert(decreases_to!(items@ => items@[i as int]));
                write_value(&items[i], Ghost(level + 1), &inner, out);
                let ghost sub = ms.subrange(0, i + 1);
                assert(sub.subrange(0, sub.len() - 1) =~= ms.subrange(0, i as int));
                if i + 1 < n {
                    push_pair(out, ',', '\n');
                    assert(out@ =~= head + w_items(sub, level, true));
                    i = i + 1;
                } else {
                    out.push('\n');
                    assert(out@ =~= head + w_items(sub, level, false));
                    assert(sub =~= ms);
                    break;
                }
            }
            append_chars(out, ind);
            out.push(']');
            assert(out@ =~= base + w_value(value@, level));
        },
        Value::Object(entries) => {
            if entries.len() == 0 {
                push_pair(out, '{', '}');
                return;
            }
            push_pair(out, '{', '\n');
            let mut inner = ind.clone();
            push_pair(&mut inner, ' ', ' ');
            assert(inner@ =~= indent_spec(level + 1));
            let ghost head = out@;
            let ghost ms = members_view(entries@);
            proof {
                lemma_members_view_len(entries@);
                assert(ms.subrange(0, 0) =~= Seq::<(Seq<char>, JsonM)>::empty());
            }
            let n = entries.len();
            let mut i: usize = 0;
            loop
                invariant_except_break
                    out@ == head + w_members(ms.subrange(0, i as int), level, true),
                invariant
                    0 < n == entries.len(),
                    *value === Value::Object(*entries),
                    i < n,
                    ms == members_view(entries@),
                    ms.len() == n,
                    inner@ == indent_spec(level + 1),
                ensures
                    out@ == head + w_members(ms, level, false),
                decreases n - i,
            {
                append_chars(out, &inner);
                proof {
                    lemma_members_view_index(entries@, i as int);
                }
                write_string(entries[i].0.as_str(), out);
                push_pair(out, ':', ' ');
                assert(decreases_to!(*value => (*value)->Object_0));
                assert(decreases_to!(*entries => entries@));
                assert(decreases_to!(entries@ => entries@[i as int]));
                assert(decreases_to!(entries@[i as int] => entries@[i as int].1));
                write_value(&entries[i].1, Ghost(level + 1), &inner, out);
                let ghost sub = ms.subrange(0, i + 1);
                assert(sub.subrange(0, sub.len() - 1) =~= ms.subrange(0, i as int));
                if i + 1 < n {
                    push_pair(out, ',', '\n');
                    assert(out@ =~= head + w_members(sub, level, true));
                    i = i + 1;
                } else {
                    out.push('\n');
                    assert(out@ =~= head + w_members(sub, level, false));
                    assert(sub =~= ms);
                    break;
                }
            }
            append_chars(out, ind);
            out.push('}');
            assert(out@ =~= base + w_value(value@, level));
        },
    }
}

pub proof fn lemma_values_view_len(s: Seq<Value>)
    ensures
        values_view(s).len() == s.len(),
    decreases s.len(),
{
    if s.len() > 0 {
        lemma_values_view_len(s.subrange(0, s.len() - 1));
    }
}

pub proof fn lemma_values_view_index(s: Seq<Value>, i: int)
    requires
        0 <= i < s.len(),
    ensures
        values_view(s)[i] == s[i]@,
    decreases s.len(),
{
    lemma_values_view_len(s);
    if i < s.len() - 1 {
        lemma_values_view_index(s.subrange(0, s.len() - 1), i);
    }
}

pub proof fn lemma_members_view_len(s: Seq<(String, Value)>)
    ensures
        members_view(s).len() == s.len(),
    decreases s.len(),
{
    if s.len() > 0 {
        lemma_members_view_len(s.subrange(0, s.len() - 1));
    }
}

pub proof fn lemma_members_view_index(s: Seq<(String, Value)>, i: int)
    requires
        0 <= i < s.len(),
    ensures
        members_view(s)[i] == (s[i].0@, s[i].1@),
    decreases s.len(),
{
    lemma_members_view_len(s);
    if i < s.len() - 1 {
        lemma_members_view_index(s.subrange(0, s.len() - 1), i);
    }
}

/// The text of `value`, as `write_spec` describes.
pub fn write(value: &Value) -> (s: String)
    ensures
        s@ == write_spec(value@),
{
    let mut out: Vec<char> = Vec::new();
    let ind: Vec<char> = Vec::new();
    assert(ind@ =~= indent_spec(0));
    write_value(value, Ghost(0), &ind, &mut out);
    assert(out@ =~= write_spec(value@));
    string_of(&out)
}


impl Value {
    /// The text of a string value.
    pub fn as_str(&self) -> (r: Option<&str>)
        ensures
            match self@ {
                JsonM::Str(t) => r matches Some(s) && s@ == t,
                _ => r is None,
            },
    {
        match self {
            Value::String(s) => Some(s.as_str()),
            _ => None,
        }
    }

    /// The members of an object value.
    pub fn as_object(&self) -> (r: Option<&Vec<(String, Value)>>)
        ensures
            match self@ {
                JsonM::Object(ms) => r matches Some(o) && members_view(o@) == ms,
                _ => r is None,
            },
    {
        match self {
            Value::Object(o) => Some(o),
            _ => None,
        }
    }

    /// The items of an array value.
    pub fn as_array(&self) -> (r: Option<&Vec<Value>>)
        ensures
            match self@ {
                JsonM::Array(items) => r matches Some(a) && values_view(a@) == items,
                _ => r is None,
            },
    {
        match self {
            Value::Array(a) => Some(a),
            _ => None,
        }
    }

    /// The text of a number value.
    pub fn as_number(&self) -> (r: Option<&str>)
        ensures
            match self@ {
                JsonM::Number(t) => r matches Some(s) && s@ == t,
                _ => r is None,
            },
    {
        match self {
            Value::Number(t) => Some(t.as_str()),
            _ => None,
        }
    }
}


/// Whether `u` is `l` or, for a lower-case hex letter `l`, its upper-case form.
pub open spec fn same_hex_digit(l: char, u: char) -> bool {
    u == l || ('a' <= l <= 'f' && (u as u32) == (l as u32) - 32)
}

proof fn lemma_same_hex_digit(l: char, u: char)
    requires
        is_hex(l),
        same_hex_digit(l, u),
    ensures
        is_hex(u),
        hex_digit_value(u) == hex_digit_value(l),
{
    if u != l {
        let lu = l as u32;
        let uu = u as u32;
        assert(97 <= lu <= 102);
        assert(65 <= uu <= 70);
        assert('A' <= u <= 'F');
        assert(!('0' <= u <= '9'));
        assert(!('a' <= u <= 'f'));
    }
}

proof fn lemma_hex_value_case(a: Seq<char>, b: Seq<char>)
    requires
        a.len() == b.len(),
        all_hex(a),
        forall|i: int| 0 <= i < a.len() ==> same_hex_digit(#[trigger] a[i], b[i]),
    ensures
        all_hex(b),
        hex_value(b) == hex_value(a),
    decreases a.len(),
{
    assert forall|i: int| 0 <= i < b.len() implies #[trigger] is_hex(b[i]) && hex_digit_value(b[i])
        == hex_digit_value(a[i]) by {
        assert(is_hex(a[i]));
        lemma_same_hex_digit(a[i], b[i]);
    }
    if a.len() > 0 {
        assert forall|i: int| 0 <= i < a.drop_last().len() implies same_hex_digit(
            #[trigger] a.drop_last()[i],
            b.drop_last()[i],
        ) by {
            assert(same_hex_digit(a[i], b[i]));
        }
        lemma_hex_value_case(a.drop_last(), b.drop_last());
        assert(hex_digit_value(b.last()) == hex_digit_value(a.last())) by {
            assert(is_hex(a[a.len() - 1]));
            lemma_same_hex_digit(a[a.len() - 1], b[b.len() - 1]);
        }
    }
}

/// Hex digits are read without regard to case: writing any of the letters of
/// the four digits of a `\u` escape in upper case reads the same code.
pub proof fn lemma_hex4_case_insensitive(s: Seq<char>, t: Seq<char>, start: int)
    requires
        s.len() == t.len(),
        0 <= start,
        start + 4 <= s.len(),
        all_hex(s.subrange(start, start + 4)),
        forall|i: int| start <= i < start + 4 ==> same_hex_digit(#[trigger] s[i], t[i]),
    ensures
        p_hex4(t, start) == p_hex4(s, start),
        p_hex4(s, start) == Ok::<u32, Seq<char>>(hex_value(s.subrange(start, start + 4)) as u32),
{
    let a = s.subrange(start, start + 4);
    let b = t.subrange(start, start + 4);
    assert forall|i: int| 0 <= i < a.len() implies same_hex_digit(#[trigger] a[i], b[i]) by {
        assert(same_hex_digit(s[start + i], t[start + i]));
    }
    lemma_hex_value_case(a, b);
}

/// Each upper-case hex letter is a hex digit with the value of its lower-case form.
pub proof fn lemma_upper_hex_digits(c: char)
    requires
        'a' <= c <= 'f',
    ensures
        is_hex(((c as u32) - 32) as char),
        hex_digit_value(((c as u32) - 32) as char) == hex_digit_value(c),
        hex_digit_value(c) == (c as u32) - ('a' as u32) + 10,
{
    lemma_same_hex_digit(c, ((c as u32) - 32) as char);
}

} // verus!
