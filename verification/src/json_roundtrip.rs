//! What the JSON reader promises of the writer's output: reading the text of
//! a value gives the value back.

use vstd::prelude::*;
use crate::json::{
    all_hex, code_char, escape_json, escape_json_char, hex_digit_value, hex_lower, hex_value,
    indent_spec, is_hex, lemma_scan_digits, number_shape, number_token, p_hex4, p_items,
    p_members, p_number, p_string, p_value, parse_spec, scan_digits, skip_ws_spec, w_items,
    w_members, w_string, w_value, write_spec, JsonM,
};
use crate::text::{is_digit, is_ws};

verus! {

/// Whether every number inside a value is exactly one number token.
pub open spec fn json_ok(v: JsonM) -> bool
    decreases v,
{
    match v {
        JsonM::Number(t) => number_token(t),
        JsonM::Array(items) => forall|i: int| 0 <= i < items.len() ==> json_ok(#[trigger] items[i]),
        JsonM::Object(ms) => forall|i: int| 0 <= i < ms.len() ==> json_ok(#[trigger] ms[i].1),
        _ => true,
    }
}


proof fn lemma_escape_json_concat(x: Seq<char>, y: Seq<char>)
    ensures
        escape_json(x + y) == escape_json(x) + escape_json(y),
    decreases y.len(),
{
    if y.len() == 0 {
        assert(x + y =~= x);
        assert(escape_json(x) + escape_json(y) =~= escape_json(x));
    } else {
        assert((x + y).drop_last() =~= x + y.drop_last());
        lemma_escape_json_concat(x, y.drop_last());
        assert(escape_json(x) + escape_json(y) =~= escape_json(x) + escape_json(y.drop_last())
            + escape_json_char(y.last()));
    }
}

proof fn lemma_escape_json_cons(c: char, r: Seq<char>)
    ensures
        escape_json(seq![c] + r) == escape_json_char(c) + escape_json(r),
{
    lemma_escape_json_concat(seq![c], r);
    assert(seq![c].drop_last() =~= Seq::<char>::empty());
    assert(escape_json(Seq::<char>::empty()) =~= Seq::<char>::empty());
    assert(seq![c].last() == c);
    assert(escape_json(seq![c]) == escape_json(seq![c].drop_last()) + escape_json_char(c));
    assert(escape_json(seq![c]) =~= escape_json_char(c));
}

proof fn lemma_hex_lower(d: nat)
    requires
        d < 16,
    ensures
        is_hex(hex_lower(d)),
        hex_digit_value(hex_lower(d)) == d,
{
    let c = hex_lower(d);
    if d < 10 {
        assert(c as u32 == d + 48);
    } else {
        assert(c as u32 == d - 10 + 97);
    }
}

/// A control character written as `\u00XY` reads back as itself.
proof fn lemma_unicode_escape(s: Seq<char>, x: int, c: char)
    requires
        (c as u32) < 0x20,
        0 <= x,
        x + 6 <= s.len(),
        s.subrange(x, x + 6) == escape_json_char(c),
        c != '"' && c != '\\' && c != '\n' && c != '\r' && c != '\t',
    ensures
        s[x] == '\\',
        s[x + 1] == 'u',
        p_hex4(s, x + 2) == Ok::<u32, Seq<char>>(c as u32),
        code_char(c as u32) == c,
{
    let u = c as u32;
    let hi = (u / 16) as nat;
    let lo = (u % 16) as nat;
    lemma_hex_lower(hi);
    lemma_hex_lower(lo);
    lemma_hex_lower(0);
    let e = escape_json_char(c);
    assert(s[x] == e[0]);
    assert(s[x + 1] == e[1]);
    let h = s.subrange(x + 2, x + 6);
    assert(h =~= seq!['0', '0', hex_lower(hi), hex_lower(lo)]);
    assert(hex_lower(0) == '0');
    assert(all_hex(h));
    assert(h.drop_last() =~= seq!['0', '0', hex_lower(hi)]);
    assert(h.drop_last().drop_last() =~= seq!['0', '0']);
    assert(h.drop_last().drop_last().drop_last() =~= seq!['0']);
    assert(h.drop_last().drop_last().drop_last().drop_last() =~= Seq::<char>::empty());
    let h1 = h.drop_last().drop_last().drop_last();
    let h2 = h.drop_last().drop_last();
    let h3 = h.drop_last();
    assert(hex_digit_value('0') == 0);
    assert(hex_value(h1.drop_last()) == 0);
    assert(h1.last() == '0');
    assert(hex_value(h1) == 0);
    assert(h2.last() == '0');
    assert(hex_value(h2) == 0);
    assert(h3.last() == hex_lower(hi));
    assert(hex_value(h3) == hi);
    assert(h.last() == hex_lower(lo));
    assert(hex_value(h) == hi * 16 + lo);
    assert(hi * 16 + lo == u);
}

/// The rest of a written string literal reads back as its characters.
proof fn lemma_string_rt(s: Seq<char>, x: int, t: Seq<char>, acc: Seq<char>)
    requires
        0 <= x,
        x + escape_json(t).len() < s.len(),
        s.subrange(x, x + escape_json(t).len()) == escape_json(t),
        s[x + escape_json(t).len()] == '"',
    ensures
        p_string(s, x, acc) == Ok::<(Seq<char>, int), Seq<char>>(
            (acc + t, x + escape_json(t).len() + 1),
        ),
    decreases t.len(),
{
    if t.len() == 0 {
        assert(acc + t =~= acc);
    } else {
        let c = t[0];
        let r = t.drop_first();
        assert(seq![c] + r =~= t);
        lemma_escape_json_cons(c, r);
        let e = escape_json_char(c);
        let n = e.len() as int;
        let er = escape_json(r);
        assert(escape_json(t) == e + er);
        assert(s.subrange(x, x + n) =~= e) by {
            assert forall|k: int| 0 <= k < n implies s.subrange(x, x + n)[k] == e[k] by {
                assert(s[x + k] == s.subrange(x, x + escape_json(t).len())[k]);
                assert((e + er)[k] == e[k]);
            }
        }
        assert(s.subrange(x + n, x + n + er.len()) =~= er) by {
            assert forall|k: int| 0 <= k < er.len() implies s.subrange(x + n, x + n + er.len())[k]
                == er[k] by {
                assert(s[x + n + k] == s.subrange(x, x + escape_json(t).len())[n + k]);
                assert((e + er)[n + k] == er[k]);
            }
        }
        lemma_string_rt(s, x + n, r, acc.push(c));
        assert(acc.push(c) + r =~= acc + t);
        assert(s[x] == e[0]);
        if c == '"' || c == '\\' || c == '\n' || c == '\r' || c == '\t' {
            assert(s[x + 1] == e[1]);
        } else if (c as u32) < 0x20 {
            lemma_unicode_escape(s, x, c);
        } else {
        }
    }
}


/// `a` stands in `s` from position `y` on.
#[verifier::opaque]
pub open spec fn occurs_at(s: Seq<char>, y: int, a: Seq<char>) -> bool {
    &&& 0 <= y
    &&& y + a.len() <= s.len()
    &&& forall|k: int| 0 <= k < a.len() ==> s[y + k] == #[trigger] a[k]
}

proof fn lemma_occurs_split(s: Seq<char>, y: int, a: Seq<char>, b: Seq<char>)
    requires
        occurs_at(s, y, a + b),
    ensures
        occurs_at(s, y, a),
        occurs_at(s, y + a.len(), b),
        0 <= y,
        y + a.len() + b.len() <= s.len(),
{
    reveal(occurs_at);
    assert forall|k: int| 0 <= k < a.len() implies s[y + k] == #[trigger] a[k] by {
        assert((a + b)[k] == a[k]);
    }
    assert forall|k: int| 0 <= k < b.len() implies s[y + a.len() + k] == #[trigger] b[k] by {
        assert((a + b)[a.len() + k] == b[k]);
    }
}

proof fn lemma_occurs_subrange(s: Seq<char>, y: int, a: Seq<char>)
    requires
        occurs_at(s, y, a),
    ensures
        s.subrange(y, y + a.len()) == a,
{
    reveal(occurs_at);
    assert forall|k: int| 0 <= k < a.len() implies s.subrange(y, y + a.len())[k] == a[k] by {
        assert(s[y + k] == a[k]);
    }
    assert(s.subrange(y, y + a.len()) =~= a);
}

proof fn lemma_occurs_char(s: Seq<char>, y: int, a: Seq<char>, k: int)
    requires
        occurs_at(s, y, a),
        0 <= k < a.len(),
    ensures
        s[y + k] == a[k],
        0 <= y,
        y + a.len() <= s.len(),
{
    reveal(occurs_at);
}

/// Skipping white space from `p` stops at `x`.
proof fn lemma_skip_ws_to(s: Seq<char>, p: int, x: int)
    requires
        0 <= p <= x <= s.len(),
        forall|k: int| p <= k < x ==> is_ws(#[trigger] s[k]),
        x < s.len() ==> !is_ws(s[x]),
    ensures
        skip_ws_spec(s, p) == x,
    decreases x - p,
{
    if p < x {
        lemma_skip_ws_to(s, p + 1, x);
    }
}

proof fn lemma_indent(level: nat)
    ensures
        indent_spec(level).len() == 2 * level,
        forall|k: int| 0 <= k < 2 * level ==> #[trigger] indent_spec(level)[k] == ' ',
    decreases level,
{
    if level > 0 {
        lemma_indent((level - 1) as nat);
        let prev = indent_spec((level - 1) as nat);
        assert forall|k: int| 0 <= k < 2 * level implies #[trigger] indent_spec(level)[k] == ' ' by {
            if k < prev.len() {
                assert((prev + seq![' ', ' '])[k] == prev[k]);
            } else {
                assert((prev + seq![' ', ' '])[k] == seq![' ', ' '][k - prev.len()]);
            }
        }
    }
}

/// Whether a value's first character can open a value.
pub open spec fn opens_value(c: char) -> bool {
    c == 'n' || c == 't' || c == 'f' || c == '-' || is_digit(c) || c == '"' || c == '[' || c == '{'
}

proof fn lemma_w_value_first(v: JsonM, level: nat)
    requires
        json_ok(v),
    ensures
        w_value(v, level).len() > 0,
        opens_value(w_value(v, level)[0]),
        !is_ws(w_value(v, level)[0]),
        w_value(v, level)[0] != ']',
        w_value(v, level)[0] != '}',
{
    reveal_with_fuel(w_value, 1);
    match v {
        JsonM::Array(items) => {
            if items.len() > 0 {
                assert((seq!['[', '\n'] + w_items(items, level, false) + indent_spec(level) + seq![']'])[0]
                    == '[');
            }
        },
        JsonM::Object(ms) => {
            if ms.len() > 0 {
                assert((seq!['{', '\n'] + w_members(ms, level, false) + indent_spec(level) + seq!['}'])[0]
                    == '{');
            }
        },
        JsonM::Str(t) => {
            assert((seq!['"'] + escape_json(t) + seq!['"'])[0] == '"');
        },
        _ => {},
    }
}


pub open spec fn line_end(comma: bool) -> Seq<char> {
    if comma {
        seq![',', '\n']
    } else {
        seq!['\n']
    }
}

/// One line of an array's body.
pub open spec fn item_line(v: JsonM, level: nat, comma: bool) -> Seq<char> {
    indent_spec(level + 1) + w_value(v, level + 1) + line_end(comma)
}

/// The lines of `items` from the first on.
pub open spec fn front_items(items: Seq<JsonM>, level: nat, more: bool) -> Seq<char>
    decreases items.len(),
{
    if items.len() == 0 {
        seq![]
    } else {
        item_line(items[0], level, items.len() > 1 || more) + front_items(
            items.subrange(1, items.len() as int),
            level,
            more,
        )
    }
}

proof fn lemma_front_items_snoc(items: Seq<JsonM>, level: nat, more: bool)
    requires
        items.len() > 0,
    ensures
        front_items(items, level, more) == front_items(items.drop_last(), level, true) + item_line(
            items.last(),
            level,
            more,
        ),
    decreases items.len(),
{
    let tail = items.subrange(1, items.len() as int);
    if items.len() == 1 {
        assert(tail.len() == 0);
        assert(items.drop_last().len() == 0);
        assert(front_items(tail, level, more) =~= Seq::<char>::empty());
        assert(front_items(items, level, more) =~= item_line(items[0], level, more));
        assert(front_items(items.drop_last(), level, true) =~= Seq::<char>::empty());
    } else {
        lemma_front_items_snoc(tail, level, more);
        let init = items.drop_last();
        assert(init.subrange(1, init.len() as int) =~= tail.drop_last());
        assert(tail.last() == items.last());
        assert(init[0] == items[0]);
        assert(front_items(init, level, true) == item_line(items[0], level, true) + front_items(
            tail.drop_last(),
            level,
            true,
        ));
        assert(front_items(items, level, more) =~= front_items(init, level, true) + item_line(
            items.last(),
            level,
            more,
        ));
    }
}

proof fn lemma_w_items_front(items: Seq<JsonM>, level: nat, more: bool)
    ensures
        w_items(items, level, more) == front_items(items, level, more),
    decreases items.len(),
{
    if items.len() > 0 {
        let init = items.subrange(0, items.len() - 1);
        assert(init =~= items.drop_last());
        lemma_w_items_front(init, level, true);
        lemma_front_items_snoc(items, level, more);
        assert(w_items(items, level, more) =~= front_items(items, level, more));
    } else {
        assert(front_items(items, level, more) =~= Seq::<char>::empty());
    }
}

/// One line of an object's body.
pub open spec fn member_line(m: (Seq<char>, JsonM), level: nat, comma: bool) -> Seq<char> {
    indent_spec(level + 1) + w_string(m.0) + seq![':', ' '] + w_value(m.1, level + 1) + line_end(comma)
}

/// The lines of the members `ms` from the first on.
pub open spec fn front_members(ms: Seq<(Seq<char>, JsonM)>, level: nat, more: bool) -> Seq<char>
    decreases ms.len(),
{
    if ms.len() == 0 {
        seq![]
    } else {
        member_line(ms[0], level, ms.len() > 1 || more) + front_members(
            ms.subrange(1, ms.len() as int),
            level,
            more,
        )
    }
}

proof fn lemma_front_members_snoc(ms: Seq<(Seq<char>, JsonM)>, level: nat, more: bool)
    requires
        ms.len() > 0,
    ensures
        front_members(ms, level, more) == front_members(ms.drop_last(), level, true) + member_line(
            ms.last(),
            level,
            more,
        ),
    decreases ms.len(),
{
    let tail = ms.subrange(1, ms.len() as int);
    if ms.len() == 1 {
        assert(tail.len() == 0);
        assert(ms.drop_last().len() == 0);
        assert(front_members(tail, level, more) =~= Seq::<char>::empty());
        assert(front_members(ms, level, more) =~= member_line(ms[0], level, more));
        assert(front_members(ms.drop_last(), level, true) =~= Seq::<char>::empty());
    } else {
        lemma_front_members_snoc(tail, level, more);
        let init = ms.drop_last();
        assert(init.subrange(1, init.len() as int) =~= tail.drop_last());
        assert(tail.last() == ms.last());
        assert(init[0] == ms[0]);
        assert(front_members(init, level, true) == member_line(ms[0], level, true) + front_members(
            tail.drop_last(),
            level,
            true,
        ));
        assert(front_members(ms, level, more) =~= front_members(init, level, true) + member_line(
            ms.last(),
            level,
            more,
        ));
    }
}

proof fn lemma_w_members_front(ms: Seq<(Seq<char>, JsonM)>, level: nat, more: bool)
    ensures
        w_members(ms, level, more) == front_members(ms, level, more),
    decreases ms.len(),
{
    if ms.len() > 0 {
        let init = ms.subrange(0, ms.len() - 1);
        assert(init =~= ms.drop_last());
        lemma_w_members_front(init, level, true);
        lemma_front_members_snoc(ms, level, more);
        assert(w_members(ms, level, more) =~= front_members(ms, level, more));
    } else {
        assert(front_members(ms, level, more) =~= Seq::<char>::empty());
    }
}


/// Whether position `e` may end a number: the end of the text, or a `,` or a
/// line break.
pub open spec fn ends_ok(s: Seq<char>, e: int) -> bool {
    e == s.len() || (0 <= e < s.len() && (s[e] == ',' || s[e] == '\n'))
}

proof fn lemma_scan_shift(s: Seq<char>, t: Seq<char>, q: int, i: int)
    requires
        occurs_at(s, q, t),
        0 <= i <= t.len(),
        ends_ok(s, q + t.len()),
    ensures
        scan_digits(s, q + i) == q + scan_digits(t, i),
    decreases t.len() - i,
{
    if i < t.len() {
        lemma_occurs_char(s, q, t, i);
        if is_digit(t[i]) {
            lemma_scan_shift(s, t, q, i + 1);
        }
    }
}

/// A number token followed by a `,`, a line break or the end reads back as itself.
proof fn lemma_number_rt(s: Seq<char>, q: int, t: Seq<char>)
    requires
        number_token(t),
        occurs_at(s, q, t),
        ends_ok(s, q + t.len()),
    ensures
        p_number(s, q) == Ok::<(JsonM, int), Seq<char>>((JsonM::Number(t), q + t.len())),
{
    let n = t.len() as int;
    let (a, b, dot, c, exp, d, e) = number_shape(t, 0);
    let (a2, b2, dot2, c2, exp2, d2, e2) = number_shape(s, q);
    lemma_occurs_char(s, q, t, 0);
    assert(a2 == q + a);
    lemma_scan_digits(t, a);
    lemma_scan_shift(s, t, q, a);
    assert(b2 == q + b);
    if b < n {
        lemma_occurs_char(s, q, t, b);
    }
    assert(dot2 == dot);
    if dot {
        lemma_scan_digits(t, b + 1);
        lemma_scan_shift(s, t, q, b + 1);
    }
    assert(c2 == q + c);
    if c < n {
        lemma_occurs_char(s, q, t, c);
    }
    assert(exp2 == exp);
    if exp {
        if c + 1 < n {
            lemma_occurs_char(s, q, t, c + 1);
        }
        assert(d2 == q + d);
        lemma_scan_digits(t, d);
        lemma_scan_shift(s, t, q, d);
    }
    assert(e2 == q + e);
    assert(e == n);
    lemma_occurs_subrange(s, q, t);
}


/// A literal, a number or a string at `x`, after nothing but white space
/// from `p`, reads back as itself.
proof fn lemma_leaf_rt(s: Seq<char>, p: int, x: int, v: JsonM, level: nat)
    requires
        json_ok(v),
        !(v is Array),
        !(v is Object),
        0 <= p <= x,
        forall|k: int| p <= k < x ==> is_ws(#[trigger] s[k]),
        occurs_at(s, x, w_value(v, level)),
        ends_ok(s, x + w_value(v, level).len()),
    ensures
        p_value(s, p) == Ok::<(JsonM, int), Seq<char>>((v, x + w_value(v, level).len())),
{
    let w = w_value(v, level);
    lemma_w_value_first(v, level);
    lemma_occurs_char(s, x, w, 0);
    lemma_skip_ws_to(s, p, x);
    match v {
        JsonM::Number(t) => {
            lemma_number_rt(s, x, t);
        },
        JsonM::Str(t) => {
            lemma_str_rt(s, x, t);
        },
        _ => {
            lemma_occurs_subrange(s, x, w);
        },
    }
}

/// `[]` or `{}` at `x`, after nothing but white space from `p`, reads back as
/// an empty array or object.
proof fn lemma_empty_rt(s: Seq<char>, p: int, x: int, v: JsonM, level: nat)
    requires
        v == JsonM::Array(seq![]) || v == JsonM::Object(seq![]),
        0 <= p <= x,
        forall|k: int| p <= k < x ==> is_ws(#[trigger] s[k]),
        occurs_at(s, x, w_value(v, level)),
    ensures
        p_value(s, p) == Ok::<(JsonM, int), Seq<char>>((v, x + 2)),
        w_value(v, level).len() == 2,
{
    let w = w_value(v, level);
    lemma_occurs_char(s, x, w, 0);
    lemma_occurs_char(s, x, w, 1);
    lemma_skip_ws_to(s, p, x);
    lemma_skip_ws_to(s, x + 1, x + 1);
}

/// The text of `v` at `x`, after nothing but white space from `p`, reads back
/// as `v` and ends where the text ends.
proof fn lemma_value_rt(s: Seq<char>, p: int, x: int, v: JsonM, level: nat)
    requires
        json_ok(v),
        0 <= p <= x,
        forall|k: int| p <= k < x ==> is_ws(#[trigger] s[k]),
        occurs_at(s, x, w_value(v, level)),
        ends_ok(s, x + w_value(v, level).len()),
    ensures
        p_value(s, p) == Ok::<(JsonM, int), Seq<char>>((v, x + w_value(v, level).len())),
    decreases v, 2int,
{
    match v {
        JsonM::Array(items) => {
            if items.len() == 0 {
                assert(items =~= Seq::<JsonM>::empty());
                lemma_empty_rt(s, p, x, v, level);
            } else {
                lemma_array_rt(s, p, x, items, level);
            }
        },
        JsonM::Object(ms) => {
            if ms.len() == 0 {
                assert(ms =~= Seq::<(Seq<char>, JsonM)>::empty());
                lemma_empty_rt(s, p, x, v, level);
            } else {
                lemma_object_rt(s, p, x, ms, level);
            }
        },
        _ => {
            lemma_leaf_rt(s, p, x, v, level);
        },
    }
}

proof fn lemma_array_rt(s: Seq<char>, p: int, x: int, items: Seq<JsonM>, level: nat)
    requires
        items.len() > 0,
        forall|i: int| 0 <= i < items.len() ==> json_ok(#[trigger] items[i]),
        0 <= p <= x,
        forall|k: int| p <= k < x ==> is_ws(#[trigger] s[k]),
        occurs_at(s, x, w_value(JsonM::Array(items), level)),
    ensures
        p_value(s, p) == Ok::<(JsonM, int), Seq<char>>(
            (JsonM::Array(items), x + w_value(JsonM::Array(items), level).len()),
        ),
    decreases items, 1int,
{
    lemma_array_open(s, x, items, level);
    lemma_skip_ws_to(s, p, x);
    lemma_items_rt(s, x + 1, x + 2, items, seq![], level);
    let z = x + 2 + 2 * (level + 1);
    lemma_items_rt(s, z, x + 2, items, seq![], level);
    assert(Seq::<JsonM>::empty() + items =~= items);
}

proof fn lemma_object_rt(s: Seq<char>, p: int, x: int, ms: Seq<(Seq<char>, JsonM)>, level: nat)
    requires
        ms.len() > 0,
        forall|i: int| 0 <= i < ms.len() ==> json_ok(#[trigger] ms[i].1),
        0 <= p <= x,
        forall|k: int| p <= k < x ==> is_ws(#[trigger] s[k]),
        occurs_at(s, x, w_value(JsonM::Object(ms), level)),
    ensures
        p_value(s, p) == Ok::<(JsonM, int), Seq<char>>(
            (JsonM::Object(ms), x + w_value(JsonM::Object(ms), level).len()),
        ),
    decreases ms, 1int,
{
    lemma_object_open(s, x, ms, level);
    lemma_skip_ws_to(s, p, x);
    lemma_members_rt(s, x + 1, x + 2, ms, seq![], level);
    let z = x + 2 + 2 * (level + 1);
    lemma_members_rt(s, z, x + 2, ms, seq![], level);
    assert(Seq::<(Seq<char>, JsonM)>::empty() + ms =~= ms);
}

proof fn lemma_str_rt(s: Seq<char>, x: int, t: Seq<char>)
    requires
        occurs_at(s, x, w_string(t)),
    ensures
        p_string(s, x + 1, seq![]) == Ok::<(Seq<char>, int), Seq<char>>((t, x + w_string(t).len())),
{
    let esc = escape_json(t);
    lemma_occurs_split(s, x, seq!['"'] + esc, seq!['"']);
    lemma_occurs_split(s, x, seq!['"'], esc);
    lemma_occurs_char(s, x + 1 + esc.len(), seq!['"'], 0);
    assert(seq!['"'][0] == '"');
    assert(s[x + 1 + esc.len()] == '"');
    assert(x + 1 + esc.len() < s.len());
    lemma_occurs_subrange(s, x + 1, esc);
    lemma_string_rt(s, x + 1, t, seq![]);
    assert(Seq::<char>::empty() + t =~= t);
}

proof fn lemma_array_open(s: Seq<char>, x: int, items: Seq<JsonM>, level: nat)
    requires
        items.len() > 0,
        occurs_at(s, x, w_value(JsonM::Array(items), level)),
    ensures
        0 <= x,
        x + 2 < s.len(),
        s[x] == '[',
        s[x + 1] == '\n',
        is_ws(s[x + 1]),
        occurs_at(s, x + 2, front_items(items, level, false) + indent_spec(level) + seq![']']),
        w_value(JsonM::Array(items), level).len() == 2 + front_items(items, level, false).len() + 2
            * level + 1,
{
    lemma_indent(level);
    lemma_w_items_front(items, level, false);
    let rest = front_items(items, level, false) + indent_spec(level) + seq![']'];
    assert(w_value(JsonM::Array(items), level) =~= seq!['[', '\n'] + rest);
    lemma_occurs_split(s, x, seq!['[', '\n'], rest);
    lemma_occurs_char(s, x, seq!['[', '\n'], 0);
    lemma_occurs_char(s, x, seq!['[', '\n'], 1);
}

proof fn lemma_object_open(s: Seq<char>, x: int, ms: Seq<(Seq<char>, JsonM)>, level: nat)
    requires
        ms.len() > 0,
        occurs_at(s, x, w_value(JsonM::Object(ms), level)),
    ensures
        0 <= x,
        x + 2 < s.len(),
        s[x] == '{',
        s[x + 1] == '\n',
        is_ws(s[x + 1]),
        occurs_at(s, x + 2, front_members(ms, level, false) + indent_spec(level) + seq!['}']),
        w_value(JsonM::Object(ms), level).len() == 2 + front_members(ms, level, false).len() + 2
            * level + 1,
{
    lemma_indent(level);
    lemma_w_members_front(ms, level, false);
    let rest = front_members(ms, level, false) + indent_spec(level) + seq!['}'];
    assert(w_value(JsonM::Object(ms), level) =~= seq!['{', '\n'] + rest);
    lemma_occurs_split(s, x, seq!['{', '\n'], rest);
    lemma_occurs_char(s, x, seq!['{', '\n'], 0);
    lemma_occurs_char(s, x, seq!['{', '\n'], 1);
}

/// Where the parts of the first line of `rest` stand, and what follows it.
proof fn lemma_item_layout(s: Seq<char>, p: int, y: int, rest: Seq<JsonM>, level: nat) -> (r: (int, int))
    requires
        rest.len() > 0,
        json_ok(rest[0]),
        0 <= p <= y + 2 * (level + 1),
        forall|k: int| p <= k < y ==> is_ws(#[trigger] s[k]),
        occurs_at(s, y, front_items(rest, level, false) + indent_spec(level) + seq![']']),
    ensures
        r.0 == y + 2 * (level + 1),
        r.1 == r.0 + w_value(rest[0], level + 1).len(),
        r.1 < s.len(),
        forall|k: int| p <= k < r.0 ==> is_ws(#[trigger] s[k]),
        skip_ws_spec(s, p) == r.0,
        s[r.0] != ']',
        occurs_at(s, r.0, w_value(rest[0], level + 1)),
        ends_ok(s, r.1),
        rest.len() > 1 ==> s[r.1] == ',' && skip_ws_spec(s, r.1) == r.1 && is_ws(s[r.1 + 1])
            && occurs_at(
            s,
            r.1 + 2,
            front_items(rest.subrange(1, rest.len() as int), level, false) + indent_spec(level)
                + seq![']'],
        ) && y + front_items(rest, level, false).len() == r.1 + 2 + front_items(
            rest.subrange(1, rest.len() as int),
            level,
            false,
        ).len(),
        rest.len() == 1 ==> r.1 + 1 + 2 * level < s.len(),
        rest.len() == 1 ==> skip_ws_spec(s, r.1) == r.1 + 1 + 2 * level && s[r.1 + 1 + 2 * level]
            == ']' && y + front_items(rest, level, false).len() == r.1 + 1,
{
    let v = rest[0];
    let tail = rest.subrange(1, rest.len() as int);
    let comma = rest.len() > 1;
    let il = indent_spec(level + 1);
    let wv = w_value(v, level + 1);
    let le = line_end(comma);
    let ft = front_items(tail, level, false);
    let close = indent_spec(level) + seq![']'];
    lemma_indent(level + 1);
    lemma_indent(level);
    assert(front_items(rest, level, false) == item_line(v, level, comma) + ft);
    let whole = front_items(rest, level, false) + indent_spec(level) + seq![']'];
    assert(ft + close =~= ft + indent_spec(level) + seq![']']);
    assert(whole =~= il + (wv + (le + (ft + close))));
    lemma_occurs_split(s, y, il, wv + (le + (ft + close)));
    let z = y + il.len();
    lemma_occurs_split(s, z, wv, le + (ft + close));
    let e = z + wv.len();
    lemma_occurs_split(s, e, le, ft + close);
    lemma_w_value_first(v, level + 1);
    lemma_occurs_char(s, z, wv, 0);
    assert forall|k: int| p <= k < z implies is_ws(#[trigger] s[k]) by {
        if k >= y {
            lemma_occurs_char(s, y, il, k - y);
        }
    }
    lemma_skip_ws_to(s, p, z);
    lemma_occurs_char(s, e, le, 0);
    if comma {
        lemma_occurs_char(s, e, le, 1);
        lemma_skip_ws_to(s, e, e);
    } else {
        assert(tail.len() == 0);
        assert(ft =~= Seq::<char>::empty());
        assert(ft + close =~= close);
        let f = e + 1;
        lemma_occurs_split(s, f, indent_spec(level), seq![']']);
        let r = f + 2 * level;
        lemma_occurs_char(s, r, seq![']'], 0);
        assert forall|k: int| e <= k < r implies is_ws(#[trigger] s[k]) by {
            if k > e {
                lemma_occurs_char(s, f, indent_spec(level), k - f);
            }
        }
        lemma_skip_ws_to(s, e, r);
    }
    (z, e)
}

/// The lines of the items `rest` at `y`, then the closing bracket, read back
/// as those items after `acc`.
proof fn lemma_items_rt(s: Seq<char>, p: int, y: int, rest: Seq<JsonM>, acc: Seq<JsonM>, level: nat)
    requires
        rest.len() > 0,
        forall|i: int| 0 <= i < rest.len() ==> json_ok(#[trigger] rest[i]),
        0 <= p <= y + 2 * (level + 1),
        forall|k: int| p <= k < y ==> is_ws(#[trigger] s[k]),
        occurs_at(s, y, front_items(rest, level, false) + indent_spec(level) + seq![']']),
    ensures
        skip_ws_spec(s, p) == y + 2 * (level + 1),
        s[y + 2 * (level + 1)] != ']',
        p_items(s, p, acc) == Ok::<(JsonM, int), Seq<char>>(
            (JsonM::Array(acc + rest), y + front_items(rest, level, false).len() + 2 * level + 1),
        ),
    decreases rest, 0int,
{
    let v = rest[0];
    let (z, e) = lemma_item_layout(s, p, y, rest, level);
    lemma_value_rt(s, p, z, v, level + 1);
    if rest.len() > 1 {
        let tail = rest.subrange(1, rest.len() as int);
        assert forall|i: int| 0 <= i < tail.len() implies json_ok(#[trigger] tail[i]) by {
            assert(tail[i] == rest[i + 1]);
        }
        lemma_items_rt(s, e + 1, e + 2, tail, acc.push(v), level);
        assert(acc.push(v) + tail =~= acc + rest);
    } else {
        assert(acc.push(v) =~= acc + rest);
    }
}

/// Where the parts of the first line of the members `rest` stand, and what
/// follows it.
proof fn lemma_member_layout(
    s: Seq<char>,
    p: int,
    y: int,
    rest: Seq<(Seq<char>, JsonM)>,
    level: nat,
) -> (r: (int, int, int))
    requires
        rest.len() > 0,
        0 <= p <= y + 2 * (level + 1),
        forall|k: int| p <= k < y ==> is_ws(#[trigger] s[k]),
        occurs_at(s, y, front_members(rest, level, false) + indent_spec(level) + seq!['}']),
    ensures
        r.0 == y + 2 * (level + 1),
        r.0 < r.1 < s.len(),
        r.2 == r.1 + 2 + w_value(rest[0].1, level + 1).len(),
        r.2 < s.len(),
        skip_ws_spec(s, p) == r.0,
        s[r.0] == '"',
        p_string(s, r.0 + 1, seq![]) == Ok::<(Seq<char>, int), Seq<char>>((rest[0].0, r.1)),
        s[r.1] == ':',
        skip_ws_spec(s, r.1) == r.1,
        is_ws(s[r.1 + 1]),
        occurs_at(s, r.1 + 2, w_value(rest[0].1, level + 1)),
        ends_ok(s, r.2),
        rest.len() > 1 ==> s[r.2] == ',' && skip_ws_spec(s, r.2) == r.2 && is_ws(s[r.2 + 1])
            && occurs_at(
            s,
            r.2 + 2,
            front_members(rest.subrange(1, rest.len() as int), level, false) + indent_spec(level)
                + seq!['}'],
        ) && y + front_members(rest, level, false).len() == r.2 + 2 + front_members(
            rest.subrange(1, rest.len() as int),
            level,
            false,
        ).len(),
        rest.len() == 1 ==> r.2 + 1 + 2 * level < s.len(),
        rest.len() == 1 ==> skip_ws_spec(s, r.2) == r.2 + 1 + 2 * level && s[r.2 + 1 + 2 * level]
            == '}' && y + front_members(rest, level, false).len() == r.2 + 1,
{
    let m = rest[0];
    let key = m.0;
    let v = m.1;
    let tail = rest.subrange(1, rest.len() as int);
    let comma = rest.len() > 1;
    let il = indent_spec(level + 1);
    let wk = w_string(key);
    let colon = seq![':', ' '];
    let wv = w_value(v, level + 1);
    let le = line_end(comma);
    let ft = front_members(tail, level, false);
    let close = indent_spec(level) + seq!['}'];
    lemma_indent(level + 1);
    lemma_indent(level);
    assert(front_members(rest, level, false) == member_line(m, level, comma) + ft);
    let whole = front_members(rest, level, false) + indent_spec(level) + seq!['}'];
    assert(ft + close =~= ft + indent_spec(level) + seq!['}']);
    assert(whole =~= il + (wk + (colon + (wv + (le + (ft + close))))));
    lemma_occurs_split(s, y, il, wk + (colon + (wv + (le + (ft + close)))));
    let z = y + il.len();
    lemma_occurs_split(s, z, wk, colon + (wv + (le + (ft + close))));
    let c = z + wk.len();
    lemma_occurs_split(s, c, colon, wv + (le + (ft + close)));
    let x = c + 2;
    lemma_occurs_split(s, x, wv, le + (ft + close));
    let e = x + wv.len();
    lemma_occurs_split(s, e, le, ft + close);
    lemma_occurs_char(s, z, wk, 0);
    assert(wk[0] == '"');
    assert forall|k: int| p <= k < z implies is_ws(#[trigger] s[k]) by {
        if k >= y {
            lemma_occurs_char(s, y, il, k - y);
        }
    }
    lemma_skip_ws_to(s, p, z);
    lemma_str_rt(s, z, key);
    lemma_occurs_char(s, c, colon, 0);
    lemma_occurs_char(s, c, colon, 1);
    lemma_skip_ws_to(s, c, c);
    lemma_occurs_char(s, e, le, 0);
    if comma {
        lemma_occurs_char(s, e, le, 1);
        lemma_skip_ws_to(s, e, e);
    } else {
        assert(tail.len() == 0);
        assert(ft =~= Seq::<char>::empty());
        assert(ft + close =~= close);
        let f = e + 1;
        lemma_occurs_split(s, f, indent_spec(level), seq!['}']);
        let r = f + 2 * level;
        lemma_occurs_char(s, r, seq!['}'], 0);
        assert forall|k: int| e <= k < r implies is_ws(#[trigger] s[k]) by {
            if k > e {
                lemma_occurs_char(s, f, indent_spec(level), k - f);
            }
        }
        lemma_skip_ws_to(s, e, r);
    }
    (z, c, e)
}

/// The lines of the members `rest` at `y`, then the closing brace, read back
/// as those members after `acc`.
proof fn lemma_members_rt(
    s: Seq<char>,
    p: int,
    y: int,
    rest: Seq<(Seq<char>, JsonM)>,
    acc: Seq<(Seq<char>, JsonM)>,
    level: nat,
)
    requires
        rest.len() > 0,
        forall|i: int| 0 <= i < rest.len() ==> json_ok(#[trigger] rest[i].1),
        0 <= p <= y + 2 * (level + 1),
        forall|k: int| p <= k < y ==> is_ws(#[trigger] s[k]),
        occurs_at(s, y, front_members(rest, level, false) + indent_spec(level) + seq!['}']),
    ensures
        skip_ws_spec(s, p) == y + 2 * (level + 1),
        s[y + 2 * (level + 1)] == '"',
        p_members(s, p, acc) == Ok::<(JsonM, int), Seq<char>>(
            (JsonM::Object(acc + rest), y + front_members(rest, level, false).len() + 2 * level + 1),
        ),
    decreases rest, 0int,
{
    let key = rest[0].0;
    let v = rest[0].1;
    let (z, c, e) = lemma_member_layout(s, p, y, rest, level);
    assert(json_ok(rest[0].1));
    lemma_value_rt(s, c + 1, c + 2, v, level + 1);
    if rest.len() > 1 {
        let tail = rest.subrange(1, rest.len() as int);
        assert forall|i: int| 0 <= i < tail.len() implies json_ok(#[trigger] tail[i].1) by {
            assert(tail[i] == rest[i + 1]);
        }
        lemma_members_rt(s, e + 1, e + 2, tail, acc.push((key, v)), level);
        assert(acc.push((key, v)) + tail =~= acc + rest);
    } else {
        assert(acc.push((key, v)) =~= acc + rest);
    }
}

/// Reading the text that `write` gives for a value gives the value back, for
/// every value whose numbers are each one number token; so does that text with
/// a line break after it.
pub proof fn lemma_json_round_trip(v: JsonM)
    requires
        json_ok(v),
    ensures
        parse_spec(write_spec(v)) == Ok::<JsonM, Seq<char>>(v),
        parse_spec(write_spec(v).push('\n')) == Ok::<JsonM, Seq<char>>(v),
{
    let s = write_spec(v);
    assert(occurs_at(s, 0, s)) by {
        reveal(occurs_at);
    }
    lemma_value_rt(s, 0, 0, v, 0);
    lemma_skip_ws_to(s, s.len() as int, s.len() as int);
    let s2 = s.push('\n');
    assert(occurs_at(s2, 0, s)) by {
        reveal(occurs_at);
    }
    assert(s2[s.len() as int] == '\n');
    lemma_value_rt(s2, 0, 0, v, 0);
    lemma_skip_ws_to(s2, s.len() as int, s2.len() as int);
}

} // verus!
