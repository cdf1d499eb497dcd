//! The `.ngj` format is the document model as JSON:
//!
//! ```text
//! {
//!   "start": "name",
//!   "categories": {
//!     "first": ["Anna", {"text": "Beth", "weight": 2}, "Clara"],
//!     "last": ["Smith", "Jones"],
//!     "name": ["{first} {last}"]
//!   }
//! }
//! ```
//!
//! An entry is a bare string (weight 1) or an object with `"text"` and an
//! optional `"weight"`.

use vstd::prelude::*;
use crate::json::{
    self, members_view, number_shape, number_token, values_view, JsonM, Value,
    lemma_members_view_index, lemma_members_view_len, lemma_values_view_index,
    lemma_values_view_len,
};
use crate::model::{
    add_category_spec, entries_view, fatal_m, fatal_of, has_name, issues_view, semantic_m,
    semantic_of, CategoryM, DocM, Document, Entry, EntryM, Issue, IssueM,
};
use crate::ngt::{empty_doc, parse_result_is};
use crate::text::{
    append_chars, chars_of, digits_value, is_digit, push_decimal, push_str, slice_chars, string_of,
    decimal,
};

verus! {

pub open spec fn zeros(n: nat) -> Seq<char> {
    Seq::new(n, |i: int| '0')
}

pub open spec fn all_zero(s: Seq<char>) -> bool {
    forall|i: int| 0 <= i < s.len() ==> s[i] == '0'
}

/// A number token as its sign, its mantissa digits (integer and fraction
/// digits together) and the position of the decimal point among them once the
/// exponent has moved it.
pub open spec fn number_decomposition(t: Seq<char>) -> (bool, Seq<char>, int) {
    let (a, b, dot, c, exp, d, e) = number_shape(t, 0);
    let mant = t.subrange(a, b) + if dot {
        t.subrange(b + 1, c)
    } else {
        Seq::<char>::empty()
    };
    let ev = digits_value(t.subrange(d, e)) as int;
    let expo = if exp && d == c + 2 && t[c + 1] == '-' {
        -ev
    } else {
        ev
    };
    (a == 1, mant, (b - a) + expo)
}

/// The digits before the decimal point, padded with zeros when it lies past
/// the mantissa.
pub open spec fn int_part(mant: Seq<char>, point: int) -> Seq<char> {
    if point <= 0 {
        Seq::<char>::empty()
    } else if point >= mant.len() {
        mant + zeros((point - mant.len()) as nat)
    } else {
        mant.take(point)
    }
}

/// The digits after the decimal point.
pub open spec fn frac_part(mant: Seq<char>, point: int) -> Seq<char> {
    if point <= 0 {
        mant
    } else if point >= mant.len() {
        Seq::<char>::empty()
    } else {
        mant.skip(point)
    }
}

/// The weight of a decomposed number: its value when that value is a whole
/// number of at least 1, with values above `u32::MAX` cut to `u32::MAX`.
pub open spec fn weight_of_parts(neg: bool, mant: Seq<char>, point: int) -> Option<u32> {
    let i = digits_value(int_part(mant, point));
    if neg || !all_zero(frac_part(mant, point)) || i == 0 {
        None
    } else if i > u32::MAX {
        Some(u32::MAX)
    } else {
        Some(i as u32)
    }
}

/// The weight that a number token gives (none for anything that is not
/// exactly one number token).
pub open spec fn number_weight(t: Seq<char>) -> Option<u32> {
    if !number_token(t) {
        None
    } else {
        let (neg, mant, point) = number_decomposition(t);
        weight_of_parts(neg, mant, point)
    }
}


/// `min(n, u32::MAX + 1)`.
pub open spec fn saturated(n: nat) -> nat {
    if n > u32::MAX {
        u32::MAX as nat + 1
    } else {
        n
    }
}

/// The value of the digits `v`, cut at `u32::MAX + 1`.
fn saturating_value(v: &Vec<char>) -> (r: u64)
    requires
        crate::text::all_digits(v@),
    ensures
        r == saturated(digits_value(v@)),
{
    let mut acc: u64 = 0;
    let mut i: usize = 0;
    assert(v@.take(0) =~= Seq::<char>::empty());
    while i < v.len()
        invariant
            i <= v.len(),
            crate::text::all_digits(v@),
            acc == saturated(digits_value(v@.take(i as int))),
        decreases v.len() - i,
    {
        let ghost pre = v@.take(i as int);
        assert(v@.take(i + 1).drop_last() =~= pre);
        assert(v@.take(i + 1).last() == v@[i as int]);
        assert(is_digit(v@[i as int]));
        let d = (v[i] as u32 - '0' as u32) as u64;
        let next = acc * 10 + d;
        if next > 0xffff_ffff {
            acc = 0x1_0000_0000;
        } else {
            acc = next;
        }
        i = i + 1;
        assert(acc == saturated(digits_value(v@.take(i as int))));
    }
    assert(v@.take(v.len() as int) =~= v@);
    acc
}

/// The value of the digits `v[from..to]` when it is at most `cap`.
fn capped_value(v: &Vec<char>, from: usize, to: usize, cap: u128) -> (r: Option<u128>)
    requires
        from <= to <= v.len(),
        crate::text::all_digits(v@.subrange(from as int, to as int)),
        cap < 0x1_0000_0000_0000_0000_0000,
    ensures
        r matches Some(n) ==> n == digits_value(v@.subrange(from as int, to as int)) && n <= cap,
        r is None ==> digits_value(v@.subrange(from as int, to as int)) > cap,
{
    let ghost s = v@.subrange(from as int, to as int);
    let mut acc: u128 = 0;
    let mut i = from;
    assert(s.take(0) =~= Seq::<char>::empty());
    while i < to
        invariant
            from <= i <= to <= v.len(),
            s == v@.subrange(from as int, to as int),
            crate::text::all_digits(s),
            cap < 0x1_0000_0000_0000_0000_0000,
            acc == digits_value(s.take(i - from)),
            acc <= cap,
        decreases to - i,
    {
        assert(s.take(i - from + 1).drop_last() =~= s.take(i - from));
        assert(s.take(i - from + 1).last() == s[i - from]);
        assert(is_digit(s[i - from]));
        let d = (v[i] as u32 - '0' as u32) as u128;
        acc = acc * 10 + d;
        i = i + 1;
        if acc > cap {
            proof {
                crate::text::lemma_digits_value_prefix(s, i - from);
            }
            return None;
        }
    }
    assert(s.take(i - from) =~= s);
    Some(acc)
}

pub open spec fn pow10(n: nat) -> nat
    decreases n,
{
    if n == 0 {
        1
    } else {
        10 * pow10((n - 1) as nat)
    }
}

/// Appending `z` zeros multiplies the value of a run of digits by `10^z`.
pub proof fn lemma_digits_value_zeros(s: Seq<char>, z: nat)
    ensures
        digits_value(s + zeros(z)) == digits_value(s) * pow10(z),
    decreases z,
{
    if z > 0 {
        let t = s + zeros(z);
        let u = s + zeros((z - 1) as nat);
        assert(t.drop_last() =~= u);
        assert(t.last() == '0');
        assert(digits_value(t) == digits_value(u) * 10);
        lemma_digits_value_zeros(s, (z - 1) as nat);
        let dv = digits_value(s);
        let pz = pow10((z - 1) as nat);
        assert(pow10(z) == 10 * pz);
        assert(digits_value(u) == dv * pz);
        assert(dv * pz * 10 == dv * (10 * pz)) by (nonlinear_arith);
        assert(digits_value(t) == dv * pow10(z));
    } else {
        assert(s + zeros(0) =~= s);
        assert(pow10(0) == 1);
        assert(digits_value(s) * 1 == digits_value(s));
    }
}

pub proof fn lemma_pow10_large(z: nat)
    requires
        z >= 12,
    ensures
        pow10(z) > u32::MAX,
    decreases z,
{
    if z > 12 {
        lemma_pow10_large((z - 1) as nat);
    } else {
        reveal_with_fuel(pow10, 13);
    }
}

/// With the point twelve or more digits past the mantissa, any non-zero
/// mantissa gives the cut-off weight.
pub proof fn lemma_far_point(mant: Seq<char>, point: int)
    requires
        point >= mant.len() + 12,
    ensures
        weight_of_parts(false, mant, point) == if digits_value(mant) == 0 {
            None::<u32>
        } else {
            Some(u32::MAX)
        },
{
    let z = (point - mant.len()) as nat;
    lemma_digits_value_zeros(mant, z);
    lemma_pow10_large(z);
    let dv = digits_value(mant);
    let pz = pow10(z);
    if dv > 0 {
        assert(dv * pz >= pz) by (nonlinear_arith)
            requires
                dv > 0,
        ;
    }
    assert(frac_part(mant, point) =~= Seq::<char>::empty());
}

/// The weight of the mantissa `mant` of a non-negative number with its point at `point`.
fn weight_from_mantissa(mant: &Vec<char>, point: i128) -> (r: Option<u32>)
    requires
        crate::text::all_digits(mant@),
        point <= 2 * mant.len() + 12,
    ensures
        r == weight_of_parts(false, mant@, point as int),
{
    let n = mant.len();
    if point <= 0 {
        assert(int_part(mant@, point as int) =~= Seq::<char>::empty());
        return None;
    }
    let mut digits: Vec<char>;
    if point >= n as i128 {
        digits = slice_chars(mant, 0, n);
        assert(mant@.subrange(0, n as int) =~= mant@);
        assert(digits@ =~= mant@ + zeros(0));
        let z = (point - n as i128) as u128;
        let mut k: u128 = 0;
        while k < z
            invariant
                k <= z,
                digits@ == mant@ + zeros(k as nat),
            decreases z - k,
        {
            digits.push('0');
            k = k + 1;
            assert(digits@ =~= mant@ + zeros(k as nat));
        }
        assert(frac_part(mant@, point as int) =~= Seq::<char>::empty());
    } else {
        let p = point as usize;
        assert(frac_part(mant@, point as int) =~= mant@.skip(p as int));
        let mut k = p;
        while k < n
            invariant
                p <= k <= n == mant.len(),
                p as int == point,
                0 < point < n,
                forall|j: int| p <= j < k ==> mant@[j] == '0',
            decreases n - k,
        {
            if mant[k] != '0' {
                assert(frac_part(mant@, point as int) =~= mant@.skip(p as int));
                assert(frac_part(mant@, point as int)[k - p] != '0');
                return None;
            }
            k = k + 1;
        }
        digits = slice_chars(mant, 0, p);
        assert(mant@.subrange(0, p as int) =~= mant@.take(p as int));
        assert(all_zero(frac_part(mant@, point as int)));
    }
    assert(digits@ == int_part(mant@, point as int));
    assert(crate::text::all_digits(digits@)) by {
        assert forall|k: int| 0 <= k < digits@.len() implies #[trigger] is_digit(digits@[k]) by {
            if k < mant@.len() {
                assert(is_digit(mant@[k]));
            }
        }
    }
    let v = saturating_value(&digits);
    if v == 0 {
        None
    } else if v > 0xffff_ffff {
        Some(0xffff_ffff)
    } else {
        Some(v as u32)
    }
}

/// The digits `t[a..b]` followed, when `dot`, by `t[b+1..c]`.
fn mantissa(t: &Vec<char>, a: usize, b: usize, dot: bool, c: usize) -> (m: Vec<char>)
    requires
        a <= b <= c <= t.len(),
        dot ==> b < c,
        forall|k: int| a <= k < b ==> is_digit(#[trigger] t@[k]),
        dot ==> forall|k: int| b + 1 <= k < c ==> is_digit(#[trigger] t@[k]),
    ensures
        m@ == t@.subrange(a as int, b as int) + if dot {
            t@.subrange(b + 1, c as int)
        } else {
            Seq::<char>::empty()
        },
        crate::text::all_digits(m@),
{
    let mut mant = slice_chars(t, a, b);
    if dot {
        let f = slice_chars(t, b + 1, c);
        append_chars(&mut mant, &f);
    }
    assert(mant@ =~= t@.subrange(a as int, b as int) + if dot {
        t@.subrange(b + 1, c as int)
    } else {
        Seq::<char>::empty()
    });
    assert(crate::text::all_digits(mant@)) by {
        assert forall|k: int| 0 <= k < mant@.len() implies #[trigger] is_digit(mant@[k]) by {
            if k < b - a {
                assert(mant@[k] == t@[a + k]);
            } else {
                assert(mant@[k] == t@[b + 1 + (k - (b - a))]);
            }
        }
    }
    mant
}

/// The weight of the number token `t`, as `number_weight` describes.
#[verifier::rlimit(40)]
fn number_weight_exec(t: &Vec<char>) -> (r: Option<u32>)
    ensures
        r == number_weight(t@),
{
    if t.len() == 0 || !(t[0] == '-' || ('0' <= t[0] && t[0] <= '9')) {
        return None;
    }
    match json::parse_number(t, 0) {
        Ok((v, q)) => {
            if q != t.len() {
                return None;
            }
            assert(t@.subrange(0, q as int) =~= t@);
        },
        Err(_) => {
            return None;
        },
    }
    let (a, b, dot, c, exp, d, e) = json::number_positions(t, 0);
    proof {
        json::lemma_scan_digits(t@, a as int);
        if dot {
            json::lemma_scan_digits(t@, b + 1);
        }
        if exp {
            json::lemma_scan_digits(t@, d as int);
        }
    }
    let ghost dec = number_decomposition(t@);
    if a == 1 {
        return None;
    }
    let mant = mantissa(t, a, b, dot, c);
    assert(mant@ =~= dec.1);
    let n = mant.len();
    let cap: u128 = n as u128 + 12;
    assert(crate::text::all_digits(t@.subrange(d as int, e as int))) by {
        assert forall|k: int| 0 <= k < e - d implies #[trigger] is_digit(
            t@.subrange(d as int, e as int)[k],
        ) by {
            assert(t@.subrange(d as int, e as int)[k] == t@[d + k]);
        }
    }
    let neg_exp = exp && d == c + 2 && t[c + 1] == '-';
    match capped_value(t, d, e, cap) {
        Some(ev) => {
            let point: i128 = (b - a) as i128 + if neg_exp {
                -(ev as i128)
            } else {
                ev as i128
            };
            assert(point == dec.2);
            weight_from_mantissa(&mant, point)
        },
        None => {
            if neg_exp {
                assert(int_part(dec.1, dec.2) =~= Seq::<char>::empty());
                return None;
            }
            proof {
                lemma_far_point(dec.1, dec.2);
            }
            let v = saturating_value(&mant);
            if v == 0 {
                None
            } else {
                Some(0xffff_ffff)
            }
        },
    }
}


pub open spec fn msg_top_not_object() -> Seq<char> {
    "top-level JSON value must be an object"@
}

pub open spec fn msg_start_not_string() -> Seq<char> {
    "\"start\" must be a string; ignoring it"@
}

pub open spec fn msg_categories_not_object() -> Seq<char> {
    "\"categories\" must be an object"@
}

pub open spec fn msg_duplicate_category(name: Seq<char>) -> Seq<char> {
    "duplicate category '"@ + name + "'; entries were merged"@
}

pub open spec fn msg_unknown_key(key: Seq<char>) -> Seq<char> {
    "unknown top-level key '"@ + key + "' was ignored"@
}

pub open spec fn msg_not_array(cat: Seq<char>) -> Seq<char> {
    "category '"@ + cat + "' must be an array of entries"@
}

pub open spec fn msg_invalid_weight(cat: Seq<char>) -> Seq<char> {
    "category '"@ + cat + "' has an invalid weight; defaulting to 1"@
}

pub open spec fn msg_unknown_field(cat: Seq<char>, field: Seq<char>) -> Seq<char> {
    "category '"@ + cat + "' entry has unknown field '"@ + field + "'"@
}

pub open spec fn msg_no_text(cat: Seq<char>) -> Seq<char> {
    "category '"@ + cat + "' has an entry object without a \"text\" field; skipping it"@
}

pub open spec fn msg_bad_entry(cat: Seq<char>) -> Seq<char> {
    "category '"@ + cat + "' has an entry that is neither a string nor an object; skipping it"@
}

/// The weight that a `"weight"` field gives.
pub open spec fn weight_value(v: JsonM) -> Option<u32> {
    match v {
        JsonM::Number(t) => number_weight(t),
        _ => None,
    }
}

/// Reading the fields of an entry object: the text (the last `"text"` field
/// decides; a non-string one leaves no text), the weight (the last valid
/// `"weight"` field, 1 by default) and the issues.
pub open spec fn fields_fold(fs: Seq<(Seq<char>, JsonM)>, cat: Seq<char>) -> (Option<Seq<char>>, u32, Seq<IssueM>)
    decreases fs.len(),
{
    if fs.len() == 0 {
        (None, 1, seq![])
    } else {
        let (t, w, is) = fields_fold(fs.drop_last(), cat);
        let (k, v) = fs.last();
        if k == "text"@ {
            (
                match v {
                    JsonM::Str(s) => Some(s),
                    _ => None,
                },
                w,
                is,
            )
        } else if k == "weight"@ {
            match weight_value(v) {
                Some(n) => (t, n, is),
                None => (t, w, is.push(semantic_m(msg_invalid_weight(cat)))),
            }
        } else {
            (t, w, is.push(semantic_m(msg_unknown_field(cat, k))))
        }
    }
}

/// The entries (none or one) and issues that one item of a category gives.
pub open spec fn item_entry(item: JsonM, cat: Seq<char>) -> (Seq<EntryM>, Seq<IssueM>) {
    match item {
        JsonM::Str(s) => (seq![EntryM { text: s, weight: 1 }], seq![]),
        JsonM::Object(fs) => {
            let (t, w, is) = fields_fold(fs, cat);
            match t {
                Some(x) => (seq![EntryM { text: x, weight: w }], is),
                None => (seq![], is.push(semantic_m(msg_no_text(cat)))),
            }
        },
        _ => (seq![], seq![semantic_m(msg_bad_entry(cat))]),
    }
}

/// The entries and issues of the items of a category.
pub open spec fn items_fold(items: Seq<JsonM>, cat: Seq<char>) -> (Seq<EntryM>, Seq<IssueM>)
    decreases items.len(),
{
    if items.len() == 0 {
        (seq![], seq![])
    } else {
        let (es, is) = items_fold(items.drop_last(), cat);
        let (e2, i2) = item_entry(items.last(), cat);
        (es + e2, is + i2)
    }
}

/// The entries of a category value, which must be an array.
pub open spec fn entries_spec(v: JsonM, cat: Seq<char>) -> Result<(Seq<EntryM>, Seq<IssueM>), IssueM> {
    match v {
        JsonM::Array(items) => Ok(items_fold(items, cat)),
        _ => Err(fatal_m(msg_not_array(cat))),
    }
}

/// Adding the category `name` with value `v` to the state.
pub open spec fn add_named(st: (DocM, Seq<IssueM>), name: Seq<char>, v: JsonM) -> Result<
    (DocM, Seq<IssueM>),
    IssueM,
> {
    match entries_spec(v, name) {
        Err(e) => Err(e),
        Ok((es, is)) => Ok(
            (
                DocM {
                    start: st.0.start,
                    categories: add_category_spec(st.0.categories, name, es),
                },
                st.1 + is + if has_name(st.0.categories, name) {
                    seq![semantic_m(msg_duplicate_category(name))]
                } else {
                    Seq::<IssueM>::empty()
                },
            ),
        ),
    }
}

pub open spec fn cats_fold(st: (DocM, Seq<IssueM>), cats: Seq<(Seq<char>, JsonM)>) -> Result<
    (DocM, Seq<IssueM>),
    IssueM,
>
    decreases cats.len(),
{
    if cats.len() == 0 {
        Ok(st)
    } else {
        match cats_fold(st, cats.drop_last()) {
            Err(e) => Err(e),
            Ok(s2) => add_named(s2, cats.last().0, cats.last().1),
        }
    }
}

/// Reading one top-level member.
pub open spec fn top_member(st: (DocM, Seq<IssueM>), key: Seq<char>, v: JsonM) -> Result<
    (DocM, Seq<IssueM>),
    IssueM,
> {
    if key == "start"@ {
        match v {
            JsonM::Str(s) => Ok((DocM { start: Some(s), categories: st.0.categories }, st.1)),
            _ => Ok((st.0, st.1.push(semantic_m(msg_start_not_string())))),
        }
    } else if key == "categories"@ {
        match v {
            JsonM::Object(cats) => cats_fold(st, cats),
            _ => Err(fatal_m(msg_categories_not_object())),
        }
    } else {
        Ok((st.0, st.1.push(semantic_m(msg_unknown_key(key)))))
    }
}

pub open spec fn top_fold(ms: Seq<(Seq<char>, JsonM)>) -> Result<(DocM, Seq<IssueM>), IssueM>
    decreases ms.len(),
{
    if ms.len() == 0 {
        Ok((empty_doc(), seq![]))
    } else {
        match top_fold(ms.drop_last()) {
            Err(e) => Err(e),
            Ok(st) => top_member(st, ms.last().0, ms.last().1),
        }
    }
}

/// What reading an `.ngj` text gives.
pub open spec fn parse_spec(input: Seq<char>) -> Result<(DocM, Seq<IssueM>), IssueM> {
    match json::parse_spec(input) {
        Err(m) => Err(fatal_m(m)),
        Ok(JsonM::Object(ms)) => top_fold(ms),
        Ok(_) => Err(fatal_m(msg_top_not_object())),
    }
}

/// The message `category '<cat>'<rest>`.
fn category_message(cat: &Vec<char>, rest: &str) -> (m: Vec<char>)
    ensures
        m@ == "category '"@ + cat@ + rest@,
{
    let mut m: Vec<char> = Vec::new();
    push_str(&mut m, "category '");
    append_chars(&mut m, cat);
    push_str(&mut m, rest);
    assert(m@ =~= "category '"@ + cat@ + rest@);
    m
}

/// Reads the fields of an entry object.
fn read_fields(fields: &Vec<(String, Value)>, cat: &Vec<char>, issues: &mut Vec<Issue>) -> (r: (Option<String>, u32))
    ensures
        ({
            let (t, w, is) = fields_fold(members_view(fields@), cat@);
            &&& r.1 == w
            &&& match t {
                Some(x) => r.0 matches Some(s) && s@ == x,
                None => r.0 is None,
            }
            &&& issues_view(final(issues)@) == issues_view(old(issues)@) + is
        }),
{
    let ghost fs = members_view(fields@);
    proof {
        lemma_members_view_len(fields@);
    }
    let mut text: Option<String> = None;
    let mut weight: u32 = 1;
    let mut i: usize = 0;
    while i < fields.len()
        invariant
            i <= fields.len(),
            fs == members_view(fields@),
            fs.len() == fields.len(),
            ({
                let (t, w, is) = fields_fold(fs.take(i as int), cat@);
                &&& weight == w
                &&& match t {
                    Some(x) => text matches Some(s) && s@ == x,
                    None => text is None,
                }
                &&& issues_view(issues@) == issues_view(old(issues)@) + is
            }),
        decreases fields.len() - i,
    {
        proof {
            lemma_members_view_index(fields@, i as int);
        }
        assert(fs.take(i + 1).drop_last() =~= fs.take(i as int));
        let ghost before = issues@;
        let field = &fields[i].0;
        let val = &fields[i].1;
        if crate::text::str_eq(field.as_str(), "text") {
            text = match val.as_str() {
                Some(s) => Some(String::from_str(s)),
                None => None,
            };
        } else if crate::text::str_eq(field.as_str(), "weight") {
            let w = match val.as_number() {
                Some(t) => number_weight_exec(&chars_of(t)),
                None => None,
            };
            match w {
                Some(n) => {
                    weight = n;
                },
                None => {
                    let m = category_message(cat, "' has an invalid weight; defaulting to 1");
                    issues.push(semantic_of(&m));
                    assert(issues_view(issues@) =~= issues_view(before).push(
                        semantic_m(msg_invalid_weight(cat@)),
                    ));
                },
            }
        } else {
            let mut m = category_message(cat, "' entry has unknown field '");
            let fv = chars_of(field.as_str());
            append_chars(&mut m, &fv);
            push_str(&mut m, "'");
            assert(m@ =~= msg_unknown_field(cat@, field@));
            issues.push(semantic_of(&m));
            assert(issues_view(issues@) =~= issues_view(before).push(
                semantic_m(msg_unknown_field(cat@, field@)),
            ));
        }
        i = i + 1;
    }
    assert(fs.take(fields.len() as int) =~= fs);
    (text, weight)
}

/// Reads the entries of one category.
fn parse_entries(val: &Value, cat: &Vec<char>, issues: &mut Vec<Issue>) -> (r: Result<Vec<Entry>, Issue>)
    ensures
        match entries_spec(val@, cat@) {
            Ok((es, is)) => r matches Ok(v) && entries_view(v@) == es && issues_view(
                final(issues)@,
            ) == issues_view(old(issues)@) + is,
            Err(e) => r matches Err(i) && i@ == e,
        },
{
    let items = match val.as_array() {
        Some(a) => a,
        None => {
            let m = category_message(cat, "' must be an array of entries");
            return Err(fatal_of(&m));
        },
    };
    let ghost its = values_view(items@);
    proof {
        lemma_values_view_len(items@);
    }
    let mut entries: Vec<Entry> = Vec::new();
    let mut i: usize = 0;
    assert(its.take(0) =~= Seq::<JsonM>::empty());
    assert(entries_view(entries@) =~= Seq::<EntryM>::empty());
    assert(issues_view(issues@) =~= issues_view(old(issues)@) + Seq::<IssueM>::empty());
    while i < items.len()
        invariant
            i <= items.len(),
            its == values_view(items@),
            its.len() == items.len(),
            entries_view(entries@) == items_fold(its.take(i as int), cat@).0,
            issues_view(issues@) == issues_view(old(issues)@) + items_fold(its.take(i as int), cat@).1,
        decreases items.len() - i,
    {
        proof {
            lemma_values_view_index(items@, i as int);
        }
        assert(its.take(i + 1).drop_last() =~= its.take(i as int));
        let ghost e_before = entries_view(entries@);
        let ghost i_before = issues_view(issues@);
        let ghost item = its[i as int];
        match &items[i] {
            Value::String(s) => {
                entries.push(Entry { text: String::from_str(s.as_str()), weight: 1 });
                assert(entries_view(entries@) =~= e_before + item_entry(item, cat@).0);
                assert(issues_view(issues@) =~= i_before + item_entry(item, cat@).1);
            },
            Value::Object(fields) => {
                let (text, weight) = read_fields(fields, cat, issues);
                match text {
                    Some(t) => {
                        entries.push(Entry { text: t, weight });
                        assert(entries_view(entries@) =~= e_before + item_entry(item, cat@).0);
                    },
                    None => {
                        let m = category_message(
                            cat,
                            "' has an entry object without a \"text\" field; skipping it",
                        );
                        let ghost mid = issues_view(issues@);
                        issues.push(semantic_of(&m));
                        assert(issues_view(issues@) =~= mid.push(semantic_m(msg_no_text(cat@))));
                        assert(entries_view(entries@) =~= e_before + item_entry(item, cat@).0);
                    },
                }
                assert(issues_view(issues@) =~= i_before + item_entry(item, cat@).1);
            },
            _ => {
                let m = category_message(
                    cat,
                    "' has an entry that is neither a string nor an object; skipping it",
                );
                issues.push(semantic_of(&m));
                assert(entries_view(entries@) =~= e_before + item_entry(item, cat@).0);
                assert(issues_view(issues@) =~= i_before + item_entry(item, cat@).1);
            },
        }
        i = i + 1;
    }
    assert(its.take(items.len() as int) =~= its);
    Ok(entries)
}

/// Reads the categories object into `doc` and `issues`.
fn read_categories(cats: &Vec<(String, Value)>, doc: &mut Document, issues: &mut Vec<Issue>) -> (r: Result<(), Issue>)
    ensures
        match cats_fold((old(doc)@, issues_view(old(issues)@)), members_view(cats@)) {
            Ok(st) => r is Ok && final(doc)@ == st.0 && issues_view(final(issues)@) == st.1,
            Err(e) => r matches Err(i) && i@ == e,
        },
{
    let ghost cs = members_view(cats@);
    let ghost st0 = (doc@, issues_view(issues@));
    proof {
        lemma_members_view_len(cats@);
    }
    let mut i: usize = 0;
    assert(cs.take(0) =~= Seq::<(Seq<char>, JsonM)>::empty());
    while i < cats.len()
        invariant
            i <= cats.len(),
            cs == members_view(cats@),
            cs.len() == cats.len(),
            st0 == (old(doc)@, issues_view(old(issues)@)),
            cats_fold(st0, cs.take(i as int)) == Ok::<(DocM, Seq<IssueM>), IssueM>(
                (doc@, issues_view(issues@)),
            ),
        decreases cats.len() - i,
    {
        proof {
            lemma_members_view_index(cats@, i as int);
        }
        assert(cs.take(i + 1).drop_last() =~= cs.take(i as int));
        let name = &cats[i].0;
        let nv = chars_of(name.as_str());
        let ghost d_before = doc@;
        let ghost i_before = issues_view(issues@);
        let entries = match parse_entries(&cats[i].1, &nv, issues) {
            Ok(e) => e,
            Err(e) => {
                proof {
                    assert(cs.take(i + 1).last() == cs[i as int]);
                    assert(cats_fold(st0, cs.take(i + 1)) == Err::<(DocM, Seq<IssueM>), IssueM>(e@));
                    lemma_cats_fold_prefix_err(st0, cs, i + 1);
                }
                return Err(e);
            },
        };
        let ghost mid = issues_view(issues@);
        let merged = doc.add_category(String::from_str(name.as_str()), entries);
        if merged {
            let mut m: Vec<char> = Vec::new();
            push_str(&mut m, "duplicate category '");
            append_chars(&mut m, &nv);
            push_str(&mut m, "'; entries were merged");
            assert(m@ =~= msg_duplicate_category(nv@));
            issues.push(semantic_of(&m));
            assert(issues_view(issues@) =~= mid + seq![semantic_m(msg_duplicate_category(nv@))]);
        } else {
            assert(issues_view(issues@) =~= mid + Seq::<IssueM>::empty());
        }
        i = i + 1;
    }
    assert(cs.take(cats.len() as int) =~= cs);
    Ok(())
}

proof fn lemma_cats_fold_prefix_err(st: (DocM, Seq<IssueM>), cats: Seq<(Seq<char>, JsonM)>, k: int)
    requires
        0 <= k <= cats.len(),
        cats_fold(st, cats.take(k)) is Err,
    ensures
        cats_fold(st, cats) == cats_fold(st, cats.take(k)),
    decreases cats.len() - k,
{
    if k < cats.len() {
        assert(cats.drop_last().take(k) =~= cats.take(k));
        lemma_cats_fold_prefix_err(st, cats.drop_last(), k);
        assert(cats.drop_last() =~= cats.take(cats.len() - 1));
    } else {
        assert(cats.take(k) =~= cats);
    }
}

proof fn lemma_top_fold_prefix_err(ms: Seq<(Seq<char>, JsonM)>, k: int)
    requires
        0 <= k <= ms.len(),
        top_fold(ms.take(k)) is Err,
    ensures
        top_fold(ms) == top_fold(ms.take(k)),
    decreases ms.len() - k,
{
    if k < ms.len() {
        assert(ms.drop_last().take(k) =~= ms.take(k));
        lemma_top_fold_prefix_err(ms.drop_last(), k);
        assert(ms.drop_last() =~= ms.take(ms.len() - 1));
    } else {
        assert(ms.take(k) =~= ms);
    }
}

/// Reads an `.ngj` text: the document and the semantic issues found, or the
/// fatal issue, exactly as `parse_spec` describes.
pub fn parse(input: &str) -> (r: Result<(Document, Vec<Issue>), Issue>)
    ensures
        parse_result_is(r, parse_spec(input@)),
{
    let value = match json::parse(input) {
        Ok(v) => v,
        Err(m) => {
            return Err(Issue::fatal(m));
        },
    };
    let obj = match value.as_object() {
        Some(o) => o,
        None => {
            let mut m: Vec<char> = Vec::new();
            push_str(&mut m, "top-level JSON value must be an object");
            return Err(fatal_of(&m));
        },
    };
    let ghost ms = members_view(obj@);
    proof {
        lemma_members_view_len(obj@);
    }
    let mut doc = Document { start: None, categories: Vec::new() };
    let mut issues: Vec<Issue> = Vec::new();
    assert(doc@ == empty_doc()) by {
        assert(doc@.categories =~= Seq::<CategoryM>::empty());
    }
    assert(issues_view(issues@) =~= Seq::<IssueM>::empty());
    assert(ms.take(0) =~= Seq::<(Seq<char>, JsonM)>::empty());
    let mut i: usize = 0;
    while i < obj.len()
        invariant
            i <= obj.len(),
            ms == members_view(obj@),
            ms.len() == obj.len(),
            parse_spec(input@) == top_fold(ms),
            top_fold(ms.take(i as int)) == Ok::<(DocM, Seq<IssueM>), IssueM>(
                (doc@, issues_view(issues@)),
            ),
        decreases obj.len() - i,
    {
        proof {
            lemma_members_view_index(obj@, i as int);
        }
        assert(ms.take(i + 1).drop_last() =~= ms.take(i as int));
        let key = &obj[i].0;
        let val = &obj[i].1;
        let ghost before = issues_view(issues@);
        if crate::text::str_eq(key.as_str(), "start") {
            match val.as_str() {
                Some(s) => {
                    doc.start = Some(String::from_str(s));
                },
                None => {
                    let mut m: Vec<char> = Vec::new();
                    push_str(&mut m, "\"start\" must be a string; ignoring it");
                    issues.push(semantic_of(&m));
                    assert(issues_view(issues@) =~= before.push(semantic_m(msg_start_not_string())));
                },
            }
        } else if crate::text::str_eq(key.as_str(), "categories") {
            let cats = match val.as_object() {
                Some(c) => c,
                None => {
                    let mut m: Vec<char> = Vec::new();
                    push_str(&mut m, "\"categories\" must be an object");
                    proof {
                        assert(ms.take(i + 1).last() == ms[i as int]);
                        assert(top_fold(ms.take(i + 1)) == Err::<(DocM, Seq<IssueM>), IssueM>(
                            fatal_m(msg_categories_not_object()),
                        ));
                        lemma_top_fold_prefix_err(ms, i + 1);
                    }
                    return Err(fatal_of(&m));
                },
            };
            let ghost st_i = (doc@, issues_view(issues@));
            match read_categories(cats, &mut doc, &mut issues) {
                Ok(()) => {},
                Err(e) => {
                    proof {
                        assert(ms.take(i + 1).last() == ms[i as int]);
                        assert(top_fold(ms.take(i + 1)) == cats_fold(st_i, members_view(cats@)));
                        lemma_top_fold_prefix_err(ms, i + 1);
                    }
                    return Err(e);
                },
            }
        } else {
            let mut m: Vec<char> = Vec::new();
            push_str(&mut m, "unknown top-level key '");
            let kv = chars_of(key.as_str());
            append_chars(&mut m, &kv);
            push_str(&mut m, "' was ignored");
            assert(m@ =~= msg_unknown_key(key@));
            issues.push(semantic_of(&m));
            assert(issues_view(issues@) =~= before.push(semantic_m(msg_unknown_key(key@))));
        }
        i = i + 1;
    }
    assert(ms.take(obj.len() as int) =~= ms);
    Ok((doc, issues))
}


/// The JSON of an entry: a bare string for weight 1, an object with the
/// text and the weight otherwise.
pub open spec fn entry_json(e: EntryM) -> JsonM {
    if e.weight == 1 {
        JsonM::Str(e.text)
    } else {
        JsonM::Object(
            seq![("text"@, JsonM::Str(e.text)), ("weight"@, JsonM::Number(decimal(e.weight as nat)))],
        )
    }
}

pub open spec fn category_json(c: CategoryM) -> (Seq<char>, JsonM) {
    (c.name, JsonM::Array(c.entries.map_values(|e: EntryM| entry_json(e))))
}

/// The JSON of a document: `"start"` when there is one, then `"categories"`.
pub open spec fn doc_json(d: DocM) -> JsonM {
    JsonM::Object(
        match d.start {
            Some(s) => seq![("start"@, JsonM::Str(s))],
            None => Seq::<(Seq<char>, JsonM)>::empty(),
        } + seq![("categories"@, JsonM::Object(d.categories.map_values(|c: CategoryM| category_json(c))))],
    )
}

/// The `.ngj` text of a document.
pub open spec fn write_spec(d: DocM) -> Seq<char> {
    json::write_spec(doc_json(d))
}

fn entry_value(e: &Entry) -> (v: Value)
    ensures
        v@ == entry_json(e@),
{
    if e.weight == 1 {
        Value::String(String::from_str(e.text.as_str()))
    } else {
        let mut digits: Vec<char> = Vec::new();
        push_decimal(&mut digits, e.weight as u64);
        assert(digits@ =~= decimal(e.weight as nat));
        let mut fields: Vec<(String, Value)> = Vec::new();
        fields.push((String::from_str("text"), Value::String(String::from_str(e.text.as_str()))));
        fields.push((String::from_str("weight"), Value::Number(string_of(&digits))));
        proof {
            lemma_members_view_len(fields@);
            lemma_members_view_index(fields@, 0);
            lemma_members_view_index(fields@, 1);
            assert(members_view(fields@) =~= seq![
                ("text"@, JsonM::Str(e.text@)),
                ("weight"@, JsonM::Number(decimal(e.weight as nat))),
            ]);
        }
        Value::Object(fields)
    }
}

/// The JSON value of `doc`, as `doc_json` describes.
fn doc_value(doc: &Document) -> (v: Value)
    ensures
        v@ == doc_json(doc@),
{
    let mut cat_entries: Vec<(String, Value)> = Vec::new();
    let ghost cats = doc@.categories;
    let mut ci: usize = 0;
    assert(members_view(cat_entries@) =~= cats.take(0).map_values(|c: CategoryM| category_json(c)));
    while ci < doc.categories.len()
        invariant
            ci <= doc.categories.len(),
            cats == doc@.categories,
            members_view(cat_entries@) == cats.take(ci as int).map_values(
                |c: CategoryM| category_json(c),
            ),
        decreases doc.categories.len() - ci,
    {
        let entries = &doc.categories[ci].1;
        let ghost es = cats[ci as int].entries;
        assert(es == entries_view(entries@));
        let mut items: Vec<Value> = Vec::new();
        let mut ei: usize = 0;
        assert(values_view(items@) =~= es.take(0).map_values(|e: EntryM| entry_json(e)));
        while ei < entries.len()
            invariant
                ei <= entries.len(),
                es == entries_view(entries@),
                values_view(items@) == es.take(ei as int).map_values(|e: EntryM| entry_json(e)),
            decreases entries.len() - ei,
        {
            let ghost before = items@;
            let v = entry_value(&entries[ei]);
            items.push(v);
            proof {
                assert(items@.subrange(0, items@.len() - 1) =~= before);
                assert(values_view(items@) == values_view(before).push(v@));
                assert(es.take(ei + 1).map_values(|e: EntryM| entry_json(e)) =~= es.take(
                    ei as int,
                ).map_values(|e: EntryM| entry_json(e)).push(entry_json(es[ei as int])));
            }
            ei = ei + 1;
        }
        assert(es.take(entries.len() as int) =~= es);
        let ghost before = cat_entries@;
        let name = String::from_str(doc.categories[ci].0.as_str());
        let arr = Value::Array(items);
        assert(arr@ == JsonM::Array(es.map_values(|e: EntryM| entry_json(e))));
        cat_entries.push((name, arr));
        proof {
            assert(cat_entries@.subrange(0, cat_entries@.len() - 1) =~= before);
            assert(members_view(cat_entries@) == members_view(before).push((name@, arr@)));
            assert(cats.take(ci + 1).map_values(|c: CategoryM| category_json(c)) =~= cats.take(
                ci as int,
            ).map_values(|c: CategoryM| category_json(c)).push(category_json(cats[ci as int])));
        }
        ci = ci + 1;
    }
    assert(cats.take(doc.categories.len() as int) =~= cats);
    let mut top: Vec<(String, Value)> = Vec::new();
    if let Some(start) = &doc.start {
        let ghost empty = top@;
        top.push((String::from_str("start"), Value::String(String::from_str(start.as_str()))));
        proof {
            assert(top@.subrange(0, 0) =~= empty);
            assert(members_view(empty) =~= Seq::<(Seq<char>, JsonM)>::empty());
            lemma_members_view_len(top@);
            lemma_members_view_index(top@, 0);
            assert(members_view(top@) =~= seq![("start"@, JsonM::Str(start@))]);
        }
    } else {
        assert(members_view(top@) =~= Seq::<(Seq<char>, JsonM)>::empty());
    }
    let ghost before = top@;
    let cobj = Value::Object(cat_entries);
    top.push((String::from_str("categories"), cobj));
    proof {
        assert(top@.subrange(0, top@.len() - 1) =~= before);
        assert(members_view(top@) == members_view(before).push(("categories"@, cobj@)));
        assert(members_view(top@) =~= match doc@.start {
            Some(s) => seq![("start"@, JsonM::Str(s))],
            None => Seq::<(Seq<char>, JsonM)>::empty(),
        } + seq![
            ("categories"@, JsonM::Object(cats.map_values(|c: CategoryM| category_json(c)))),
        ]);
    }
    Value::Object(top)
}

/// The `.ngj` text of `doc`, as `write_spec` describes.
pub fn write(doc: &Document) -> (s: String)
    ensures
        s@ == write_spec(doc@),
{
    let v = doc_value(doc);
    json::write(&v)
}


/// Reading the fields of an entry object, the `"text"` and `"weight"` fields
/// do not touch each other: a `"text"` field sets the text (to nothing when it
/// is not a string) and keeps the weight and issues; a valid `"weight"` field
/// sets the weight and keeps the text and issues; an invalid one keeps both and
/// adds one issue.
pub proof fn lemma_fields_independent(fs: Seq<(Seq<char>, JsonM)>, cat: Seq<char>, v: JsonM)
    ensures
        ({
            let before = fields_fold(fs, cat);
            let after = fields_fold(fs.push(("text"@, v)), cat);
            &&& after.0 == (match v {
                JsonM::Str(t) => Some(t),
                _ => None,
            })
            &&& after.1 == before.1
            &&& after.2 == before.2
        }),
        ({
            let before = fields_fold(fs, cat);
            let after = fields_fold(fs.push(("weight"@, v)), cat);
            &&& after.0 == before.0
            &&& match weight_value(v) {
                Some(n) => after.1 == n && after.2 == before.2,
                None => after.1 == before.1 && after.2.len() == before.2.len() + 1,
            }
        }),
{
    reveal_strlit("text");
    reveal_strlit("weight");
    assert("weight"@ != "text"@) by {
        assert("weight"@.len() != "text"@.len());
    }
    assert(fs.push(("text"@, v)).drop_last() =~= fs);
    assert(fs.push(("weight"@, v)).drop_last() =~= fs);
}

/// The entry that an object gives does not depend on the order of its fields:
/// a string `"text"` and a valid `"weight"` give that text with that weight,
/// and no issue, whichever comes first.
pub proof fn lemma_entry_field_order(t: Seq<char>, w: JsonM, cat: Seq<char>)
    requires
        weight_value(w) is Some,
    ensures
        item_entry(JsonM::Object(seq![("text"@, JsonM::Str(t)), ("weight"@, w)]), cat) == item_entry(
            JsonM::Object(seq![("weight"@, w), ("text"@, JsonM::Str(t))]),
            cat,
        ),
        item_entry(JsonM::Object(seq![("text"@, JsonM::Str(t)), ("weight"@, w)]), cat) == (
            seq![EntryM { text: t, weight: weight_value(w)->0 }],
            Seq::<IssueM>::empty(),
        ),
{
    let e = Seq::<(Seq<char>, JsonM)>::empty();
    assert(fields_fold(e, cat) == (None::<Seq<char>>, 1u32, Seq::<IssueM>::empty()));
    lemma_fields_independent(e, cat, JsonM::Str(t));
    lemma_fields_independent(e, cat, w);
    let a = e.push(("text"@, JsonM::Str(t)));
    let b = e.push(("weight"@, w));
    lemma_fields_independent(a, cat, w);
    lemma_fields_independent(b, cat, JsonM::Str(t));
    assert(a.push(("weight"@, w)) =~= seq![("text"@, JsonM::Str(t)), ("weight"@, w)]);
    assert(b.push(("text"@, JsonM::Str(t))) =~= seq![("weight"@, w), ("text"@, JsonM::Str(t))]);
}

} // verus!
