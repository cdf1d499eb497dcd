//! Character-level helpers shared by the parsers and writers: whitespace,
//! trimming, identifiers, decimal numerals and string building.

use vstd::prelude::*;

verus! {

/// Unicode `White_Space`, the property that `char::is_whitespace` reports.
pub open spec fn is_ws(c: char) -> bool {
    let u = c as u32;
    ||| 0x09 <= u <= 0x0d
    ||| u == 0x20
    ||| u == 0x85
    ||| u == 0xa0
    ||| u == 0x1680
    ||| 0x2000 <= u <= 0x200a
    ||| u == 0x2028
    ||| u == 0x2029
    ||| u == 0x202f
    ||| u == 0x205f
    ||| u == 0x3000
}

/// Whether `c` is Unicode white space.
pub fn is_whitespace(c: char) -> (b: bool)
    ensures
        b == is_ws(c),
{
    let u = c as u32;
    (0x09 <= u && u <= 0x0d) || u == 0x20 || u == 0x85 || u == 0xa0 || u == 0x1680 || (0x2000
        <= u && u <= 0x200a) || u == 0x2028 || u == 0x2029 || u == 0x202f || u == 0x205f || u
        == 0x3000
}

pub open spec fn is_digit(c: char) -> bool {
    '0' <= c <= '9'
}


/// The value of a decimal digit character.
pub open spec fn digit_value(c: char) -> nat {
    (c as u32 - '0' as u32) as nat
}

/// The character of a decimal digit `d < 10`.
pub open spec fn digit_char(d: nat) -> char {
    (d + '0' as u32) as char
}

/// What `char::is_alphanumeric` reports of `c` (Unicode `Alphabetic` or `Numeric`).
pub uninterp spec fn alphanumeric(c: char) -> bool;

/// Calls `char::is_alphanumeric`, whose answer comes from the Unicode tables.
/// The contract ties the answer to `alphanumeric(c)` and states what std
/// documents for ASCII: letters and digits are alphanumeric, every other
/// ASCII character (space, punctuation, control characters) is not. Nothing
/// more is stated of characters beyond ASCII.
#[verifier::external_body]
pub(crate) fn is_alphanumeric(c: char) -> (b: bool)
    ensures
        b == alphanumeric(c),
        (c as u32) < 0x80 ==> (b <==> (('a' <= c <= 'z') || ('A' <= c <= 'Z') || ('0' <= c <= '9'))),
{
    c.is_alphanumeric()
}

/// A character allowed in category names and placeholders.
pub open spec fn is_ident_char(c: char) -> bool {
    alphanumeric(c) || c == '_'
}

/// A non-empty run of identifier characters.
pub open spec fn is_ident(s: Seq<char>) -> bool {
    s.len() > 0 && forall|i: int| 0 <= i < s.len() ==> #[trigger] is_ident_char(s[i])
}

/// An ASCII letter, digit or `_`.
pub open spec fn ascii_ident_char(c: char) -> bool {
    ('a' <= c <= 'z') || ('A' <= c <= 'Z') || ('0' <= c <= '9') || c == '_'
}

/// Whether `v[from..to]` is an identifier; for ASCII text, whether it is a
/// non-empty run of ASCII letters, digits and `_`.
pub fn is_ident_range(v: &Vec<char>, from: usize, to: usize) -> (b: bool)
    requires
        from <= to <= v.len(),
    ensures
        b == is_ident(v@.subrange(from as int, to as int)),
        (forall|j: int| from <= j < to ==> (#[trigger] v@[j] as u32) < 0x80) ==> (b <==> (from < to
            && forall|j: int| from <= j < to ==> ascii_ident_char(#[trigger] v@[j]))),
{
    if from == to {
        return false;
    }
    let mut i = from;
    while i < to
        invariant
            from <= i <= to <= v.len(),
            forall|j: int| from <= j < i ==> #[trigger] is_ident_char(v@[j]),
            forall|j: int| from <= j < i && (v@[j] as u32) < 0x80 ==> ascii_ident_char(#[trigger] v@[j]),
        decreases to - i,
    {
        let c = v[i];
        if !(c == '_' || is_alphanumeric(c)) {
            assert(!is_ident_char(v@.subrange(from as int, to as int)[i - from]));
            return false;
        }
        i = i + 1;
    }
    true
}

/// `s` without its leading white space.
pub open spec fn trim_start(s: Seq<char>) -> Seq<char>
    decreases s.len(),
{
    if s.len() > 0 && is_ws(s[0]) {
        trim_start(s.drop_first())
    } else {
        s
    }
}

/// `s` without its trailing white space.
pub open spec fn trim_end(s: Seq<char>) -> Seq<char>
    decreases s.len(),
{
    if s.len() > 0 && is_ws(s.last()) {
        trim_end(s.drop_last())
    } else {
        s
    }
}

/// `s` without leading and trailing white space, as `str::trim` gives it.
pub open spec fn trim(s: Seq<char>) -> Seq<char> {
    trim_end(trim_start(s))
}

/// Whether `s` neither starts nor ends with white space.
pub open spec fn is_trimmed(s: Seq<char>) -> bool {
    s.len() > 0 ==> !is_ws(s[0]) && !is_ws(s.last())
}

/// Dropping the first `k` characters, all white space, does not change `trim_start`.
pub proof fn lemma_trim_start_skip(s: Seq<char>, k: int)
    requires
        0 <= k <= s.len(),
        forall|j: int| 0 <= j < k ==> is_ws(#[trigger] s[j]),
    ensures
        trim_start(s) == trim_start(s.skip(k)),
    decreases k,
{
    if k > 0 {
        assert(s.drop_first().skip(k - 1) =~= s.skip(k));
        lemma_trim_start_skip(s.drop_first(), k - 1);
    } else {
        assert(s.skip(0) =~= s);
    }
}

/// Dropping the last `k` characters, all white space, does not change `trim_end`.
pub proof fn lemma_trim_end_take(s: Seq<char>, k: int)
    requires
        0 <= k <= s.len(),
        forall|j: int| k <= j < s.len() ==> is_ws(#[trigger] s[j]),
    ensures
        trim_end(s) == trim_end(s.take(k)),
    decreases s.len() - k,
{
    if k < s.len() {
        assert(s.drop_last().take(k) =~= s.take(k));
        lemma_trim_end_take(s.drop_last(), k);
    } else {
        assert(s.take(k) =~= s);
    }
}

/// The bounds `(a, b)` of `trim(v[from..to])` inside `v`.
pub fn trim_bounds(v: &Vec<char>, from: usize, to: usize) -> (r: (usize, usize))
    requires
        from <= to <= v.len(),
    ensures
        from <= r.0 <= r.1 <= to,
        v@.subrange(r.0 as int, r.1 as int) == trim(v@.subrange(from as int, to as int)),
{
    let ghost s = v@.subrange(from as int, to as int);
    let mut a = from;
    while a < to && is_whitespace(v[a])
        invariant
            from <= a <= to <= v.len(),
            forall|j: int| from <= j < a ==> is_ws(#[trigger] v@[j]),
        decreases to - a,
    {
        a = a + 1;
    }
    proof {
        assert forall|j: int| 0 <= j < a - from implies is_ws(#[trigger] s[j]) by {
            assert(s[j] == v@[from + j]);
        }
        lemma_trim_start_skip(s, a - from);
        assert(s.skip(a - from) =~= v@.subrange(a as int, to as int));
    }
    let ghost t = v@.subrange(a as int, to as int);
    let mut b = to;
    while b > a && is_whitespace(v[b - 1])
        invariant
            from <= a <= b <= to <= v.len(),
            forall|j: int| b <= j < to ==> is_ws(#[trigger] v@[j]),
        decreases b - a,
    {
        b = b - 1;
    }
    proof {
        assert forall|j: int| b - a <= j < t.len() implies is_ws(#[trigger] t[j]) by {
            assert(t[j] == v@[a + j]);
        }
        lemma_trim_end_take(t, b - a);
        assert(t.take(b - a) =~= v@.subrange(a as int, b as int));
        if b > a {
            assert(v@.subrange(a as int, b as int).last() == v@[b - 1]);
        } else {
            assert(t.take(0).len() == 0);
        }
    }
    (a, b)
}

/// A copy of `v[from..to]`.
pub fn slice_chars(v: &Vec<char>, from: usize, to: usize) -> (r: Vec<char>)
    requires
        from <= to <= v.len(),
    ensures
        r@ == v@.subrange(from as int, to as int),
{
    let mut r: Vec<char> = Vec::new();
    let mut i = from;
    while i < to
        invariant
            from <= i <= to <= v.len(),
            r@ == v@.subrange(from as int, i as int),
        decreases to - i,
    {
        r.push(v[i]);
        i = i + 1;
        assert(r@ =~= v@.subrange(from as int, i as int));
    }
    r
}

/// Appends `src` to `out`.
pub fn append_chars(out: &mut Vec<char>, src: &Vec<char>)
    ensures
        final(out)@ == old(out)@ + src@,
{
    let mut i: usize = 0;
    while i < src.len()
        invariant
            i <= src.len(),
            out@ == old(out)@ + src@.take(i as int),
        decreases src.len() - i,
    {
        out.push(src[i]);
        i = i + 1;
        assert(out@ =~= old(out)@ + src@.take(i as int));
    }
    assert(src@.take(src.len() as int) =~= src@);
}

/// The decimal numeral of `n`, without leading zeros.
pub open spec fn decimal(n: nat) -> Seq<char>
    decreases n,
{
    if n < 10 {
        seq![digit_char(n)]
    } else {
        decimal(n / 10).push(digit_char(n % 10))
    }
}

/// Appends the decimal numeral of `n` to `out`.
pub fn push_decimal(out: &mut Vec<char>, n: u64)
    ensures
        final(out)@ == old(out)@ + decimal(n as nat),
    decreases n,
{
    if n >= 10 {
        push_decimal(out, n / 10);
    }
    let d = (n % 10) as u32;
    let c = char_of_digit(d);
    out.push(c);
    assert(out@ =~= old(out)@ + decimal(n as nat));
}

fn char_of_digit(d: u32) -> (c: char)
    requires
        d < 10,
    ensures
        c == digit_char(d as nat),
{
    match d {
        0 => '0',
        1 => '1',
        2 => '2',
        3 => '3',
        4 => '4',
        5 => '5',
        6 => '6',
        7 => '7',
        8 => '8',
        _ => '9',
    }
}

/// Appends `c` to `s` with `String::push`.
#[verifier::external_body]
fn string_push(s: &mut String, c: char)
    ensures
        final(s)@ == old(s)@.push(c),
{
    s.push(c);
}

/// A `String` holding the characters of `v`.
pub fn string_of(v: &Vec<char>) -> (s: String)
    ensures
        s@ == v@,
{
    let mut s = String::new();
    let mut i: usize = 0;
    while i < v.len()
        invariant
            i <= v.len(),
            s@ == v@.take(i as int),
        decreases v.len() - i,
    {
        string_push(&mut s, v[i]);
        i = i + 1;
        assert(s@ =~= v@.take(i as int));
    }
    assert(v@.take(v.len() as int) =~= v@);
    s
}

/// The characters of `s`.
pub fn chars_of(s: &str) -> (v: Vec<char>)
    ensures
        v@ == s@,
{
    let mut v: Vec<char> = Vec::new();
    for c in it: s.chars()
        invariant
            v@ == it.seq().take(it.index()),
    {
        v.push(c);
    }
    v
}

/// Appends the characters of `s` to `out`.
pub fn push_str(out: &mut Vec<char>, s: &str)
    ensures
        final(out)@ == old(out)@ + s@,
{
    let v = chars_of(s);
    append_chars(out, &v);
}


/// Whether two character vectors hold the same characters.
pub fn chars_eq(a: &Vec<char>, b: &Vec<char>) -> (r: bool)
    ensures
        r == (a@ == b@),
{
    if a.len() != b.len() {
        return false;
    }
    let mut i: usize = 0;
    while i < a.len()
        invariant
            a.len() == b.len(),
            i <= a.len(),
            forall|j: int| 0 <= j < i ==> a@[j] == b@[j],
        decreases a.len() - i,
    {
        if a[i] != b[i] {
            return false;
        }
        i = i + 1;
    }
    assert(a@ =~= b@);
    true
}

/// Whether two string slices hold the same characters.
pub fn str_eq(a: &str, b: &str) -> (r: bool)
    ensures
        r == (a@ == b@),
{
    let x = chars_of(a);
    let y = chars_of(b);
    chars_eq(&x, &y)
}

/// The first index `j >= from` with `s[j] == c`.
pub open spec fn find_char(s: Seq<char>, c: char, from: int) -> Option<int>
    decreases s.len() - from,
{
    if from < 0 || from >= s.len() {
        None
    } else if s[from] == c {
        Some(from)
    } else {
        find_char(s, c, from + 1)
    }
}

pub proof fn lemma_find_char_bounds(s: Seq<char>, c: char, from: int)
    ensures
        find_char(s, c, from) matches Some(j) ==> from <= j < s.len() && s[j] == c && forall|
            k: int,
        | from <= k < j ==> s[k] != c,
        find_char(s, c, from) is None ==> forall|k: int| 0 <= from <= k < s.len() ==> s[k] != c,
    decreases s.len() - from,
{
    if 0 <= from < s.len() && s[from] != c {
        lemma_find_char_bounds(s, c, from + 1);
    }
}

/// The first index `j >= from` in `v` holding `c`, as `find_char` describes it.
pub fn find_char_from(v: &Vec<char>, c: char, from: usize) -> (r: Option<usize>)
    requires
        from <= v.len(),
    ensures
        r matches Some(j) ==> find_char(v@, c, from as int) == Some(j as int),
        r is None ==> find_char(v@, c, from as int) is None,
{
    let mut i = from;
    while i < v.len()
        invariant
            from <= i <= v.len(),
            find_char(v@, c, from as int) == find_char(v@, c, i as int),
        decreases v.len() - i,
    {
        if v[i] == c {
            return Some(i);
        }
        i = i + 1;
    }
    None
}


/// `s` cut at every `c`, as `str::split(c)` cuts it (an empty `s` gives one
/// empty piece).
pub open spec fn split_on(s: Seq<char>, c: char) -> Seq<Seq<char>>
    decreases s.len(),
{
    match find_char(s, c, 0) {
        Some(j) => if 0 <= j < s.len() {
            seq![s.take(j)] + split_on(s.skip(j + 1), c)
        } else {
            seq![s]
        },
        None => seq![s],
    }
}

/// Searching a suffix of `s` finds what searching `s` from the suffix's start finds.
pub proof fn lemma_find_char_skip(s: Seq<char>, c: char, p: int)
    requires
        0 <= p <= s.len(),
    ensures
        find_char(s.skip(p), c, 0) == match find_char(s, c, p) {
            Some(j) => Some(j - p),
            None => None::<int>,
        },
{
    lemma_find_char_bounds(s, c, p);
    lemma_find_char_bounds(s.skip(p), c, 0);
    match find_char(s, c, p) {
        Some(j) => {
            assert(s.skip(p)[j - p] == c);
            match find_char(s.skip(p), c, 0) {
                Some(k) => {
                    if k < j - p {
                        assert(s[p + k] == c);
                    }
                    if k > j - p {
                        assert(s.skip(p)[j - p] != c);
                    }
                },
                None => {},
            }
        },
        None => {
            match find_char(s.skip(p), c, 0) {
                Some(k) => {
                    assert(s[p + k] == c);
                },
                None => {},
            }
        },
    }
}

/// Unfolds `split_on` at position `p` of `s` when a separator follows.
pub proof fn lemma_split_step(s: Seq<char>, c: char, p: int, j: int)
    requires
        0 <= p <= s.len(),
        find_char(s, c, p) == Some(j),
    ensures
        p <= j < s.len(),
        split_on(s.skip(p), c) == seq![s.subrange(p, j)] + split_on(s.skip(j + 1), c),
{
    lemma_find_char_bounds(s, c, p);
    lemma_find_char_skip(s, c, p);
    assert(s.skip(p).take(j - p) =~= s.subrange(p, j));
    assert(s.skip(p).skip(j - p + 1) =~= s.skip(j + 1));
}

/// Unfolds `split_on` at position `p` of `s` when no separator follows.
pub proof fn lemma_split_last(s: Seq<char>, c: char, p: int)
    requires
        0 <= p <= s.len(),
        find_char(s, c, p) is None,
    ensures
        split_on(s.skip(p), c) == seq![s.subrange(p, s.len() as int)],
{
    lemma_find_char_skip(s, c, p);
    assert(s.skip(p) =~= s.subrange(p, s.len() as int));
}

/// The last index of `c` in `s`.
pub open spec fn rfind_char(s: Seq<char>, c: char) -> Option<int>
    decreases s.len(),
{
    if s.len() == 0 {
        None
    } else if s.last() == c {
        Some(s.len() - 1)
    } else {
        rfind_char(s.drop_last(), c)
    }
}

pub proof fn lemma_rfind_char_bounds(s: Seq<char>, c: char)
    ensures
        rfind_char(s, c) matches Some(j) ==> 0 <= j < s.len() && s[j] == c && forall|k: int|
            j < k < s.len() ==> s[k] != c,
        rfind_char(s, c) is None ==> forall|k: int| 0 <= k < s.len() ==> s[k] != c,
    decreases s.len(),
{
    if s.len() > 0 && s.last() != c {
        lemma_rfind_char_bounds(s.drop_last(), c);
        assert forall|k: int| 0 <= k < s.len() - 1 implies s.drop_last()[k] == s[k] by {}
    }
}

/// The last index of `c` in `v`.
pub fn rfind_char_in(v: &Vec<char>, c: char) -> (r: Option<usize>)
    ensures
        r matches Some(j) ==> rfind_char(v@, c) == Some(j as int),
        r is None ==> rfind_char(v@, c) is None,
{
    let mut i = v.len();
    assert(v@.take(i as int) =~= v@);
    while i > 0
        invariant
            i <= v.len(),
            rfind_char(v@, c) == rfind_char(v@.take(i as int), c),
        decreases i,
    {
        assert(v@.take(i as int).drop_last() =~= v@.take(i - 1));
        if v[i - 1] == c {
            return Some(i - 1);
        }
        i = i - 1;
    }
    None
}

/// Whether every character of `s` is a decimal digit.
pub open spec fn all_digits(s: Seq<char>) -> bool {
    forall|i: int| 0 <= i < s.len() ==> #[trigger] is_digit(s[i])
}

/// The number that a run of decimal digits denotes.
pub open spec fn digits_value(s: Seq<char>) -> nat
    decreases s.len(),
{
    if s.len() == 0 {
        0
    } else {
        digits_value(s.drop_last()) * 10 + digit_value(s.last())
    }
}

/// A longer run of digits denotes at least as much as its prefix.
pub proof fn lemma_digits_value_prefix(s: Seq<char>, i: int)
    requires
        0 <= i <= s.len(),
    ensures
        digits_value(s.take(i)) <= digits_value(s),
    decreases s.len() - i,
{
    if i < s.len() {
        assert(s.drop_last().take(i) =~= s.take(i));
        lemma_digits_value_prefix(s.drop_last(), i);
        assert(s.drop_last() =~= s.take(s.len() - 1));
    } else {
        assert(s.take(i) =~= s);
    }
}

/// The value of the digits `v[from..to]`, as `u32` parsing gives it: `None` when
/// the run is empty, holds another character, or exceeds `u32::MAX`.
pub fn parse_u32_digits(v: &Vec<char>, from: usize, to: usize) -> (r: Option<u32>)
    requires
        from <= to <= v.len(),
    ensures
        ({
            let s = v@.subrange(from as int, to as int);
            r matches Some(n) ==> s.len() > 0 && all_digits(s) && n == digits_value(s)
        }),
        ({
            let s = v@.subrange(from as int, to as int);
            r is None ==> s.len() == 0 || !all_digits(s) || digits_value(s) > u32::MAX
        }),
{
    let ghost s = v@.subrange(from as int, to as int);
    if from == to {
        return None;
    }
    let mut acc: u64 = 0;
    let mut i = from;
    assert(s.take(0) =~= Seq::<char>::empty());
    while i < to
        invariant
            from <= i <= to <= v.len(),
            s == v@.subrange(from as int, to as int),
            all_digits(s.take(i - from)),
            acc == digits_value(s.take(i - from)),
            acc <= u32::MAX,
        decreases to - i,
    {
        let c = v[i];
        assert(s.take(i - from + 1).drop_last() =~= s.take(i - from));
        if !('0' <= c && c <= '9') {
            assert(!is_digit(s[i - from]));
            return None;
        }
        let d = (c as u32 - '0' as u32) as u64;
        assert(s.take(i - from + 1).last() == c);
        acc = acc * 10 + d;
        i = i + 1;
        assert(acc == digits_value(s.take(i - from)));
        assert(all_digits(s.take(i - from)));
        if acc > 0xffff_ffff {
            proof {
                lemma_digits_value_prefix(s, i - from);
            }
            return None;
        }
    }
    assert(s.take(i - from) =~= s);
    Some(acc as u32)
}


/// A trimmed text is its own trim.
pub proof fn lemma_trim_trimmed(s: Seq<char>)
    requires
        is_trimmed(s),
    ensures
        trim(s) == s,
{
    if s.len() > 0 {
        assert(trim_start(s) == s);
        assert(trim_end(s) == s);
    }
}

/// Leading white space does not change the trim.
pub proof fn lemma_trim_ws_prefix(w: Seq<char>, s: Seq<char>)
    requires
        forall|i: int| 0 <= i < w.len() ==> is_ws(#[trigger] w[i]),
    ensures
        trim(w + s) == trim(s),
{
    let t = w + s;
    assert forall|j: int| 0 <= j < w.len() implies is_ws(#[trigger] t[j]) by {
        assert(t[j] == w[j]);
    }
    lemma_trim_start_skip(t, w.len() as int);
    assert(t.skip(w.len() as int) =~= s);
}

/// Trailing white space does not change the trim.
pub proof fn lemma_trim_ws_suffix(s: Seq<char>, w: Seq<char>)
    requires
        forall|i: int| 0 <= i < w.len() ==> is_ws(#[trigger] w[i]),
        s.len() > 0 && !is_ws(s[0]),
    ensures
        trim(s + w) == trim_end(s),
{
    let t = s + w;
    assert(trim_start(t) == t);
    assert forall|j: int| s.len() <= j < t.len() implies is_ws(#[trigger] t[j]) by {
        assert(t[j] == w[j - s.len()]);
    }
    lemma_trim_end_take(t, s.len() as int);
    assert(t.take(s.len() as int) =~= s);
}

/// `split_on` of a text with a separator after a first piece free of it.
pub proof fn lemma_split_front(x: Seq<char>, c: char, y: Seq<char>)
    requires
        !x.contains(c),
    ensures
        split_on(x + seq![c] + y, c) == seq![x] + split_on(y, c),
{
    let s = x + seq![c] + y;
    lemma_find_char_bounds(s, c, 0);
    assert(s[x.len() as int] == c);
    match find_char(s, c, 0) {
        Some(j) => {
            if j < x.len() {
                assert(s[j] == x[j]);
                assert(x.contains(c));
            }
        },
        None => {},
    }
    assert(s.take(x.len() as int) =~= x);
    assert(s.skip(x.len() as int + 1) =~= y);
}

/// `split_on` of a text free of the separator.
pub proof fn lemma_split_none(x: Seq<char>, c: char)
    requires
        !x.contains(c),
    ensures
        split_on(x, c) == seq![x],
{
    lemma_find_char_bounds(x, c, 0);
    match find_char(x, c, 0) {
        Some(j) => {
            assert(x.contains(c));
        },
        None => {},
    }
}

/// The digit character of `m < 10` is a digit whose value is `m`.
pub proof fn lemma_digit_char(m: nat)
    requires
        m < 10,
    ensures
        is_digit(digit_char(m)),
        digit_value(digit_char(m)) == m,
{
    let c = digit_char(m);
    assert(c as u32 == m + 48);
}

/// Every character of a decimal numeral is a digit, and its value is the number.
pub proof fn lemma_decimal(n: nat)
    ensures
        decimal(n).len() > 0,
        all_digits(decimal(n)),
        digits_value(decimal(n)) == n,
        forall|i: int| 0 <= i < decimal(n).len() ==> is_digit(#[trigger] decimal(n)[i]),
    decreases n,
{
    if n >= 10 {
        lemma_decimal(n / 10);
        lemma_digit_char(n % 10);
        let d = decimal(n);
        assert(d.drop_last() =~= decimal(n / 10));
        assert(d.last() == digit_char(n % 10));
        assert(digits_value(d) == digits_value(decimal(n / 10)) * 10 + digit_value(d.last()));
        assert(n / 10 * 10 + n % 10 == n) by (nonlinear_arith);
        assert forall|i: int| 0 <= i < d.len() implies is_digit(#[trigger] d[i]) by {
            if i < d.len() - 1 {
                assert(d[i] == decimal(n / 10)[i]);
            }
        }
    } else {
        lemma_digit_char(n);
        let d = decimal(n);
        assert(d.drop_last() =~= Seq::<char>::empty());
        assert(digits_value(d) == digits_value(d.drop_last()) * 10 + digit_value(d.last()));
    }
}

} // verus!
