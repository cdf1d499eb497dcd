//! What the text format promises: a document written as `.ngt` reads back as
//! the same document, for every document that the format can hold.

use vstd::prelude::*;
use crate::model::{
    add_category_spec, has_name, lemma_find_category, CategoryM, DocM, EntryM, IssueM, Severity,
};
use crate::ngt::{
    category_line, category_lines, entries_of, escape_hashes, join_entries, parse_entry_spec,
    parse_line_spec, parse_lines_spec, parse_spec, render_entry, start_directive,
    strip_comment_spec, write_spec, empty_doc,
};
use crate::text::{
    all_digits, decimal, digits_value, find_char, is_digit, is_ident, is_trimmed, is_ws,
    lemma_decimal, lemma_find_char_bounds, lemma_rfind_char_bounds, lemma_split_front,
    lemma_split_none, lemma_trim_trimmed, lemma_trim_ws_prefix, lemma_trim_ws_suffix, rfind_char,
    split_on, trim, trim_end,
};

verus! {

/// Whether `t` ends in `:<digits>` that reading would take for a weight.
pub open spec fn has_weight_suffix(t: Seq<char>) -> bool {
    match rfind_char(t, ':') {
        Some(i) => {
            let w = t.skip(i + 1);
            i > 0 && w.len() > 0 && all_digits(w) && 1 <= digits_value(w) <= u32::MAX
        },
        None => false,
    }
}

/// An entry that a category line holds unchanged: non-empty text without
/// surrounding white space, commas or line breaks, a weight of at least 1,
/// and, for weight 1, no text that reads as a weight suffix.
pub open spec fn ngt_entry_ok(e: EntryM) -> bool {
    &&& e.text.len() > 0
    &&& is_trimmed(e.text)
    &&& !e.text.contains(',')
    &&& !e.text.contains('\n')
    &&& e.weight >= 1
    &&& e.weight == 1 ==> !has_weight_suffix(e.text)
}

/// A character that a written category name may hold.
pub open spec fn name_char_ok(c: char) -> bool {
    !is_ws(c) && c != '=' && c != '#' && c != '!'
}

/// A category name that the format writes and reads back.
pub open spec fn ngt_name_ok(n: Seq<char>) -> bool {
    is_ident(n) && forall|i: int| 0 <= i < n.len() ==> name_char_ok(#[trigger] n[i])
}

/// A start category that the `!start` line holds unchanged.
pub open spec fn ngt_start_ok(s: Seq<char>) -> bool {
    s.len() > 0 && is_trimmed(s) && !s.contains('#') && !s.contains('\n')
}

/// A document that the text format can hold: its start, names and entries
/// survive being written, and no two categories share a name.
pub open spec fn ngt_representable(d: DocM) -> bool {
    &&& d.start matches Some(s) ==> ngt_start_ok(s)
    &&& forall|i: int| 0 <= i < d.categories.len() ==> ngt_name_ok(#[trigger] d.categories[i].name)
    &&& forall|i: int, j: int|
        0 <= i < j < d.categories.len() ==> #[trigger] d.categories[i].name
            != #[trigger] d.categories[j].name
    &&& forall|i: int, k: int|
        0 <= i < d.categories.len() && 0 <= k < d.categories[i].entries.len() ==> ngt_entry_ok(
            #[trigger] d.categories[i].entries[k],
        )
}

/// An entry as a category line shows it, before `#` is escaped.
pub open spec fn plain_entry(e: EntryM) -> Seq<char> {
    if e.weight == 1 {
        e.text
    } else {
        e.text + seq![':'] + decimal(e.weight as nat)
    }
}

/// Entries joined by `, `, before `#` is escaped.
pub open spec fn plain_join(es: Seq<EntryM>) -> Seq<char>
    decreases es.len(),
{
    if es.len() == 0 {
        seq![]
    } else if es.len() == 1 {
        plain_entry(es[0])
    } else {
        plain_join(es.drop_last()) + seq![',', ' '] + plain_entry(es.last())
    }
}

proof fn lemma_escape_concat(x: Seq<char>, y: Seq<char>)
    ensures
        escape_hashes(x + y) == escape_hashes(x) + escape_hashes(y),
    decreases y.len(),
{
    if y.len() == 0 {
        assert(x + y =~= x);
        assert(escape_hashes(x) + escape_hashes(y) =~= escape_hashes(x));
    } else {
        assert((x + y).drop_last() =~= x + y.drop_last());
        lemma_escape_concat(x, y.drop_last());
        assert(escape_hashes(x) + escape_hashes(y) =~= escape_hashes(x) + escape_hashes(y.drop_last())
            + if y.last() == '#' {
            seq!['\\', '#']
        } else {
            seq![y.last()]
        });
    }
}

proof fn lemma_escape_plain(x: Seq<char>)
    requires
        !x.contains('#'),
    ensures
        escape_hashes(x) == x,
    decreases x.len(),
{
    if x.len() > 0 {
        assert(!x.drop_last().contains('#')) by {
            if x.drop_last().contains('#') {
                let k = choose|k: int| 0 <= k < x.drop_last().len() && x.drop_last()[k] == '#';
                assert(x[k] == '#');
            }
        }
        lemma_escape_plain(x.drop_last());
        assert(x.last() != '#') by {
            assert(x[x.len() - 1] == x.last());
        }
        assert(x.drop_last() + seq![x.last()] =~= x);
    }
}

proof fn lemma_escape_first(x: Seq<char>)
    requires
        escape_hashes(x).len() > 0,
    ensures
        escape_hashes(x)[0] != '#',
    decreases x.len(),
{
    if x.len() > 0 {
        if escape_hashes(x.drop_last()).len() > 0 {
            lemma_escape_first(x.drop_last());
        }
    }
}

proof fn lemma_escape_cons(c: char, r: Seq<char>)
    ensures
        escape_hashes(seq![c] + r) == (if c == '#' {
            seq!['\\', '#']
        } else {
            seq![c]
        }) + escape_hashes(r),
{
    lemma_escape_concat(seq![c], r);
    assert(seq![c].drop_last() =~= Seq::<char>::empty());
    assert(escape_hashes(Seq::<char>::empty()) =~= Seq::<char>::empty());
    assert(escape_hashes(seq![c]) =~= (if c == '#' {
        seq!['\\', '#']
    } else {
        seq![c]
    }));
}

/// Comment stripping undoes `#` escaping.
proof fn lemma_strip_escaped(x: Seq<char>)
    ensures
        strip_comment_spec(escape_hashes(x)) == x,
    decreases x.len(),
{
    if x.len() == 0 {
    } else {
        let c = x[0];
        let r = x.drop_first();
        assert(seq![c] + r =~= x);
        lemma_escape_cons(c, r);
        lemma_strip_escaped(r);
        let er = escape_hashes(r);
        let s = escape_hashes(x);
        if c == '#' {
            assert(s.skip(2) =~= er);
        } else {
            if er.len() > 0 {
                lemma_escape_first(r);
            }
            assert(s.drop_first() =~= er);
            if s.len() >= 2 {
                assert(s[1] == er[0]);
            }
        }
        assert(seq![c] + r =~= x);
    }
}

/// The decimal numeral of a number holds neither `:` nor `,` nor `#` nor white space.
proof fn lemma_decimal_chars(n: nat)
    ensures
        !decimal(n).contains(':'),
        !decimal(n).contains(','),
        !decimal(n).contains('#'),
        !decimal(n).contains('\n'),
        forall|i: int| 0 <= i < decimal(n).len() ==> !is_ws(#[trigger] decimal(n)[i]),
{
    lemma_decimal(n);
    assert forall|i: int| 0 <= i < decimal(n).len() implies !is_ws(#[trigger] decimal(n)[i]) by {
        assert(is_digit(decimal(n)[i]));
    }
    if decimal(n).contains(':') {
        let k = choose|k: int| 0 <= k < decimal(n).len() && decimal(n)[k] == ':';
        assert(is_digit(decimal(n)[k]));
    }
    if decimal(n).contains(',') {
        let k = choose|k: int| 0 <= k < decimal(n).len() && decimal(n)[k] == ',';
        assert(is_digit(decimal(n)[k]));
    }
    if decimal(n).contains('#') {
        let k = choose|k: int| 0 <= k < decimal(n).len() && decimal(n)[k] == '#';
        assert(is_digit(decimal(n)[k]));
    }
    if decimal(n).contains('\n') {
        let k = choose|k: int| 0 <= k < decimal(n).len() && decimal(n)[k] == '\n';
        assert(is_digit(decimal(n)[k]));
    }
}

proof fn lemma_rfind_split(x: Seq<char>, c: char, y: Seq<char>)
    requires
        !y.contains(c),
    ensures
        rfind_char(x + seq![c] + y, c) == Some(x.len() as int),
{
    let s = x + seq![c] + y;
    lemma_rfind_char_bounds(s, c);
    assert(s[x.len() as int] == c);
    match rfind_char(s, c) {
        Some(j) => {
            if j > x.len() {
                assert(y[j - x.len() - 1] == c);
                assert(y.contains(c));
            }
        },
        None => {},
    }
}

/// Reading an entry back gives the entry.
proof fn lemma_parse_plain_entry(e: EntryM)
    requires
        ngt_entry_ok(e),
    ensures
        parse_entry_spec(plain_entry(e)) == e,
{
    lemma_trim_trimmed(e.text);
    if e.weight == 1 {
        assert(plain_entry(e) == e.text);
        match rfind_char(e.text, ':') {
            Some(i) => {
                assert(!has_weight_suffix(e.text));
                assert(e.text.take(i).len() == i) by {
                    lemma_rfind_char_bounds(e.text, ':');
                }
            },
            None => {},
        }
    } else {
        let w = decimal(e.weight as nat);
        lemma_decimal(e.weight as nat);
        lemma_decimal_chars(e.weight as nat);
        lemma_rfind_split(e.text, ':', w);
        let raw = plain_entry(e);
        assert(raw.take(e.text.len() as int) =~= e.text);
        assert(raw.skip(e.text.len() as int + 1) =~= w);
        assert(digits_value(w) == e.weight);
        assert(parse_entry_spec(raw) == EntryM { text: trim(e.text), weight: digits_value(w) as u32 });
    }
}


proof fn lemma_render_escape(e: EntryM)
    ensures
        render_entry(e) == escape_hashes(plain_entry(e)),
{
    if e.weight != 1 {
        lemma_decimal_chars(e.weight as nat);
        lemma_escape_concat(e.text + seq![':'], decimal(e.weight as nat));
        lemma_escape_concat(e.text, seq![':']);
        lemma_escape_plain(seq![':']);
        lemma_escape_plain(decimal(e.weight as nat));
    }
}

proof fn lemma_join_escape(es: Seq<EntryM>)
    ensures
        join_entries(es) == escape_hashes(plain_join(es)),
    decreases es.len(),
{
    if es.len() == 1 {
        lemma_render_escape(es[0]);
    } else if es.len() > 1 {
        lemma_join_escape(es.drop_last());
        lemma_render_escape(es.last());
        lemma_escape_concat(plain_join(es.drop_last()) + seq![',', ' '], plain_entry(es.last()));
        lemma_escape_concat(plain_join(es.drop_last()), seq![',', ' ']);
        assert(!seq![',', ' '].contains('#')) by {
            if seq![',', ' '].contains('#') {
                let k = choose|k: int| 0 <= k < 2 && seq![',', ' '][k] == '#';
            }
        }
        lemma_escape_plain(seq![',', ' ']);
    }
}

pub open spec fn all_entries_ok(es: Seq<EntryM>) -> bool {
    forall|k: int| 0 <= k < es.len() ==> ngt_entry_ok(#[trigger] es[k])
}

proof fn lemma_plain_entry_shape(e: EntryM)
    requires
        ngt_entry_ok(e),
    ensures
        plain_entry(e).len() > 0,
        plain_entry(e)[0] == e.text[0],
        is_trimmed(plain_entry(e)),
        !plain_entry(e).contains(','),
        !plain_entry(e).contains('\n'),
{
    let p = plain_entry(e);
    if e.weight != 1 {
        lemma_decimal(e.weight as nat);
        lemma_decimal_chars(e.weight as nat);
        let w = decimal(e.weight as nat);
        assert(p.last() == w.last());
        assert(!is_ws(w[w.len() - 1]));
        if p.contains(',') {
            let k = choose|k: int| 0 <= k < p.len() && p[k] == ',';
            if k < e.text.len() {
                assert(e.text.contains(','));
            } else if k > e.text.len() {
                assert(w[k - e.text.len() - 1] == ',');
                assert(w.contains(','));
            }
        }
        if p.contains('\n') {
            let k = choose|k: int| 0 <= k < p.len() && p[k] == '\n';
            if k < e.text.len() {
                assert(e.text.contains('\n'));
            } else if k > e.text.len() {
                assert(w[k - e.text.len() - 1] == '\n');
                assert(w.contains('\n'));
            }
        }
    }
}

/// The joined entries are trimmed, non-empty for non-empty lists, and free of line breaks.
proof fn lemma_plain_join_shape(es: Seq<EntryM>)
    requires
        all_entries_ok(es),
    ensures
        es.len() > 0 ==> plain_join(es).len() > 0 && plain_join(es)[0] == es[0].text[0],
        es.len() == 0 ==> plain_join(es).len() == 0,
        is_trimmed(plain_join(es)),
        !plain_join(es).contains('\n'),
    decreases es.len(),
{
    if es.len() == 1 {
        lemma_plain_entry_shape(es[0]);
    } else if es.len() > 1 {
        let init = es.drop_last();
        assert forall|k: int| 0 <= k < init.len() implies ngt_entry_ok(#[trigger] init[k]) by {
            assert(init[k] == es[k]);
        }
        lemma_plain_join_shape(init);
        lemma_plain_entry_shape(es.last());
        let a = plain_join(init);
        let b = plain_entry(es.last());
        let j = a + seq![',', ' '] + b;
        assert(j[0] == a[0]);
        assert(j.last() == b.last());
        if j.contains('\n') {
            let k = choose|k: int| 0 <= k < j.len() && j[k] == '\n';
            if k < a.len() {
                assert(a[k] == '\n');
                assert(a.contains('\n'));
            } else if k >= a.len() + 2 {
                assert(b[k - a.len() - 2] == '\n');
                assert(b.contains('\n'));
            }
        }
    }
}

/// The pieces that splitting a category line at its commas gives.
pub open spec fn plain_pieces(es: Seq<EntryM>) -> Seq<Seq<char>> {
    Seq::new(
        es.len(),
        |i: int|
            if i == 0 {
                plain_entry(es[0])
            } else {
                seq![' '] + plain_entry(es[i])
            },
    )
}

/// Pieces joined by `c`.
pub open spec fn join_front(ps: Seq<Seq<char>>, c: char) -> Seq<char>
    decreases ps.len(),
{
    if ps.len() == 0 {
        seq![]
    } else if ps.len() == 1 {
        ps[0]
    } else {
        ps[0] + seq![c] + join_front(ps.drop_first(), c)
    }
}

proof fn lemma_join_front_push(ps: Seq<Seq<char>>, c: char, x: Seq<char>)
    requires
        ps.len() > 0,
    ensures
        join_front(ps.push(x), c) == join_front(ps, c) + seq![c] + x,
    decreases ps.len(),
{
    assert(ps.push(x)[0] == ps[0]);
    if ps.len() > 1 {
        lemma_join_front_push(ps.drop_first(), c, x);
        assert(ps.push(x).drop_first() =~= ps.drop_first().push(x));
        assert(ps[0] + seq![c] + (join_front(ps.drop_first(), c) + seq![c] + x) =~= ps[0] + seq![c]
            + join_front(ps.drop_first(), c) + seq![c] + x);
    } else {
        assert(ps.push(x).drop_first() =~= seq![x]);
        assert(join_front(seq![x], c) == x);
    }
}

proof fn lemma_plain_join_pieces(es: Seq<EntryM>)
    requires
        es.len() > 0,
    ensures
        plain_join(es) == join_front(plain_pieces(es), ','),
    decreases es.len(),
{
    if es.len() > 1 {
        let init = es.drop_last();
        lemma_plain_join_pieces(init);
        assert(plain_pieces(es) =~= plain_pieces(init).push(seq![' '] + plain_entry(es.last())));
        lemma_join_front_push(plain_pieces(init), ',', seq![' '] + plain_entry(es.last()));
        assert(plain_join(init) + seq![',', ' '] + plain_entry(es.last()) =~= plain_join(init) + seq![','] + (
        seq![' '] + plain_entry(es.last())));
    }
}

proof fn lemma_split_join_front(ps: Seq<Seq<char>>, c: char)
    requires
        ps.len() > 0,
        forall|i: int| 0 <= i < ps.len() ==> !(#[trigger] ps[i]).contains(c),
    ensures
        split_on(join_front(ps, c), c) == ps,
    decreases ps.len(),
{
    if ps.len() == 1 {
        lemma_split_none(ps[0], c);
        assert(seq![ps[0]] =~= ps);
    } else {
        let r = ps.drop_first();
        assert forall|i: int| 0 <= i < r.len() implies !(#[trigger] r[i]).contains(c) by {
            assert(r[i] == ps[i + 1]);
        }
        lemma_split_join_front(r, c);
        lemma_split_front(ps[0], c, join_front(r, c));
        assert(seq![ps[0]] + r =~= ps);
    }
}

proof fn lemma_entries_of_pieces(es: Seq<EntryM>, k: int)
    requires
        all_entries_ok(es),
        0 <= k <= es.len(),
    ensures
        entries_of(plain_pieces(es).take(k)) == es.take(k),
    decreases k,
{
    let ps = plain_pieces(es);
    if k == 0 {
        assert(ps.take(0) =~= Seq::<Seq<char>>::empty());
        assert(es.take(0) =~= Seq::<EntryM>::empty());
    } else {
        lemma_entries_of_pieces(es, k - 1);
        assert(ps.take(k).drop_last() =~= ps.take(k - 1));
        let e = es[k - 1];
        assert(ngt_entry_ok(e));
        lemma_plain_entry_shape(e);
        lemma_trim_trimmed(plain_entry(e));
        if k - 1 > 0 {
            assert(ps.take(k).last() == seq![' '] + plain_entry(e));
            assert(is_ws(seq![' '][0]));
            lemma_trim_ws_prefix(seq![' '], plain_entry(e));
        } else {
            assert(ps.take(k).last() == plain_entry(e));
        }
        lemma_parse_plain_entry(e);
        assert(es.take(k) =~= es.take(k - 1).push(e));
    }
}

/// Splitting the joined entries at commas and reading the pieces gives the entries.
proof fn lemma_entries_round_trip(es: Seq<EntryM>)
    requires
        all_entries_ok(es),
    ensures
        entries_of(split_on(plain_join(es), ',')) == es,
{
    if es.len() == 0 {
        lemma_split_none(Seq::<char>::empty(), ',');
        let parts = seq![Seq::<char>::empty()];
        assert(parts.drop_last() =~= Seq::<Seq<char>>::empty());
        assert(trim(Seq::<char>::empty()) =~= Seq::<char>::empty());
        assert(parts.last() == Seq::<char>::empty());
        assert(entries_of(parts.drop_last()) == Seq::<EntryM>::empty());
        assert(entries_of(parts) =~= Seq::<EntryM>::empty());
        assert(es =~= Seq::<EntryM>::empty());
    } else {
        lemma_plain_join_pieces(es);
        let ps = plain_pieces(es);
        assert forall|i: int| 0 <= i < ps.len() implies !(#[trigger] ps[i]).contains(',') by {
            lemma_plain_entry_shape(es[i]);
            if i > 0 {
                if ps[i].contains(',') {
                    let k = choose|k: int| 0 <= k < ps[i].len() && ps[i][k] == ',';
                    assert(plain_entry(es[i])[k - 1] == ',');
                    assert(plain_entry(es[i]).contains(','));
                }
            }
        }
        lemma_split_join_front(ps, ',');
        lemma_entries_of_pieces(es, es.len() as int);
        assert(ps.take(es.len() as int) =~= ps);
        assert(es.take(es.len() as int) =~= es);
    }
}


/// A category line without its line break.
pub open spec fn cat_text(c: CategoryM) -> Seq<char> {
    c.name + seq![' ', '=', ' '] + join_entries(c.entries)
}

pub open spec fn category_ok(c: CategoryM) -> bool {
    ngt_name_ok(c.name) && all_entries_ok(c.entries)
}

proof fn lemma_no_hash_name_sep(name: Seq<char>)
    requires
        ngt_name_ok(name),
    ensures
        !(name + seq![' ', '=', ' ']).contains('#'),
{
    let x = name + seq![' ', '=', ' '];
    if x.contains('#') {
        let k = choose|k: int| 0 <= k < x.len() && x[k] == '#';
        if k < name.len() {
            assert(name_char_ok(name[k]));
        }
    }
}

/// The line of a category, once comments are stripped and it is trimmed.
pub open spec fn clean_line(c: CategoryM) -> Seq<char> {
    if c.entries.len() == 0 {
        c.name + seq![' ', '=']
    } else {
        c.name + seq![' ', '=', ' '] + plain_join(c.entries)
    }
}

proof fn lemma_clean_line(c: CategoryM)
    requires
        category_ok(c),
    ensures
        trim(strip_comment_spec(cat_text(c))) == clean_line(c),
{
    let name = c.name;
    let p = plain_join(c.entries);
    let sep = seq![' ', '=', ' '];
    lemma_join_escape(c.entries);
    lemma_escape_concat(name + sep, p);
    lemma_no_hash_name_sep(name);
    lemma_escape_plain(name + sep);
    assert(cat_text(c) == escape_hashes(name + sep + p));
    lemma_strip_escaped(name + sep + p);
    lemma_plain_join_shape(c.entries);
    assert(!is_ws(name[0])) by {
        assert(name_char_ok(name[0]));
    }
    let x = name + sep + p;
    if c.entries.len() == 0 {
        assert(p =~= Seq::<char>::empty());
        assert(x =~= (name + seq![' ', '=']) + seq![' ']);
        assert(is_ws(seq![' '][0]));
        lemma_trim_ws_suffix(name + seq![' ', '='], seq![' ']);
        let y = name + seq![' ', '='];
        assert(y.last() == '=');
        assert(trim_end(y) == y);
    } else {
        assert(x[0] == name[0]);
        assert(x.last() == p.last());
        lemma_trim_trimmed(x);
    }
}

/// Reading a category line adds the category (merging it into an existing
/// one of the same name), noting an empty category and a merge.
proof fn lemma_parse_category_line(st: (DocM, Seq<IssueM>), n: nat, c: CategoryM)
    requires
        category_ok(c),
    ensures
        parse_line_spec(st, n, cat_text(c)) == Ok::<(DocM, Seq<IssueM>), IssueM>(
            (
                DocM {
                    start: st.0.start,
                    categories: add_category_spec(st.0.categories, c.name, c.entries),
                },
                st.1 + (if c.entries.len() == 0 {
                    seq![crate::model::semantic_m(crate::ngt::msg_empty_category(n, c.name))]
                } else {
                    Seq::<IssueM>::empty()
                }) + (if has_name(st.0.categories, c.name) {
                    seq![crate::model::semantic_m(crate::ngt::msg_duplicate_category(n, c.name))]
                } else {
                    Seq::<IssueM>::empty()
                }),
            ),
        ),
{
    lemma_clean_line(c);
    let name = c.name;
    let line = clean_line(c);
    let p = plain_join(c.entries);
    lemma_plain_join_shape(c.entries);
    assert(line[0] == name[0]);
    assert(name_char_ok(name[0]));
    if line.len() >= 6 && line.take(6) == start_directive() {
        assert(line.take(6)[0] == '!');
    }
    let eq = name.len() as int + 1;
    assert(line[eq] == '=');
    lemma_find_char_bounds(line, '=', 0);
    match find_char(line, '=', 0) {
        Some(j) => {
            if j < eq {
                if j < name.len() {
                    assert(name_char_ok(name[j]));
                    assert(line[j] == name[j]);
                }
            }
        },
        None => {},
    }
    assert(find_char(line, '=', 0) == Some(eq));
    assert(line.take(eq) =~= name + seq![' ']);
    assert(is_ws(seq![' '][0]));
    lemma_trim_ws_suffix(name, seq![' ']);
    assert(trim_end(name) == name) by {
        assert(name_char_ok(name[name.len() - 1]));
    }
    assert(trim(line.take(eq)) == name);
    if c.entries.len() == 0 {
        assert(line.skip(eq + 1) =~= Seq::<char>::empty());
        assert(trim(Seq::<char>::empty()) =~= Seq::<char>::empty());
        assert(p =~= Seq::<char>::empty());
    } else {
        assert(line.skip(eq + 1) =~= seq![' '] + p);
        lemma_trim_ws_prefix(seq![' '], p);
        lemma_trim_trimmed(p);
    }
    assert(trim(line.skip(eq + 1)) == p);
    lemma_entries_round_trip(c.entries);
}


proof fn lemma_cat_text_no_newline(c: CategoryM)
    requires
        category_ok(c),
    ensures
        !cat_text(c).contains('\n'),
{
    let name = c.name;
    let sep = seq![' ', '=', ' '];
    let p = plain_join(c.entries);
    lemma_plain_join_shape(c.entries);
    lemma_clean_line(c);
    lemma_join_escape(c.entries);
    let j = join_entries(c.entries);
    let t = cat_text(c);
    if t.contains('\n') {
        let k = choose|k: int| 0 <= k < t.len() && t[k] == '\n';
        if k < name.len() {
            assert(name_char_ok(name[k]));
        } else if k >= name.len() + 3 {
            assert(j[k - name.len() - 3] == '\n');
            lemma_escape_keeps_newlines(p);
            assert(j.contains('\n'));
        }
    }
}

/// `#` escaping adds no line break.
proof fn lemma_escape_keeps_newlines(x: Seq<char>)
    requires
        !x.contains('\n'),
    ensures
        !escape_hashes(x).contains('\n'),
    decreases x.len(),
{
    if x.len() > 0 {
        assert(!x.drop_last().contains('\n')) by {
            if x.drop_last().contains('\n') {
                let k = choose|k: int| 0 <= k < x.drop_last().len() && x.drop_last()[k] == '\n';
                assert(x[k] == '\n');
            }
        }
        lemma_escape_keeps_newlines(x.drop_last());
        let e = escape_hashes(x);
        let a = escape_hashes(x.drop_last());
        if e.contains('\n') {
            let k = choose|k: int| 0 <= k < e.len() && e[k] == '\n';
            if k < a.len() {
                assert(a[k] == '\n');
            } else {
                assert(x[x.len() - 1] == x.last());
            }
        }
    }
}

proof fn lemma_split_category_lines(cs: Seq<CategoryM>, y: Seq<char>)
    requires
        forall|i: int| 0 <= i < cs.len() ==> category_ok(#[trigger] cs[i]),
    ensures
        split_on(category_lines(cs) + y, '\n') == cs.map_values(|c: CategoryM| cat_text(c))
            + split_on(y, '\n'),
    decreases cs.len(),
{
    if cs.len() == 0 {
        assert(category_lines(cs) + y =~= y);
        assert(cs.map_values(|c: CategoryM| cat_text(c)) + split_on(y, '\n') =~= split_on(y, '\n'));
    } else {
        let init = cs.drop_last();
        let last = cs.last();
        assert(category_ok(cs[cs.len() - 1]));
        assert forall|i: int| 0 <= i < init.len() implies category_ok(#[trigger] init[i]) by {
            assert(init[i] == cs[i]);
        }
        let y2 = cat_text(last) + seq!['\n'] + y;
        lemma_split_category_lines(init, y2);
        assert(category_line(last) =~= cat_text(last) + seq!['\n']);
        assert(category_lines(cs) + y =~= category_lines(init) + y2);
        lemma_cat_text_no_newline(last);
        lemma_split_front(cat_text(last), '\n', y);
        assert(cs.map_values(|c: CategoryM| cat_text(c)) =~= init.map_values(|c: CategoryM| cat_text(c)).push(
            cat_text(last),
        ));
    }
}

/// The lines of a written document.
pub open spec fn start_lines(start: Option<Seq<char>>) -> Seq<Seq<char>> {
    match start {
        Some(s) => seq![start_directive() + seq![' '] + s, Seq::<char>::empty()],
        None => seq![],
    }
}

pub open spec fn lines_of(d: DocM) -> Seq<Seq<char>> {
    start_lines(d.start) + d.categories.map_values(|c: CategoryM| cat_text(c)) + seq![
        Seq::<char>::empty(),
    ]
}

proof fn lemma_split_written(d: DocM)
    requires
        ngt_representable(d),
    ensures
        split_on(write_spec(d), '\n') == lines_of(d),
{
    let cs = d.categories;
    assert forall|i: int| 0 <= i < cs.len() implies category_ok(#[trigger] cs[i]) by {
        assert(ngt_name_ok(cs[i].name));
        assert forall|k: int| 0 <= k < cs[i].entries.len() implies ngt_entry_ok(
            #[trigger] cs[i].entries[k],
        ) by {}
    }
    lemma_split_category_lines(cs, Seq::<char>::empty());
    lemma_split_none(Seq::<char>::empty(), '\n');
    assert(category_lines(cs) + Seq::<char>::empty() =~= category_lines(cs));
    match d.start {
        Some(s) => {
            let first = start_directive() + seq![' '] + s;
            assert(!first.contains('\n')) by {
                if first.contains('\n') {
                    let k = choose|k: int| 0 <= k < first.len() && first[k] == '\n';
                    if k >= 7 {
                        assert(s[k - 7] == '\n');
                        assert(s.contains('\n'));
                    }
                }
            }
            let rest = Seq::<char>::empty() + seq!['\n'] + category_lines(cs);
            assert(write_spec(d) =~= first + seq!['\n'] + rest);
            lemma_split_front(first, '\n', rest);
            assert(!Seq::<char>::empty().contains('\n'));
            lemma_split_front(Seq::<char>::empty(), '\n', category_lines(cs));
            assert(lines_of(d) =~= seq![first] + (seq![Seq::<char>::empty()] + (cs.map_values(
                |c: CategoryM| cat_text(c),
            ) + seq![Seq::<char>::empty()])));
        },
        None => {
            assert(write_spec(d) =~= category_lines(cs));
            assert(lines_of(d) =~= cs.map_values(|c: CategoryM| cat_text(c)) + seq![
                Seq::<char>::empty(),
            ]);
        },
    }
}


proof fn lemma_parse_start_line(s: Seq<char>)
    requires
        ngt_start_ok(s),
    ensures
        parse_line_spec((empty_doc(), seq![]), 1, start_directive() + seq![' '] + s) == Ok::<
            (DocM, Seq<IssueM>),
            IssueM,
        >((DocM { start: Some(s), categories: seq![] }, seq![])),
{
    let first = start_directive() + seq![' '] + s;
    assert(!first.contains('#')) by {
        if first.contains('#') {
            let k = choose|k: int| 0 <= k < first.len() && first[k] == '#';
            if k >= 7 {
                assert(s[k - 7] == '#');
                assert(s.contains('#'));
            }
        }
    }
    lemma_escape_plain(first);
    lemma_strip_escaped(first);
    assert(first[0] == '!');
    assert(first.last() == s.last());
    lemma_trim_trimmed(first);
    assert(first.take(6) =~= start_directive());
    assert(first.skip(6) =~= seq![' '] + s);
    assert(is_ws(seq![' '][0]));
    lemma_trim_ws_prefix(seq![' '], s);
    lemma_trim_trimmed(s);
    assert(Seq::<IssueM>::empty() + Seq::<IssueM>::empty() =~= Seq::<IssueM>::empty());
}

proof fn lemma_empty_line(st: (DocM, Seq<IssueM>), n: nat)
    ensures
        parse_line_spec(st, n, Seq::<char>::empty()) == Ok::<(DocM, Seq<IssueM>), IssueM>(st),
{
    assert(trim(Seq::<char>::empty()) =~= Seq::<char>::empty());
}

pub open spec fn all_semantic(is: Seq<IssueM>) -> bool {
    forall|i: int| 0 <= i < is.len() ==> (#[trigger] is[i]).severity == Severity::Semantic
}

proof fn lemma_fold_categories(d: DocM, k: int)
    requires
        ngt_representable(d),
        0 <= k <= d.categories.len(),
    ensures
        parse_lines_spec(
            start_lines(d.start) + d.categories.map_values(|c: CategoryM| cat_text(c)).take(k),
        ) matches Ok((d2, is)) && d2 == (DocM { start: d.start, categories: d.categories.take(k) })
            && all_semantic(is) && ((forall|j: int|
            0 <= j < k ==> (#[trigger] d.categories[j]).entries.len() > 0) ==> is.len() == 0),
    decreases k,
{
    let cs = d.categories;
    let texts = cs.map_values(|c: CategoryM| cat_text(c));
    let sl = start_lines(d.start);
    if k == 0 {
        assert(texts.take(0) =~= Seq::<Seq<char>>::empty());
        assert(sl + texts.take(0) =~= sl);
        assert(cs.take(0) =~= Seq::<CategoryM>::empty());
        match d.start {
            Some(s) => {
                let first = start_directive() + seq![' '] + s;
                assert(sl.drop_last() =~= seq![first]);
                assert(seq![first].drop_last() =~= Seq::<Seq<char>>::empty());
                lemma_parse_start_line(s);
                lemma_empty_line(
                    (DocM { start: Some(s), categories: seq![] }, Seq::<IssueM>::empty()),
                    2,
                );
                let one = seq![first];
                assert(one.drop_last() =~= Seq::<Seq<char>>::empty());
                assert(parse_lines_spec(one.drop_last()) == Ok::<(DocM, Seq<IssueM>), IssueM>(
                    (empty_doc(), Seq::<IssueM>::empty()),
                ));
                assert(one.last() == first);
                assert(one.len() == 1);
                assert(parse_lines_spec(seq![first]) == Ok::<(DocM, Seq<IssueM>), IssueM>(
                    (DocM { start: Some(s), categories: seq![] }, Seq::<IssueM>::empty()),
                ));
                assert(sl.len() == 2);
                assert(sl.last() == Seq::<char>::empty());
                assert(parse_lines_spec(sl) == Ok::<(DocM, Seq<IssueM>), IssueM>(
                    (DocM { start: Some(s), categories: seq![] }, Seq::<IssueM>::empty()),
                ));
                assert((DocM { start: d.start, categories: cs.take(0) }) == (DocM {
                    start: Some(s),
                    categories: seq![],
                }));
            },
            None => {
                assert(sl =~= Seq::<Seq<char>>::empty());
                assert((DocM { start: d.start, categories: cs.take(0) }) == empty_doc());
            },
        }
    } else {
        lemma_fold_categories(d, k - 1);
        let lines = sl + texts.take(k);
        assert(lines.drop_last() =~= sl + texts.take(k - 1));
        assert(lines.last() == cat_text(cs[k - 1]));
        let c = cs[k - 1];
        assert(category_ok(c)) by {
            assert(ngt_name_ok(cs[k - 1].name));
            assert forall|e: int| 0 <= e < c.entries.len() implies ngt_entry_ok(
                #[trigger] c.entries[e],
            ) by {
                assert(ngt_entry_ok(cs[k - 1].entries[e]));
            }
        }
        let prev = parse_lines_spec(sl + texts.take(k - 1));
        let st = prev->Ok_0;
        lemma_parse_category_line(st, lines.len(), c);
        let before = cs.take(k - 1);
        assert(!has_name(before, c.name)) by {
            if has_name(before, c.name) {
                let j = choose|j: int| 0 <= j < before.len() && #[trigger] before[j].name == c.name;
                assert(cs[j].name != cs[k - 1].name);
            }
        }
        lemma_find_category(before, c.name);
        assert(add_category_spec(before, c.name, c.entries) =~= cs.take(k));
        let is = st.1 + (if c.entries.len() == 0 {
            seq![crate::model::semantic_m(crate::ngt::msg_empty_category(lines.len(), c.name))]
        } else {
            Seq::<IssueM>::empty()
        }) + Seq::<IssueM>::empty();
        assert(all_semantic(is));
        if forall|j: int| 0 <= j < k ==> (#[trigger] d.categories[j]).entries.len() > 0 {
            assert(c.entries.len() > 0);
            assert forall|j: int| 0 <= j < k - 1 implies (#[trigger] d.categories[j]).entries.len() > 0 by {}
            assert(is =~= Seq::<IssueM>::empty());
        }
        assert(parse_lines_spec(lines) == Ok::<(DocM, Seq<IssueM>), IssueM>(
            (DocM { start: d.start, categories: cs.take(k) }, is),
        ));
    }
}

/// Round trip through the text format: writing a document that the format
/// can hold and reading the text back gives the same document; the only
/// issues are semantic ones about categories without entries, so there are
/// none when every category has an entry.
pub proof fn lemma_ngt_round_trip(d: DocM)
    requires
        ngt_representable(d),
    ensures
        parse_spec(write_spec(d)) matches Ok((d2, is)) && d2 == d && all_semantic(is) && ((forall|
            j: int,
        | 0 <= j < d.categories.len() ==> (#[trigger] d.categories[j]).entries.len() > 0)
            ==> is.len() == 0),
{
    lemma_split_written(d);
    let cs = d.categories;
    let texts = cs.map_values(|c: CategoryM| cat_text(c));
    lemma_fold_categories(d, cs.len() as int);
    assert(texts.take(cs.len() as int) =~= texts);
    assert(cs.take(cs.len() as int) =~= cs);
    let lines = lines_of(d);
    assert(lines.drop_last() =~= start_lines(d.start) + texts);
    let st = parse_lines_spec(start_lines(d.start) + texts)->Ok_0;
    lemma_empty_line(st, lines.len());
}

} // verus!
