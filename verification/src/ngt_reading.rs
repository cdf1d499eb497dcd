//! What reading `.ngt` text yields: apart from a start name holding `#`, a
//! weight-1 entry that ends in `:<digits>` and category names with characters
//! the format cannot write, every document read is one that the text format
//! holds, so the round trip of `ngt_roundtrip` applies to it.

use vstd::prelude::*;
use crate::model::{
    add_category_spec, find_category, lemma_find_category, CategoryM, DocM, EntryM, IssueM,
};
use crate::ngt::{
    entries_of, parse_entry_spec, parse_line_spec, parse_lines_spec, parse_spec, start_directive,
    strip_comment_spec, write_spec,
};
use crate::ngt_roundtrip::{
    has_weight_suffix, lemma_ngt_round_trip, name_char_ok, ngt_representable,
};
use crate::text::{
    find_char, is_ident, is_trimmed, is_ws, lemma_find_char_bounds, lemma_rfind_char_bounds,
    rfind_char, split_on, trim, trim_end, trim_start,
};

verus! {

/// An entry as reading leaves it: non-empty trimmed text without commas or
/// line breaks, and a weight of at least 1.
pub open spec fn entry_read_ok(e: EntryM) -> bool {
    &&& e.text.len() > 0
    &&& is_trimmed(e.text)
    &&& !e.text.contains(',')
    &&& !e.text.contains('\n')
    &&& e.weight >= 1
}

/// A document as reading leaves it.
pub open spec fn parsed_ok(d: DocM) -> bool {
    &&& d.start matches Some(s) ==> s.len() > 0 && is_trimmed(s) && !s.contains('\n')
    &&& forall|i: int| 0 <= i < d.categories.len() ==> is_ident(#[trigger] d.categories[i].name)
    &&& forall|i: int, j: int|
        0 <= i < j < d.categories.len() ==> #[trigger] d.categories[i].name
            != #[trigger] d.categories[j].name
    &&& forall|i: int, k: int|
        0 <= i < d.categories.len() && 0 <= k < d.categories[i].entries.len() ==> entry_read_ok(
            #[trigger] d.categories[i].entries[k],
        )
}

proof fn lemma_trim_start_form(s: Seq<char>)
    ensures
        trim_start(s).len() <= s.len(),
        trim_start(s) == s.skip(s.len() - trim_start(s).len()),
        trim_start(s).len() > 0 ==> !is_ws(trim_start(s)[0]),
    decreases s.len(),
{
    if s.len() > 0 && is_ws(s[0]) {
        lemma_trim_start_form(s.drop_first());
        let t = trim_start(s.drop_first());
        assert(s.drop_first().skip(s.drop_first().len() - t.len()) =~= s.skip(s.len() - t.len()));
    } else {
        assert(s.skip(0) =~= s);
    }
}

proof fn lemma_trim_end_form(s: Seq<char>)
    ensures
        trim_end(s).len() <= s.len(),
        trim_end(s) == s.take(trim_end(s).len() as int),
        trim_end(s).len() > 0 ==> !is_ws(trim_end(s).last()),
        s.len() > 0 && !is_ws(s[0]) ==> trim_end(s).len() > 0,
    decreases s.len(),
{
    if s.len() > 0 && is_ws(s.last()) {
        lemma_trim_end_form(s.drop_last());
        let t = trim_end(s.drop_last());
        assert(s.drop_last().take(t.len() as int) =~= s.take(t.len() as int));
        if s.len() > 1 {
            assert(s.drop_last()[0] == s[0]);
        }
    } else {
        assert(s.take(s.len() as int) =~= s);
    }
}

/// Trimming gives trimmed text drawn from the text, not empty when the text
/// starts with a non-space.
proof fn lemma_trim_facts(s: Seq<char>, c: char)
    ensures
        is_trimmed(trim(s)),
        !s.contains(c) ==> !trim(s).contains(c),
        s.len() > 0 && !is_ws(s[0]) ==> trim(s).len() > 0,
{
    lemma_trim_start_form(s);
    let t = trim_start(s);
    lemma_trim_end_form(t);
    let u = trim_end(t);
    if u.len() > 0 {
        assert(u[0] == t[0]);
    }
    if !s.contains(c) && u.contains(c) {
        let j = choose|j: int| 0 <= j < u.len() && u[j] == c;
        assert(u[j] == t[j]);
        assert(t[j] == s[s.len() - t.len() + j]);
    }
    if s.len() > 0 && !is_ws(s[0]) {
        assert(t == s);
    }
}

proof fn lemma_strip_keeps_out(s: Seq<char>, c: char)
    requires
        !s.contains(c),
        c != '#',
    ensures
        !strip_comment_spec(s).contains(c),
    decreases s.len(),
{
    if s.len() > 0 {
        if s.len() >= 2 && s[0] == '\\' && s[1] == '#' {
            assert forall|k: int| 0 <= k < s.skip(2).len() implies s.skip(2)[k] != c by {
                assert(s.skip(2)[k] == s[k + 2]);
            }
            lemma_strip_keeps_out(s.skip(2), c);
            let r = strip_comment_spec(s.skip(2));
            assert forall|k: int| 0 <= k < (seq!['#'] + r).len() implies (seq!['#'] + r)[k] != c by {
                if k > 0 {
                    assert((seq!['#'] + r)[k] == r[k - 1]);
                }
            }
        } else if s[0] != '#' {
            assert forall|k: int| 0 <= k < s.drop_first().len() implies s.drop_first()[k] != c by {
                assert(s.drop_first()[k] == s[k + 1]);
            }
            lemma_strip_keeps_out(s.drop_first(), c);
            let r = strip_comment_spec(s.drop_first());
            assert forall|k: int| 0 <= k < (seq![s[0]] + r).len() implies (seq![s[0]] + r)[k] != c by {
                if k > 0 {
                    assert((seq![s[0]] + r)[k] == r[k - 1]);
                }
            }
        }
    }
}

/// The pieces of `split_on(s, c)` hold no `c`, and no character that `s` lacks.
proof fn lemma_split_pieces(s: Seq<char>, c: char, x: char)
    ensures
        forall|i: int| 0 <= i < split_on(s, c).len() ==> !(#[trigger] split_on(s, c)[i]).contains(c),
        !s.contains(x) ==> forall|i: int|
            0 <= i < split_on(s, c).len() ==> !(#[trigger] split_on(s, c)[i]).contains(x),
    decreases s.len(),
{
    lemma_find_char_bounds(s, c, 0);
    match find_char(s, c, 0) {
        Some(j) => {
            let rest = s.skip(j + 1);
            lemma_split_pieces(rest, c, x);
            let parts = split_on(s, c);
            assert(parts == seq![s.take(j)] + split_on(rest, c));
            assert forall|i: int| 0 <= i < parts.len() implies !(#[trigger] parts[i]).contains(c) by {
                if i == 0 {
                    assert(parts[0] == s.take(j));
                    if s.take(j).contains(c) {
                        let k = choose|k: int| 0 <= k < s.take(j).len() && s.take(j)[k] == c;
                        assert(s[k] == c);
                    }
                } else {
                    assert(parts[i] == split_on(rest, c)[i - 1]);
                }
            }
            if !s.contains(x) {
                assert(!rest.contains(x)) by {
                    if rest.contains(x) {
                        let k = choose|k: int| 0 <= k < rest.len() && rest[k] == x;
                        assert(s[j + 1 + k] == x);
                    }
                }
                assert forall|i: int| 0 <= i < parts.len() implies !(#[trigger] parts[i]).contains(x) by {
                    if i == 0 {
                        if s.take(j).contains(x) {
                            let k = choose|k: int| 0 <= k < s.take(j).len() && s.take(j)[k] == x;
                            assert(s[k] == x);
                        }
                    } else {
                        assert(parts[i] == split_on(rest, c)[i - 1]);
                    }
                }
            }
        },
        None => {
            assert(split_on(s, c) == seq![s]);
            if s.contains(c) {
                let k = choose|k: int| 0 <= k < s.len() && s[k] == c;
            }
        },
    }
}

/// What a trimmed, non-empty piece of a category line reads as is an entry
/// as reading leaves it.
proof fn lemma_entry_read(raw: Seq<char>)
    requires
        raw.len() > 0,
        is_trimmed(raw),
        !raw.contains(','),
        !raw.contains('\n'),
    ensures
        entry_read_ok(parse_entry_spec(raw)),
{
    lemma_rfind_char_bounds(raw, ':');
    lemma_trim_facts(raw, ',');
    lemma_trim_facts(raw, '\n');
    if let Some(idx) = rfind_char(raw, ':') {
        let text = raw.take(idx);
        if text.len() > 0 {
            assert(text[0] == raw[0]);
            lemma_trim_facts(text, ',');
            lemma_trim_facts(text, '\n');
            if text.contains(',') {
                let k = choose|k: int| 0 <= k < text.len() && text[k] == ',';
                assert(raw[k] == ',');
            }
            if text.contains('\n') {
                let k = choose|k: int| 0 <= k < text.len() && text[k] == '\n';
                assert(raw[k] == '\n');
            }
        }
    }
}

proof fn lemma_entries_read(parts: Seq<Seq<char>>)
    requires
        forall|i: int| 0 <= i < parts.len() ==> !(#[trigger] parts[i]).contains(','),
        forall|i: int| 0 <= i < parts.len() ==> !(#[trigger] parts[i]).contains('\n'),
    ensures
        forall|k: int| 0 <= k < entries_of(parts).len() ==> entry_read_ok(#[trigger] entries_of(parts)[k]),
    decreases parts.len(),
{
    if parts.len() > 0 {
        let init = parts.drop_last();
        assert forall|i: int| 0 <= i < init.len() implies !(#[trigger] init[i]).contains(',') by {
            assert(init[i] == parts[i]);
        }
        assert forall|i: int| 0 <= i < init.len() implies !(#[trigger] init[i]).contains('\n') by {
            assert(init[i] == parts[i]);
        }
        lemma_entries_read(init);
        let p = trim(parts.last());
        assert(!parts.last().contains(','));
        assert(!parts.last().contains('\n'));
        lemma_trim_facts(parts.last(), ',');
        lemma_trim_facts(parts.last(), '\n');
        let es = entries_of(parts);
        let prev = entries_of(init);
        if p.len() > 0 {
            lemma_entry_read(p);
            assert forall|k: int| 0 <= k < es.len() implies entry_read_ok(#[trigger] es[k]) by {
                if k < prev.len() {
                    assert(es[k] == prev[k]);
                } else {
                    assert(es[k] == parse_entry_spec(p));
                }
            }
        } else {
            assert(es =~= prev);
        }
    }
}

proof fn lemma_add_read(d: DocM, name: Seq<char>, es: Seq<EntryM>)
    requires
        parsed_ok(d),
        is_ident(name),
        forall|k: int| 0 <= k < es.len() ==> entry_read_ok(#[trigger] es[k]),
    ensures
        parsed_ok(DocM { start: d.start, categories: add_category_spec(d.categories, name, es) }),
{
    lemma_find_category(d.categories, name);
    let cats = d.categories;
    let new = add_category_spec(cats, name, es);
    match find_category(cats, name) {
        Some(i) => {
            let c = CategoryM { name: cats[i].name, entries: cats[i].entries + es };
            assert(new == cats.update(i, c));
            assert forall|a: int, k: int|
                0 <= a < new.len() && 0 <= k < new[a].entries.len() implies entry_read_ok(
                #[trigger] new[a].entries[k],
            ) by {
                if a == i {
                    if k < cats[i].entries.len() {
                        assert(new[a].entries[k] == cats[i].entries[k]);
                    } else {
                        assert(new[a].entries[k] == es[k - cats[i].entries.len()]);
                    }
                } else {
                    assert(new[a] == cats[a]);
                }
            }
            assert forall|a: int| 0 <= a < new.len() implies is_ident(#[trigger] new[a].name) by {
                if a != i {
                    assert(new[a] == cats[a]);
                }
            }
            assert forall|a: int, b: int|
                0 <= a < b < new.len() implies #[trigger] new[a].name != #[trigger] new[b].name by {
                assert(new[a].name == cats[a].name);
                assert(new[b].name == cats[b].name);
            }
        },
        None => {
            let c = CategoryM { name, entries: es };
            assert(new == cats.push(c));
            assert forall|a: int, k: int|
                0 <= a < new.len() && 0 <= k < new[a].entries.len() implies entry_read_ok(
                #[trigger] new[a].entries[k],
            ) by {
                if a < cats.len() {
                    assert(new[a] == cats[a]);
                }
            }
            assert forall|a: int| 0 <= a < new.len() implies is_ident(#[trigger] new[a].name) by {
                if a < cats.len() {
                    assert(new[a] == cats[a]);
                }
            }
            assert forall|a: int, b: int|
                0 <= a < b < new.len() implies #[trigger] new[a].name != #[trigger] new[b].name by {
                assert(new[a] == cats[a]);
                if b < cats.len() {
                    assert(new[b] == cats[b]);
                }
            }
        },
    }
}

proof fn lemma_line_read(st: (DocM, Seq<IssueM>), n: nat, raw: Seq<char>)
    requires
        parsed_ok(st.0),
        !raw.contains('\n'),
    ensures
        parse_line_spec(st, n, raw) matches Ok(st2) ==> parsed_ok(st2.0),
{
    let stripped = strip_comment_spec(raw);
    lemma_strip_keeps_out(raw, '\n');
    let line = trim(stripped);
    lemma_trim_facts(stripped, '\n');
    if line.len() == 0 {
    } else if line.len() >= 6 && line.take(6) == start_directive() {
        let rest = line.skip(6);
        assert(!rest.contains('\n')) by {
            if rest.contains('\n') {
                let k = choose|k: int| 0 <= k < rest.len() && rest[k] == '\n';
                assert(line[k + 6] == '\n');
            }
        }
        lemma_trim_facts(rest, '\n');
    } else {
        lemma_find_char_bounds(line, '=', 0);
        if let Some(eq) = find_char(line, '=', 0) {
            let name = trim(line.take(eq));
            if is_ident(name) {
                let rest = trim(line.skip(eq + 1));
                let after = line.skip(eq + 1);
                assert(!after.contains('\n')) by {
                    if after.contains('\n') {
                        let k = choose|k: int| 0 <= k < after.len() && #[trigger] after[k] == '\n';
                        assert(line[k + eq + 1] == '\n');
                    }
                }
                lemma_trim_facts(line.skip(eq + 1), '\n');
                lemma_split_pieces(rest, ',', '\n');
                let parts = split_on(rest, ',');
                lemma_entries_read(parts);
                lemma_add_read(st.0, name, entries_of(parts));
            }
        }
    }
}

proof fn lemma_lines_read(lines: Seq<Seq<char>>)
    requires
        forall|i: int| 0 <= i < lines.len() ==> !(#[trigger] lines[i]).contains('\n'),
    ensures
        parse_lines_spec(lines) matches Ok(st) ==> parsed_ok(st.0),
    decreases lines.len(),
{
    if lines.len() > 0 {
        let init = lines.drop_last();
        assert forall|i: int| 0 <= i < init.len() implies !(#[trigger] init[i]).contains('\n') by {
            assert(init[i] == lines[i]);
        }
        lemma_lines_read(init);
        if let Ok(st) = parse_lines_spec(init) {
            lemma_line_read(st, lines.len(), lines.last());
        }
    } else {
        assert(parsed_ok(DocM { start: None, categories: seq![] }));
    }
}

/// Every document that reading `.ngt` text yields is one the text format holds
/// (so writing it and reading it back gives it again), unless its start name
/// holds `#`, a weight-1 entry ends in `:<digits>`, or a category name holds
/// white space, `#` or `!`.
pub proof fn lemma_read_is_representable(input: Seq<char>)
    ensures
        parse_spec(input) matches Ok((d, is)) ==> (
            (d.start matches Some(s) ==> !s.contains('#'))
            && (forall|i: int, k: int|
                0 <= i < d.categories.len() && 0 <= k < d.categories[i].entries.len()
                    && (#[trigger] d.categories[i].entries[k]).weight == 1 ==> !has_weight_suffix(
                    d.categories[i].entries[k].text,
                ))
            && (forall|i: int, j: int|
                0 <= i < d.categories.len() && 0 <= j < d.categories[i].name.len() ==> name_char_ok(
                    #[trigger] d.categories[i].name[j],
                ))
            ==> ngt_representable(d)),
{
    lemma_split_pieces(input, '\n', '\n');
    lemma_lines_read(split_on(input, '\n'));
}

/// Reading `.ngt` text, writing the document and reading it again gives the
/// same document, under the exceptions of `lemma_read_is_representable`.
pub proof fn lemma_read_write_read(input: Seq<char>)
    ensures
        parse_spec(input) matches Ok((d, is)) ==> (
            (d.start matches Some(s) ==> !s.contains('#'))
            && (forall|i: int, k: int|
                0 <= i < d.categories.len() && 0 <= k < d.categories[i].entries.len()
                    && (#[trigger] d.categories[i].entries[k]).weight == 1 ==> !has_weight_suffix(
                    d.categories[i].entries[k].text,
                ))
            && (forall|i: int, j: int|
                0 <= i < d.categories.len() && 0 <= j < d.categories[i].name.len() ==> name_char_ok(
                    #[trigger] d.categories[i].name[j],
                ))
            ==> (parse_spec(write_spec(d)) matches Ok((d2, is2)) && d2 == d)),
{
    lemma_read_is_representable(input);
    if let Ok((d, is)) = parse_spec(input) {
        if ngt_representable(d) {
            lemma_ngt_round_trip(d);
        }
    }
}

/// The name that a line gives as its `!start` directive, if it is one.
pub open spec fn start_line_name(raw: Seq<char>) -> Option<Seq<char>> {
    let line = trim(strip_comment_spec(raw));
    if line.len() >= 6 && line.take(6) == start_directive() && trim(line.skip(6)).len() > 0 {
        Some(trim(line.skip(6)))
    } else {
        None
    }
}

/// A `!start` line always sets the start to its own name, whatever start was
/// read before (the last `!start` line wins), and leaves the categories alone;
/// any other line that reads leaves the start as it was.
pub proof fn lemma_start_line(st: (DocM, Seq<IssueM>), n: nat, raw: Seq<char>)
    ensures
        start_line_name(raw) matches Some(s) ==> (parse_line_spec(st, n, raw) matches Ok(st2)
            && st2.0.start == Some(s) && st2.0.categories == st.0.categories),
        start_line_name(raw) is None ==> (parse_line_spec(st, n, raw) matches Ok(st2) ==> st2.0.start
            == st.0.start),
{
}

/// Reading lines that end with a `!start` line gives that line's name as the
/// start, whenever the lines before it read.
pub proof fn lemma_last_start_wins(lines: Seq<Seq<char>>, last: Seq<char>)
    requires
        start_line_name(last) is Some,
        parse_lines_spec(lines) is Ok,
    ensures
        parse_lines_spec(lines.push(last)) matches Ok(st) && st.0.start == start_line_name(last),
{
    assert(lines.push(last).drop_last() =~= lines);
    if let Ok(st0) = parse_lines_spec(lines) {
        lemma_start_line(st0, lines.len() + 1, last);
    }
}

} // verus!
