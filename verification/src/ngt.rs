//! The `.ngt` text format:
//!
//! ```text
//! !start name
//!
//! first = Anna, Beth:2, Clara
//! last = Smith, Jones
//! name = {first} {last}  # comment
//! ```
//!
//! Each category line is `name = entry, entry, ...`. An entry may end in
//! `:<weight>` (a positive integer, default 1) and may reference another
//! category with `{other_name}`. Blank lines are ignored, and a `#` starts a
//! comment that runs to the end of the line; `\#` is a literal `#`.
//! A colon inside an entry is only a weight separator when everything after it
//! is digits. `\{` and `\}` in an entry are literal braces; they are part of the
//! entry text itself and pass through both formats unchanged.

use vstd::prelude::*;
use crate::model::{
    add_category_spec, entries_view, fatal_m, fatal_of, has_name, issues_view, semantic_m,
    semantic_of, CategoryM, DocM, Document, Entry, EntryM, Issue, IssueM,
};
use crate::text::{
    all_digits, append_chars, chars_of, decimal, digits_value, find_char, find_char_from,
    is_ident, is_ident_range, lemma_split_last, lemma_split_step, parse_u32_digits, push_decimal,
    push_str, rfind_char, rfind_char_in, slice_chars, split_on, string_of, trim, trim_bounds,
};

verus! {

/// A line cut at its first unescaped `#`, with `\#` turned into `#`.
pub open spec fn strip_comment_spec(s: Seq<char>) -> Seq<char>
    decreases s.len(),
{
    if s.len() == 0 {
        seq![]
    } else if s.len() >= 2 && s[0] == '\\' && s[1] == '#' {
        seq!['#'] + strip_comment_spec(s.skip(2))
    } else if s[0] == '#' {
        seq![]
    } else {
        seq![s[0]] + strip_comment_spec(s.drop_first())
    }
}

/// The entry that a trimmed, non-empty piece of a category line denotes: a
/// trailing `:<digits>` with a value from 1 to `u32::MAX` after some text is
/// the weight, anything else is text of weight 1.
pub open spec fn parse_entry_spec(raw: Seq<char>) -> EntryM {
    match rfind_char(raw, ':') {
        Some(idx) => {
            let text = raw.take(idx);
            let w = raw.skip(idx + 1);
            if text.len() > 0 && w.len() > 0 && all_digits(w) && 1 <= digits_value(w) <= u32::MAX {
                EntryM { text: trim(text), weight: digits_value(w) as u32 }
            } else {
                EntryM { text: trim(raw), weight: 1 }
            }
        },
        None => EntryM { text: trim(raw), weight: 1 },
    }
}

/// The entries of the comma-separated pieces of a category line; blank pieces
/// are skipped.
pub open spec fn entries_of(parts: Seq<Seq<char>>) -> Seq<EntryM>
    decreases parts.len(),
{
    if parts.len() == 0 {
        seq![]
    } else {
        entries_of(parts.drop_last()) + if trim(parts.last()).len() == 0 {
            Seq::<EntryM>::empty()
        } else {
            seq![parse_entry_spec(trim(parts.last()))]
        }
    }
}

pub open spec fn start_directive() -> Seq<char> {
    seq!['!', 's', 't', 'a', 'r', 't']
}

pub open spec fn line_prefix(n: nat) -> Seq<char> {
    "line "@ + decimal(n) + ": "@
}

pub open spec fn msg_start_needs_name(n: nat) -> Seq<char> {
    line_prefix(n) + "!start requires a category name"@
}

pub open spec fn msg_duplicate_start(n: nat) -> Seq<char> {
    line_prefix(n) + "duplicate !start directive; using the last one"@
}

pub open spec fn msg_expected_assignment(n: nat) -> Seq<char> {
    line_prefix(n) + "expected '<name> = <entries>'"@
}

pub open spec fn msg_invalid_name(n: nat, name: Seq<char>) -> Seq<char> {
    line_prefix(n) + "'"@ + name + "' is not a valid category name"@
}

pub open spec fn msg_empty_category(n: nat, name: Seq<char>) -> Seq<char> {
    line_prefix(n) + "category '"@ + name + "' has no entries"@
}

pub open spec fn msg_duplicate_category(n: nat, name: Seq<char>) -> Seq<char> {
    line_prefix(n) + "duplicate category '"@ + name + "'; entries were merged"@
}

/// Reading line `n` (counted from 1) on top of the document and issues so far.
pub open spec fn parse_line_spec(st: (DocM, Seq<IssueM>), n: nat, raw: Seq<char>) -> Result<
    (DocM, Seq<IssueM>),
    IssueM,
> {
    let line = trim(strip_comment_spec(raw));
    let d = st.0;
    if line.len() == 0 {
        Ok(st)
    } else if line.len() >= 6 && line.take(6) == start_directive() {
        let name = trim(line.skip(6));
        if name.len() == 0 {
            Err(fatal_m(msg_start_needs_name(n)))
        } else {
            Ok(
                (
                    DocM { start: Some(name), categories: d.categories },
                    st.1 + if d.start is Some {
                        seq![semantic_m(msg_duplicate_start(n))]
                    } else {
                        Seq::<IssueM>::empty()
                    },
                ),
            )
        }
    } else {
        match find_char(line, '=', 0) {
            None => Err(fatal_m(msg_expected_assignment(n))),
            Some(eq) => {
                let name = trim(line.take(eq));
                if !is_ident(name) {
                    Err(fatal_m(msg_invalid_name(n, name)))
                } else {
                    let rest = trim(line.skip(eq + 1));
                    let empty_issue = if rest.len() == 0 {
                        seq![semantic_m(msg_empty_category(n, name))]
                    } else {
                        Seq::<IssueM>::empty()
                    };
                    let merge_issue = if has_name(d.categories, name) {
                        seq![semantic_m(msg_duplicate_category(n, name))]
                    } else {
                        Seq::<IssueM>::empty()
                    };
                    Ok(
                        (
                            DocM {
                                start: d.start,
                                categories: add_category_spec(
                                    d.categories,
                                    name,
                                    entries_of(split_on(rest, ',')),
                                ),
                            },
                            st.1 + empty_issue + merge_issue,
                        ),
                    )
                }
            },
        }
    }
}

pub open spec fn empty_doc() -> DocM {
    DocM { start: None, categories: seq![] }
}

/// Reading `lines` in order; the first fatal issue stops the reading.
pub open spec fn parse_lines_spec(lines: Seq<Seq<char>>) -> Result<(DocM, Seq<IssueM>), IssueM>
    decreases lines.len(),
{
    if lines.len() == 0 {
        Ok((empty_doc(), seq![]))
    } else {
        match parse_lines_spec(lines.drop_last()) {
            Ok(st) => parse_line_spec(st, lines.len(), lines.last()),
            Err(e) => Err(e),
        }
    }
}

/// What reading an `.ngt` text gives.
pub open spec fn parse_spec(input: Seq<char>) -> Result<(DocM, Seq<IssueM>), IssueM> {
    parse_lines_spec(split_on(input, '\n'))
}

/// Whether an exec parse result is the spec result.
pub open spec fn parse_result_is(
    r: Result<(Document, Vec<Issue>), Issue>,
    s: Result<(DocM, Seq<IssueM>), IssueM>,
) -> bool {
    match s {
        Ok(st) => r matches Ok(p) && p.0@ == st.0 && issues_view(p.1@) == st.1,
        Err(e) => r matches Err(i) && i@ == e,
    }
}

// Cuts a line at the first unescaped `#` and unescapes `\#` into a literal
// `#` in what's kept. Other backslash sequences (like `\{`) are left alone
// here; they're part of the shared entry-text escape handled downstream.
fn strip_comment(line: &Vec<char>) -> (r: Vec<char>)
    ensures
        r@ == strip_comment_spec(line@),
{
    let mut result: Vec<char> = Vec::new();
    let mut i: usize = 0;
    assert(line@.skip(0) =~= line@);
    while i < line.len()
        invariant
            i <= line.len(),
            strip_comment_spec(line@) == result@ + strip_comment_spec(line@.skip(i as int)),
        decreases line.len() - i,
    {
        let ghost s = line@.skip(i as int);
        let c = line[i];
        if c == '\\' && i + 1 < line.len() && line[i + 1] == '#' {
            result.push('#');
            assert(s.skip(2) =~= line@.skip(i + 2));
            i = i + 2;
        } else if c == '#' {
            assert(strip_comment_spec(s) =~= Seq::<char>::empty());
            assert(result@ + Seq::<char>::empty() =~= result@);
            return result;
        } else {
            result.push(c);
            assert(s.drop_first() =~= line@.skip(i + 1));
            i = i + 1;
        }
    }
    assert(line@.skip(i as int) =~= Seq::<char>::empty());
    assert(result@ + Seq::<char>::empty() =~= result@);
    result
}

fn parse_entry(raw: &Vec<char>) -> (e: Entry)
    ensures
        e@ == parse_entry_spec(raw@),
{
    if let Some(idx) = rfind_char_in(raw, ':') {
        proof {
            crate::text::lemma_rfind_char_bounds(raw@, ':');
            assert(raw@.take(idx as int) =~= raw@.subrange(0, idx as int));
            assert(raw@.skip(idx + 1) =~= raw@.subrange(idx + 1, raw.len() as int));
        }
        if idx > 0 && idx + 1 < raw.len() {
            if let Some(weight) = parse_u32_digits(raw, idx + 1, raw.len()) {
                if weight >= 1 {
                    let (a, b) = trim_bounds(raw, 0, idx);
                    let text = slice_chars(raw, a, b);
                    return Entry { text: string_of(&text), weight };
                }
            }
        }
    }
    let (a, b) = trim_bounds(raw, 0, raw.len());
    assert(raw@.subrange(0, raw.len() as int) =~= raw@);
    let text = slice_chars(raw, a, b);
    Entry { text: string_of(&text), weight: 1 }
}

/// The entries of the comma-separated pieces of `rest`.
fn parse_entries(rest: &Vec<char>) -> (r: Vec<Entry>)
    ensures
        entries_view(r@) == entries_of(split_on(rest@, ',')),
{
    let mut entries: Vec<Entry> = Vec::new();
    let mut pos: usize = 0;
    let ghost mut done: Seq<Seq<char>> = seq![];
    assert(rest@.skip(0) =~= rest@);
    loop
        invariant
            pos <= rest.len(),
            split_on(rest@, ',') == done + split_on(rest@.skip(pos as int), ','),
            entries_view(entries@) == entries_of(done),
        decreases rest.len() - pos,
    {
        let found = find_char_from(rest, ',', pos);
        let end = match found {
            Some(j) => j,
            None => rest.len(),
        };
        proof {
            match found {
                Some(j) => lemma_split_step(rest@, ',', pos as int, j as int),
                None => lemma_split_last(rest@, ',', pos as int),
            }
        }
        let piece = slice_chars(rest, pos, end);
        let ghost new_done = done.push(piece@);
        assert(new_done.drop_last() =~= done);
        let (a, b) = trim_bounds(&piece, 0, piece.len());
        assert(piece@.subrange(0, piece.len() as int) =~= piece@);
        if a < b {
            let trimmed = slice_chars(&piece, a, b);
            let e = parse_entry(&trimmed);
            let ghost before = entries@;
            entries.push(e);
            assert(entries_view(entries@) =~= entries_view(before) + seq![e@]);
        }
        proof {
            done = new_done;
        }
        match found {
            Some(j) => {
                assert(split_on(rest@, ',') =~= done + split_on(rest@.skip(j + 1), ','));
                pos = j + 1;
            },
            None => {
                assert(split_on(rest@, ',') =~= done);
                return entries;
            },
        }
    }
}

/// The message `line <n>: <text>`.
fn line_message(n: usize, text: &str) -> (m: Vec<char>)
    ensures
        m@ == line_prefix(n as nat) + text@,
{
    let mut m: Vec<char> = Vec::new();
    push_str(&mut m, "line ");
    push_decimal(&mut m, n as u64);
    push_str(&mut m, ": ");
    push_str(&mut m, text);
    assert(m@ =~= line_prefix(n as nat) + text@);
    m
}

/// The message `line <n>: <before><name><after>`.
fn line_name_message(n: usize, before: &str, name: &Vec<char>, after: &str) -> (m: Vec<char>)
    ensures
        m@ == line_prefix(n as nat) + before@ + name@ + after@,
{
    let mut m = line_message(n, before);
    append_chars(&mut m, name);
    push_str(&mut m, after);
    assert(m@ =~= line_prefix(n as nat) + before@ + name@ + after@);
    m
}

/// Whether `line` starts with `!start`.
fn starts_with_directive(line: &Vec<char>) -> (b: bool)
    ensures
        b == (line.len() >= 6 && line@.take(6) == start_directive()),
{
    if line.len() < 6 {
        return false;
    }
    let b = line[0] == '!' && line[1] == 's' && line[2] == 't' && line[3] == 'a' && line[4] == 'r'
        && line[5] == 't';
    if b {
        assert(line@.take(6) =~= start_directive());
    } else {
        proof {
            if line@.take(6) == start_directive() {
                assert(line@.take(6)[0] == '!');
                assert(line@.take(6)[1] == 's');
                assert(line@.take(6)[2] == 't');
                assert(line@.take(6)[3] == 'a');
                assert(line@.take(6)[4] == 'r');
                assert(line@.take(6)[5] == 't');
            }
        }
    }
    b
}

/// Reads line `n` into `doc` and `issues`, as `parse_line_spec` describes.
fn parse_line(doc: &mut Document, issues: &mut Vec<Issue>, n: usize, raw: &Vec<char>) -> (r: Result<(), Issue>)
    ensures
        match parse_line_spec((old(doc)@, issues_view(old(issues)@)), n as nat, raw@) {
            Ok(st) => r is Ok && final(doc)@ == st.0 && issues_view(final(issues)@) == st.1,
            Err(e) => r matches Err(i) && i@ == e,
        },
{
    let stripped = strip_comment(raw);
    let (a, b) = trim_bounds(&stripped, 0, stripped.len());
    assert(stripped@.subrange(0, stripped.len() as int) =~= stripped@);
    let line = slice_chars(&stripped, a, b);
    if line.len() == 0 {
        return Ok(());
    }
    if starts_with_directive(&line) {
        let (c, d) = trim_bounds(&line, 6, line.len());
        assert(line@.skip(6) =~= line@.subrange(6, line.len() as int));
        if c == d {
            let m = line_message(n, "!start requires a category name");
            return Err(fatal_of(&m));
        }
        if doc.start.is_some() {
            let m = line_message(n, "duplicate !start directive; using the last one");
            let ghost before = issues@;
            issues.push(semantic_of(&m));
            assert(issues_view(issues@) =~= issues_view(before) + seq![
                semantic_m(msg_duplicate_start(n as nat)),
            ]);
        } else {
            assert(issues_view(issues@) =~= issues_view(issues@) + Seq::<IssueM>::empty());
        }
        let name = slice_chars(&line, c, d);
        doc.start = Some(string_of(&name));
        return Ok(());
    }
    match find_char_from(&line, '=', 0) {
        None => {
            let m = line_message(n, "expected '<name> = <entries>'");
            Err(fatal_of(&m))
        },
        Some(eq) => {
            proof {
                crate::text::lemma_find_char_bounds(line@, '=', 0);
            }
            let (na, nb) = trim_bounds(&line, 0, eq);
            assert(line@.take(eq as int) =~= line@.subrange(0, eq as int));
            let name = slice_chars(&line, na, nb);
            if !is_ident_range(&line, na, nb) {
                let m = line_name_message(n, "'", &name, "' is not a valid category name");
                return Err(fatal_of(&m));
            }
            let (ra, rb) = trim_bounds(&line, eq + 1, line.len());
            assert(line@.skip(eq + 1) =~= line@.subrange(eq + 1, line.len() as int));
            let ghost base = issues_view(issues@);
            if ra == rb {
                let m = line_name_message(n, "category '", &name, "' has no entries");
                issues.push(semantic_of(&m));
                assert(issues_view(issues@) =~= base + seq![
                    semantic_m(msg_empty_category(n as nat, name@)),
                ]);
            } else {
                assert(issues_view(issues@) =~= base + Seq::<IssueM>::empty());
            }
            let ghost mid = issues_view(issues@);
            let rest = slice_chars(&line, ra, rb);
            let entries = parse_entries(&rest);
            let merged = doc.add_category(string_of(&name), entries);
            if merged {
                let m = line_name_message(n, "duplicate category '", &name, "'; entries were merged");
                issues.push(semantic_of(&m));
                assert(issues_view(issues@) =~= mid + seq![
                    semantic_m(msg_duplicate_category(n as nat, name@)),
                ]);
            } else {
                assert(issues_view(issues@) =~= mid + Seq::<IssueM>::empty());
            }
            Ok(())
        },
    }
}

/// Reads an `.ngt` text: the document and the semantic issues found, or the
/// first fatal issue, exactly as `parse_spec` describes.
pub fn parse(input: &str) -> (r: Result<(Document, Vec<Issue>), Issue>)
    requires
        input@.len() < usize::MAX,
    ensures
        parse_result_is(r, parse_spec(input@)),
{
    let v = chars_of(input);
    let mut doc = Document { start: None, categories: Vec::new() };
    let mut issues: Vec<Issue> = Vec::new();
    let mut pos: usize = 0;
    let mut line_no: usize = 0;
    let ghost mut done: Seq<Seq<char>> = seq![];
    assert(v@.skip(0) =~= v@);
    assert(doc@ == empty_doc()) by {
        assert(doc@.categories =~= Seq::<CategoryM>::empty());
    }
    assert(issues_view(issues@) =~= Seq::<IssueM>::empty());
    loop
        invariant
            v@ == input@,
            v.len() < usize::MAX,
            pos <= v.len(),
            line_no == done.len(),
            line_no <= pos,
            split_on(v@, '\n') == done + split_on(v@.skip(pos as int), '\n'),
            parse_lines_spec(done) == Ok::<(DocM, Seq<IssueM>), IssueM>(
                (doc@, issues_view(issues@)),
            ),
        decreases v.len() - pos,
    {
        let found = find_char_from(&v, '\n', pos);
        let end = match found {
            Some(j) => j,
            None => v.len(),
        };
        proof {
            match found {
                Some(j) => lemma_split_step(v@, '\n', pos as int, j as int),
                None => lemma_split_last(v@, '\n', pos as int),
            }
        }
        let line = slice_chars(&v, pos, end);
        line_no = line_no + 1;
        let ghost new_done = done.push(line@);
        assert(new_done.drop_last() =~= done);
        match parse_line(&mut doc, &mut issues, line_no, &line) {
            Ok(()) => {},
            Err(e) => {
                proof {
                    done = new_done;
                    match found {
                        Some(j) => {
                            lemma_parse_lines_prefix_err(
                                split_on(v@, '\n'),
                                done.len() as int,
                            );
                            assert(split_on(v@, '\n').take(done.len() as int) =~= done);
                        },
                        None => {
                            assert(split_on(v@, '\n') =~= done);
                        },
                    }
                }
                return Err(e);
            },
        }
        proof {
            done = new_done;
        }
        match found {
            Some(j) => {
                assert(split_on(v@, '\n') =~= done + split_on(v@.skip(j + 1), '\n'));
                pos = j + 1;
            },
            None => {
                assert(split_on(v@, '\n') =~= done);
                return Ok((doc, issues));
            },
        }
    }
}

/// A failure while reading the first `k` lines is the failure of reading them all.
proof fn lemma_parse_lines_prefix_err(lines: Seq<Seq<char>>, k: int)
    requires
        0 <= k <= lines.len(),
        parse_lines_spec(lines.take(k)) is Err,
    ensures
        parse_lines_spec(lines) == parse_lines_spec(lines.take(k)),
    decreases lines.len() - k,
{
    if k < lines.len() {
        assert(lines.drop_last().take(k) =~= lines.take(k));
        lemma_parse_lines_prefix_err(lines.drop_last(), k);
        assert(lines.drop_last() =~= lines.take(lines.len() - 1));
    } else {
        assert(lines.take(k) =~= lines);
    }
}


/// An entry text with every `#` written as `\#`.
pub open spec fn escape_hashes(t: Seq<char>) -> Seq<char>
    decreases t.len(),
{
    if t.len() == 0 {
        seq![]
    } else {
        escape_hashes(t.drop_last()) + if t.last() == '#' {
            seq!['\\', '#']
        } else {
            seq![t.last()]
        }
    }
}

/// An entry as a category line shows it: the escaped text, then `:<weight>`
/// unless the weight is 1.
pub open spec fn render_entry(e: EntryM) -> Seq<char> {
    if e.weight == 1 {
        escape_hashes(e.text)
    } else {
        escape_hashes(e.text) + seq![':'] + decimal(e.weight as nat)
    }
}

/// Entries joined by `, `.
pub open spec fn join_entries(es: Seq<EntryM>) -> Seq<char>
    decreases es.len(),
{
    if es.len() == 0 {
        seq![]
    } else if es.len() == 1 {
        render_entry(es[0])
    } else {
        join_entries(es.drop_last()) + seq![',', ' '] + render_entry(es.last())
    }
}

/// The line `<name> = <entries>` of a category, with its line break.
pub open spec fn category_line(c: CategoryM) -> Seq<char> {
    c.name + seq![' ', '=', ' '] + join_entries(c.entries) + seq!['\n']
}

pub open spec fn category_lines(cs: Seq<CategoryM>) -> Seq<char>
    decreases cs.len(),
{
    if cs.len() == 0 {
        seq![]
    } else {
        category_lines(cs.drop_last()) + category_line(cs.last())
    }
}

/// The `!start` line and the blank line after it, when there is a start.
pub open spec fn start_block(start: Option<Seq<char>>) -> Seq<char> {
    match start {
        Some(s) => start_directive() + seq![' '] + s + seq!['\n', '\n'],
        None => seq![],
    }
}

/// The `.ngt` text of a document.
pub open spec fn write_spec(d: DocM) -> Seq<char> {
    start_block(d.start) + category_lines(d.categories)
}

fn push_entry(out: &mut Vec<char>, e: &Entry)
    ensures
        final(out)@ == old(out)@ + render_entry(e@),
{
    let t = chars_of(e.text.as_str());
    let ghost base = out@;
    let mut i: usize = 0;
    while i < t.len()
        invariant
            i <= t.len(),
            t@ == e.text@,
            out@ == base + escape_hashes(t@.take(i as int)),
        decreases t.len() - i,
    {
        assert(t@.take(i + 1).drop_last() =~= t@.take(i as int));
        if t[i] == '#' {
            out.push('\\');
            out.push('#');
        } else {
            out.push(t[i]);
        }
        i = i + 1;
        assert(out@ =~= base + escape_hashes(t@.take(i as int)));
    }
    assert(t@.take(t.len() as int) =~= t@);
    if e.weight != 1 {
        out.push(':');
        push_decimal(out, e.weight as u64);
        assert(out@ =~= base + render_entry(e@));
    }
}

/// The `.ngt` text of `doc`, as `write_spec` describes.
pub fn write(doc: &Document) -> (s: String)
    ensures
        s@ == write_spec(doc@),
{
    let mut out: Vec<char> = Vec::new();
    if let Some(start) = &doc.start {
        push_str(&mut out, "!start ");
        proof {
            reveal_strlit("!start ");
        }
        let sv = chars_of(start.as_str());
        append_chars(&mut out, &sv);
        out.push('\n');
        out.push('\n');
        assert(out@ =~= start_block(doc@.start));
    } else {
        assert(out@ =~= start_block(doc@.start));
    }
    let ghost head = out@;
    let ghost cats = doc@.categories;
    let mut ci: usize = 0;
    while ci < doc.categories.len()
        invariant
            ci <= doc.categories.len(),
            cats == doc@.categories,
            out@ == head + category_lines(cats.take(ci as int)),
        decreases doc.categories.len() - ci,
    {
        let name = &doc.categories[ci].0;
        let entries = &doc.categories[ci].1;
        let ghost base = out@;
        let nv = chars_of(name.as_str());
        append_chars(&mut out, &nv);
        out.push(' ');
        out.push('=');
        out.push(' ');
        let ghost mid = out@;
        let ghost es = cats[ci as int].entries;
        assert(es == crate::model::entries_view(entries@));
        let mut ei: usize = 0;
        while ei < entries.len()
            invariant
                ei <= entries.len(),
                es == crate::model::entries_view(entries@),
                out@ == mid + join_entries(es.take(ei as int)),
            decreases entries.len() - ei,
        {
            assert(es.take(ei + 1).drop_last() =~= es.take(ei as int));
            if ei > 0 {
                out.push(',');
                out.push(' ');
            }
            push_entry(&mut out, &entries[ei]);
            ei = ei + 1;
            assert(out@ =~= mid + join_entries(es.take(ei as int)));
        }
        assert(es.take(entries.len() as int) =~= es);
        out.push('\n');
        assert(cats.take(ci + 1).drop_last() =~= cats.take(ci as int));
        ci = ci + 1;
        assert(out@ =~= head + category_lines(cats.take(ci as int)));
    }
    assert(cats.take(doc.categories.len() as int) =~= cats);
    string_of(&out)
}

} // verus!
