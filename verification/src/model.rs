//! The document model shared by both file formats: an ordered list of named
//! categories, each holding weighted text entries that may reference other
//! categories with a `{name}` placeholder.

use vstd::prelude::*;
use crate::text::{
    append_chars, chars_of, find_char, find_char_from, is_ident, is_ident_range,
    lemma_find_char_bounds, push_str, str_eq, string_of,
};

verus! {

/// One weighted piece of text of a category.
#[derive(Debug, Clone, PartialEq)]
pub struct Entry {
    pub text: String,
    pub weight: u32,
}

/// A grammar: the optional start category and the categories in order.
#[derive(Debug, Clone, PartialEq, Default)]
pub struct Document {
    pub start: Option<String>,
    pub categories: Vec<(String, Vec<Entry>)>,
}

/// Fatal issues mean the input could not be understood at all and always
/// abort. Semantic issues (an unresolved reference, a duplicate category)
/// leave usable data that lenient mode accepts with a warning.
#[derive(Debug, Clone, Copy, PartialEq, Eq, Structural)]
pub enum Severity {
    Fatal,
    Semantic,
}

/// A problem found while reading or checking a document.
#[derive(Debug)]
pub struct Issue {
    pub message: String,
    pub severity: Severity,
}

/// The mathematical value of an entry.
#[verifier::ext_equal]
pub struct EntryM {
    pub text: Seq<char>,
    pub weight: u32,
}

/// The mathematical value of a category.
#[verifier::ext_equal]
pub struct CategoryM {
    pub name: Seq<char>,
    pub entries: Seq<EntryM>,
}

/// The mathematical value of a document.
#[verifier::ext_equal]
pub struct DocM {
    pub start: Option<Seq<char>>,
    pub categories: Seq<CategoryM>,
}

/// The mathematical value of an issue.
#[verifier::ext_equal]
pub struct IssueM {
    pub message: Seq<char>,
    pub severity: Severity,
}

impl View for Entry {
    type V = EntryM;

    open spec fn view(&self) -> EntryM {
        EntryM { text: self.text@, weight: self.weight }
    }
}

pub open spec fn entries_view(v: Seq<Entry>) -> Seq<EntryM> {
    v.map_values(|e: Entry| e@)
}

pub open spec fn category_view(c: (String, Vec<Entry>)) -> CategoryM {
    CategoryM { name: c.0@, entries: entries_view(c.1@) }
}

pub open spec fn categories_view(v: Seq<(String, Vec<Entry>)>) -> Seq<CategoryM> {
    v.map_values(|c: (String, Vec<Entry>)| category_view(c))
}

pub open spec fn opt_view(o: Option<String>) -> Option<Seq<char>> {
    match o {
        Some(s) => Some(s@),
        None => None,
    }
}

impl View for Document {
    type V = DocM;

    open spec fn view(&self) -> DocM {
        DocM { start: opt_view(self.start), categories: categories_view(self.categories@) }
    }
}

impl View for Issue {
    type V = IssueM;

    open spec fn view(&self) -> IssueM {
        IssueM { message: self.message@, severity: self.severity }
    }
}

pub open spec fn issues_view(v: Seq<Issue>) -> Seq<IssueM> {
    v.map_values(|i: Issue| i@)
}

/// The first index at or after `from` of a category called `name`.
pub open spec fn find_category_from(cats: Seq<CategoryM>, name: Seq<char>, from: int) -> Option<int>
    decreases cats.len() - from,
{
    if from < 0 || from >= cats.len() {
        None
    } else if cats[from].name == name {
        Some(from)
    } else {
        find_category_from(cats, name, from + 1)
    }
}

/// The index of the first category called `name`.
pub open spec fn find_category(cats: Seq<CategoryM>, name: Seq<char>) -> Option<int> {
    find_category_from(cats, name, 0)
}

/// Whether some category is called `name`.
pub open spec fn has_name(cats: Seq<CategoryM>, name: Seq<char>) -> bool {
    exists|i: int| 0 <= i < cats.len() && #[trigger] cats[i].name == name
}

pub proof fn lemma_find_category_from(cats: Seq<CategoryM>, name: Seq<char>, from: int)
    requires
        0 <= from,
    ensures
        find_category_from(cats, name, from) matches Some(i) ==> from <= i < cats.len()
            && cats[i].name == name && forall|k: int| from <= k < i ==> cats[k].name != name,
        find_category_from(cats, name, from) is None ==> forall|k: int|
            from <= k < cats.len() ==> cats[k].name != name,
    decreases cats.len() - from,
{
    if from < cats.len() && cats[from].name != name {
        lemma_find_category_from(cats, name, from + 1);
    }
}

/// `find_category` finds the first category of that name, and only fails when there is none.
pub proof fn lemma_find_category(cats: Seq<CategoryM>, name: Seq<char>)
    ensures
        find_category(cats, name) matches Some(i) ==> 0 <= i < cats.len() && cats[i].name == name
            && forall|k: int| 0 <= k < i ==> cats[k].name != name,
        find_category(cats, name) is Some <==> has_name(cats, name),
{
    lemma_find_category_from(cats, name, 0);
}

/// The categories after adding `entries` under `name`: merged into the first
/// category of that name if there is one, appended as a new category otherwise.
pub open spec fn add_category_spec(cats: Seq<CategoryM>, name: Seq<char>, entries: Seq<EntryM>) -> Seq<CategoryM> {
    match find_category(cats, name) {
        Some(i) => cats.update(i, CategoryM { name: cats[i].name, entries: cats[i].entries + entries }),
        None => cats.push(CategoryM { name, entries }),
    }
}

pub open spec fn fatal_m(message: Seq<char>) -> IssueM {
    IssueM { message, severity: Severity::Fatal }
}

pub open spec fn semantic_m(message: Seq<char>) -> IssueM {
    IssueM { message, severity: Severity::Semantic }
}

impl Issue {
    /// An issue that no mode can bypass.
    pub fn fatal(message: String) -> (i: Issue)
        ensures
            i@ == fatal_m(message@),
    {
        Issue { message, severity: Severity::Fatal }
    }

    /// An issue that lenient mode downgrades to a warning.
    pub fn semantic(message: String) -> (i: Issue)
        ensures
            i@ == semantic_m(message@),
    {
        Issue { message, severity: Severity::Semantic }
    }
}

/// A fatal issue with the message `m`.
pub fn fatal_of(m: &Vec<char>) -> (i: Issue)
    ensures
        i@ == fatal_m(m@),
{
    Issue::fatal(string_of(m))
}

/// A semantic issue with the message `m`.
pub fn semantic_of(m: &Vec<char>) -> (i: Issue)
    ensures
        i@ == semantic_m(m@),
{
    Issue::semantic(string_of(m))
}

impl Document {
    /// The index of the first category called `name`.
    pub fn find_index(&self, name: &str) -> (r: Option<usize>)
        ensures
            r matches Some(i) ==> find_category(self@.categories, name@) == Some(i as int),
            r is None ==> find_category(self@.categories, name@) is None,
    {
        let mut i: usize = 0;
        while i < self.categories.len()
            invariant
                i <= self.categories.len(),
                find_category(self@.categories, name@) == find_category_from(
                    self@.categories,
                    name@,
                    i as int,
                ),
            decreases self.categories.len() - i,
        {
            if str_eq(self.categories[i].0.as_str(), name) {
                return Some(i);
            }
            i = i + 1;
        }
        None
    }

    /// Whether a category called `name` exists.
    pub fn has_category(&self, name: &str) -> (b: bool)
        ensures
            b == has_name(self@.categories, name@),
    {
        proof {
            lemma_find_category(self@.categories, name@);
        }
        self.find_index(name).is_some()
    }

    /// The entries of the first category called `name`.
    pub fn category_mut(&mut self, name: &str) -> (r: Option<&mut Vec<Entry>>)
        ensures
            match find_category(old(self)@.categories, name@) {
                Some(i) => r matches Some(e) && *e == old(self).categories@[i].1
                    && final(self).start == old(self).start
                    && final(self).categories@ == old(self).categories@.update(
                    i,
                    (old(self).categories@[i].0, *final(e)),
                ),
                None => r is None && *final(self) == *old(self),
            },
    {
        proof {
            lemma_find_category(self@.categories, name@);
        }
        match self.find_index(name) {
            Some(i) => {
                let pair = &mut self.categories[i];
                Some(&mut pair.1)
            },
            None => None,
        }
    }

    /// Adds entries to an existing category (merging) or creates a new one.
    /// Returns whether the category already existed.
    pub fn add_category(&mut self, name: String, entries: Vec<Entry>) -> (merged: bool)
        ensures
            merged == has_name(old(self)@.categories, name@),
            final(self)@.start == old(self)@.start,
            final(self)@.categories == add_category_spec(
                old(self)@.categories,
                name@,
                entries_view(entries@),
            ),
    {
        proof {
            lemma_find_category(self@.categories, name@);
        }
        let ghost old_self = *self;
        let ghost idx = find_category(self@.categories, name@);
        let mut more = entries;
        match self.category_mut(name.as_str()) {
            Some(existing) => {
                existing.append(&mut more);
                proof {
                    let i = idx->0;
                    assert(entries_view(self.categories@[i].1@) =~= entries_view(
                        old_self.categories@[i].1@,
                    ) + entries_view(entries@));
                    assert(categories_view(self.categories@) =~= add_category_spec(
                        categories_view(old_self.categories@),
                        name@,
                        entries_view(entries@),
                    ));
                }
                true
            },
            None => {
                self.categories.push((name, more));
                proof {
                    assert(categories_view(self.categories@) =~= add_category_spec(
                        categories_view(old_self.categories@),
                        name@,
                        entries_view(entries@),
                    ));
                }
                false
            },
        }
    }
}


/// A piece of entry text: literal characters, or a `{...}` group holding the
/// text between the braces.
pub enum Segment {
    Lit(Seq<char>),
    Brace(Seq<char>),
}

/// The first segment of a non-empty text and how many characters it spans.
/// `\{` and `\}` stand for a literal brace; a `{` with no `}` after it makes
/// the rest of the text literal.
pub open spec fn first_segment(s: Seq<char>) -> (Segment, int) {
    if s.len() >= 2 && s[0] == '\\' && (s[1] == '{' || s[1] == '}') {
        (Segment::Lit(seq![s[1]]), 2)
    } else if s[0] == '{' {
        match find_char(s, '}', 1) {
            Some(e) => (Segment::Brace(s.subrange(1, e)), e + 1),
            None => (Segment::Lit(s), s.len() as int),
        }
    } else {
        (Segment::Lit(seq![s[0]]), 1)
    }
}

pub proof fn lemma_first_segment_len(s: Seq<char>)
    requires
        s.len() > 0,
    ensures
        0 < first_segment(s).1 <= s.len(),
{
    lemma_find_char_bounds(s, '}', 1);
}

/// The segments of a text, in order.
pub open spec fn segments(s: Seq<char>) -> Seq<Segment>
    decreases s.len(),
{
    if s.len() == 0 {
        seq![]
    } else {
        let n = first_segment(s).1;
        if 0 < n <= s.len() {
            seq![first_segment(s).0] + segments(s.skip(n))
        } else {
            seq![]
        }
    }
}

/// The identifiers named by `{...}` groups among `segs`.
pub open spec fn segment_names(segs: Seq<Segment>) -> Seq<Seq<char>>
    decreases segs.len(),
{
    if segs.len() == 0 {
        seq![]
    } else {
        let rest = segment_names(segs.drop_first());
        match segs[0] {
            Segment::Brace(n) => if is_ident(n) {
                seq![n] + rest
            } else {
                rest
            },
            Segment::Lit(_) => rest,
        }
    }
}

/// The `{identifier}` placeholders of an entry text, in order.
pub open spec fn placeholder_names(s: Seq<char>) -> Seq<Seq<char>> {
    segment_names(segments(s))
}

/// The segment described by an exec result `(is_brace, from, to)` over `v`.
pub open spec fn segment_at(v: Seq<char>, brace: bool, a: int, b: int) -> Segment {
    if brace {
        Segment::Brace(v.subrange(a, b))
    } else {
        Segment::Lit(v.subrange(a, b))
    }
}

/// Scans the segment that starts at `i`: whether it is a `{...}` group, the
/// range of its characters (the name, for a group) and where the next one starts.
pub fn next_segment(v: &Vec<char>, i: usize) -> (r: (bool, usize, usize, usize))
    requires
        i < v.len(),
    ensures
        r.1 <= r.2 <= v.len(),
        i < r.3 <= v.len(),
        first_segment(v@.skip(i as int)) == (segment_at(v@, r.0, r.1 as int, r.2 as int), r.3 - i),
{
    let ghost s = v@.skip(i as int);
    if i + 1 < v.len() && v[i] == '\\' && (v[i + 1] == '{' || v[i + 1] == '}') {
        assert(v@.subrange(i + 1, i + 2) =~= seq![s[1]]);
        (false, i + 1, i + 2, i + 2)
    } else if v[i] == '{' {
        match find_char_from(v, '}', i + 1) {
            Some(e) => {
                proof {
                    lemma_find_char_bounds(v@, '}', i + 1);
                    lemma_find_char_bounds(s, '}', 1);
                    match find_char(s, '}', 1) {
                        Some(e2) => {
                            assert(s[e - i] == '}');
                            if e2 < e - i {
                                assert(v@[i + e2] == '}');
                            }
                            if e2 > e - i {
                                assert(s[e - i] != '}');
                            }
                        },
                        None => {
                            assert(s[e - i] == '}');
                        },
                    }
                    assert(s.subrange(1, e - i) =~= v@.subrange(i + 1, e as int));
                }
                (true, i + 1, e, e + 1)
            },
            None => {
                proof {
                    lemma_find_char_bounds(v@, '}', i + 1);
                    lemma_find_char_bounds(s, '}', 1);
                    if let Some(e2) = find_char(s, '}', 1) {
                        assert(v@[i + e2] == '}');
                    }
                    assert(s =~= v@.subrange(i as int, v.len() as int));
                }
                (false, i, v.len(), v.len())
            },
        }
    } else {
        assert(v@.subrange(i as int, i + 1) =~= seq![s[0]]);
        (false, i, i + 1, i + 1)
    }
}

/// Unfolds `segments` once at position `i` of `v`.
pub proof fn lemma_segments_step(v: Seq<char>, i: int, n: int)
    requires
        0 <= i < v.len(),
        n == first_segment(v.skip(i)).1,
    ensures
        0 < n <= v.len() - i,
        segments(v.skip(i)) == seq![first_segment(v.skip(i)).0] + segments(v.skip(i + n)),
{
    lemma_first_segment_len(v.skip(i));
    assert(v.skip(i).skip(n) =~= v.skip(i + n));
}

/// Finds every `{identifier}` placeholder in a piece of entry text; escaped
/// braces (`\{`, `\}`) are literal text, not placeholders.
pub fn placeholders(text: &str) -> (r: Vec<&str>)
    ensures
        r@.map_values(|p: &str| p@) == placeholder_names(text@),
{
    let v = chars_of(text);
    let mut result: Vec<&str> = Vec::new();
    let mut i: usize = 0;
    assert(v@.skip(0) =~= v@);
    assert(result@.map_values(|p: &str| p@) + placeholder_names(v@) =~= placeholder_names(v@));
    while i < v.len()
        invariant
            v@ == text@,
            i <= v.len(),
            placeholder_names(v@) == result@.map_values(|p: &str| p@) + segment_names(
                segments(v@.skip(i as int)),
            ),
        decreases v.len() - i,
    {
        let (brace, a, b, next) = next_segment(&v, i);
        proof {
            lemma_segments_step(v@, i as int, next - i);
        }
        let ghost segs = segments(v@.skip(i as int));
        let ghost old_result = result@;
        assert(segs.drop_first() =~= segments(v@.skip(next as int)));
        if brace && is_ident_range(&v, a, b) {
            let name = text.substring_char(a, b);
            result.push(name);
            assert(result@.map_values(|p: &str| p@) =~= old_result.map_values(|p: &str| p@) + seq![
                v@.subrange(a as int, b as int),
            ]);
        }
        i = next;
    }
    assert(v@.skip(v.len() as int) =~= Seq::<char>::empty());
    assert(result@.map_values(|p: &str| p@) + segment_names(segments(Seq::<char>::empty()))
        =~= result@.map_values(|p: &str| p@));
    result
}


pub open spec fn msg_fallback_start(first: Seq<char>) -> Seq<char> {
    "no start category specified; falling back to '"@ + first + "'"@
}

pub open spec fn msg_no_categories() -> Seq<char> {
    "document has no categories"@
}

pub open spec fn msg_undefined_start(name: Seq<char>) -> Seq<char> {
    "start category '"@ + name + "' is not defined"@
}

pub open spec fn msg_undefined_ref(cat: Seq<char>, name: Seq<char>) -> Seq<char> {
    "category '"@ + cat + "' references undefined category '{"@ + name + "}'"@
}

/// One issue per name of `names` that no category of `all` defines.
pub open spec fn undefined_ref_issues(all: Seq<CategoryM>, cat: Seq<char>, names: Seq<Seq<char>>) -> Seq<IssueM>
    decreases names.len(),
{
    if names.len() == 0 {
        seq![]
    } else {
        undefined_ref_issues(all, cat, names.drop_last()) + if has_name(all, names.last()) {
            Seq::<IssueM>::empty()
        } else {
            seq![semantic_m(msg_undefined_ref(cat, names.last()))]
        }
    }
}

/// The undefined-reference issues of the entries of one category.
pub open spec fn entries_ref_issues(all: Seq<CategoryM>, cat: Seq<char>, entries: Seq<EntryM>) -> Seq<IssueM>
    decreases entries.len(),
{
    if entries.len() == 0 {
        seq![]
    } else {
        entries_ref_issues(all, cat, entries.drop_last()) + undefined_ref_issues(
            all,
            cat,
            placeholder_names(entries.last().text),
        )
    }
}

/// The undefined-reference issues of `cats`, in document order.
pub open spec fn reference_issues(all: Seq<CategoryM>, cats: Seq<CategoryM>) -> Seq<IssueM>
    decreases cats.len(),
{
    if cats.len() == 0 {
        seq![]
    } else {
        reference_issues(all, cats.drop_last()) + entries_ref_issues(
            all,
            cats.last().name,
            cats.last().entries,
        )
    }
}

/// The document after resolving its start category, and the issues found:
/// a missing start falls back to a category called `name` (silently) or to
/// the first category (with a semantic issue); with no category at all the
/// document gets a fatal issue and nothing else is checked. A start that names
/// no category is a semantic issue and falls back to the first category, if
/// there is one. Every placeholder that names no category is a semantic issue.
pub open spec fn finalize_spec(d: DocM) -> (DocM, Seq<IssueM>) {
    let refs = reference_issues(d.categories, d.categories);
    match d.start {
        None => if has_name(d.categories, "name"@) {
            (DocM { start: Some("name"@), categories: d.categories }, refs)
        } else if d.categories.len() > 0 {
            (
                DocM { start: Some(d.categories[0].name), categories: d.categories },
                seq![semantic_m(msg_fallback_start(d.categories[0].name))] + refs,
            )
        } else {
            (d, seq![fatal_m(msg_no_categories())])
        },
        Some(s) => if has_name(d.categories, s) {
            (d, refs)
        } else if d.categories.len() > 0 {
            (
                DocM { start: Some(d.categories[0].name), categories: d.categories },
                seq![semantic_m(msg_undefined_start(s))] + refs,
            )
        } else {
            (d, seq![semantic_m(msg_undefined_start(s))] + refs)
        },
    }
}

/// Appends the undefined-reference issues of `doc` to `issues`.
fn check_references(doc: &Document, issues: &mut Vec<Issue>)
    ensures
        issues_view(final(issues)@) == issues_view(old(issues)@) + reference_issues(
            doc@.categories,
            doc@.categories,
        ),
{
    let ghost all = doc@.categories;
    let mut ci: usize = 0;
    while ci < doc.categories.len()
        invariant
            all == doc@.categories,
            ci <= doc.categories.len(),
            issues_view(issues@) == issues_view(old(issues)@) + reference_issues(
                all,
                all.take(ci as int),
            ),
        decreases doc.categories.len() - ci,
    {
        let cat = &doc.categories[ci].0;
        let entries = &doc.categories[ci].1;
        let ghost cm = all[ci as int];
        assert(cm.entries == entries_view(entries@));
        let ghost base = issues_view(issues@);
        let mut ei: usize = 0;
        while ei < entries.len()
            invariant
                all == doc@.categories,
                ci < doc.categories.len(),
                cm == all[ci as int],
                cm.name == cat@,
                cm.entries == entries_view(entries@),
                ei <= entries.len(),
                issues_view(issues@) == base + entries_ref_issues(
                    all,
                    cm.name,
                    cm.entries.take(ei as int),
                ),
            decreases entries.len() - ei,
        {
            let names = placeholders(entries[ei].text.as_str());
            let ghost pn = names@.map_values(|p: &str| p@);
            let ghost base2 = issues_view(issues@);
            let mut k: usize = 0;
            while k < names.len()
                invariant
                    all == doc@.categories,
                    cm.name == cat@,
                    pn == names@.map_values(|p: &str| p@),
                    k <= names.len(),
                    issues_view(issues@) == base2 + undefined_ref_issues(
                        all,
                        cm.name,
                        pn.take(k as int),
                    ),
                decreases names.len() - k,
            {
                let ph = names[k];
                assert(pn.take(k + 1).drop_last() =~= pn.take(k as int));
                if !doc.has_category(ph) {
                    let mut m: Vec<char> = Vec::new();
                    push_str(&mut m, "category '");
                    let cv = chars_of(cat.as_str());
                    append_chars(&mut m, &cv);
                    push_str(&mut m, "' references undefined category '{");
                    let pv = chars_of(ph);
                    append_chars(&mut m, &pv);
                    push_str(&mut m, "}'");
                    assert(m@ =~= msg_undefined_ref(cm.name, pn[k as int]));
                    let ghost before = issues@;
                    issues.push(semantic_of(&m));
                    assert(issues_view(issues@) =~= issues_view(before) + seq![
                        semantic_m(msg_undefined_ref(cm.name, pn[k as int])),
                    ]);
                } else {
                }
                k = k + 1;
                assert(issues_view(issues@) =~= base2 + undefined_ref_issues(
                    all,
                    cm.name,
                    pn.take(k as int),
                ));
            }
            assert(pn.take(names.len() as int) =~= pn);
            assert(cm.entries.take(ei + 1).drop_last() =~= cm.entries.take(ei as int));
            ei = ei + 1;
            assert(issues_view(issues@) =~= base + entries_ref_issues(
                all,
                cm.name,
                cm.entries.take(ei as int),
            ));
        }
        assert(cm.entries.take(entries.len() as int) =~= cm.entries);
        assert(all.take(ci + 1).drop_last() =~= all.take(ci as int));
        ci = ci + 1;
        assert(issues_view(issues@) =~= issues_view(old(issues)@) + reference_issues(
            all,
            all.take(ci as int),
        ));
    }
    assert(all.take(doc.categories.len() as int) =~= all);
}

/// Resolves the start category and checks every placeholder reference, as
/// `finalize_spec` describes; the issues found are appended to `issues`.
pub fn finalize(doc: &mut Document, issues: &mut Vec<Issue>)
    ensures
        final(doc)@ == finalize_spec(old(doc)@).0,
        issues_view(final(issues)@) == issues_view(old(issues)@) + finalize_spec(old(doc)@).1,
{
    let ghost d = doc@;
    if doc.start.is_none() {
        if doc.has_category("name") {
            doc.start = Some(String::from_str("name"));
        } else if doc.categories.len() > 0 {
            let first = doc.categories[0].0.clone();
            let mut m: Vec<char> = Vec::new();
            push_str(&mut m, "no start category specified; falling back to '");
            let fv = chars_of(first.as_str());
            append_chars(&mut m, &fv);
            push_str(&mut m, "'");
            assert(m@ =~= msg_fallback_start(d.categories[0].name));
            issues.push(semantic_of(&m));
            doc.start = Some(first);
        } else {
            let mut m: Vec<char> = Vec::new();
            push_str(&mut m, "document has no categories");
            let ghost before = issues@;
            issues.push(fatal_of(&m));
            assert(issues_view(issues@) =~= issues_view(before) + seq![fatal_m(msg_no_categories())]);
            return;
        }
    } else {
        let name = doc.start.as_ref().unwrap();
        if !doc.has_category(name.as_str()) {
            let mut m: Vec<char> = Vec::new();
            push_str(&mut m, "start category '");
            let nv = chars_of(name.as_str());
            append_chars(&mut m, &nv);
            push_str(&mut m, "' is not defined");
            assert(m@ =~= msg_undefined_start(d.start->0));
            issues.push(semantic_of(&m));
            if doc.categories.len() > 0 {
                let first = doc.categories[0].0.clone();
                doc.start = Some(first);
            }
        }
    }
    let ghost mid = issues_view(issues@);
    check_references(doc, issues);
    assert(doc@.categories == d.categories);
    assert(issues_view(issues@) =~= issues_view(old(issues)@) + finalize_spec(d).1);
}


/// Whether the start category resolves: it names a category, or it is
/// missing and a category called `name` exists.
pub open spec fn start_resolves(d: DocM) -> bool {
    match d.start {
        Some(s) => has_name(d.categories, s),
        None => has_name(d.categories, "name"@),
    }
}

/// Whether every placeholder of every entry names a category.
pub open spec fn refs_defined(d: DocM) -> bool {
    forall|c: int, e: int, k: int|
        0 <= c < d.categories.len() && 0 <= e < d.categories[c].entries.len() && 0 <= k
            < placeholder_names(d.categories[c].entries[e].text).len() ==> has_name(
            d.categories,
            #[trigger] placeholder_names(d.categories[c].entries[e].text)[k],
        )
}

proof fn lemma_undefined_ref_issues_empty(all: Seq<CategoryM>, cat: Seq<char>, names: Seq<Seq<char>>)
    ensures
        undefined_ref_issues(all, cat, names).len() == 0 <==> forall|k: int|
            0 <= k < names.len() ==> has_name(all, #[trigger] names[k]),
    decreases names.len(),
{
    if names.len() > 0 {
        lemma_undefined_ref_issues_empty(all, cat, names.drop_last());
        if forall|k: int| 0 <= k < names.len() ==> has_name(all, #[trigger] names[k]) {
            assert forall|k: int| 0 <= k < names.drop_last().len() implies has_name(
                all,
                #[trigger] names.drop_last()[k],
            ) by {
                assert(names.drop_last()[k] == names[k]);
            }
        }
        if undefined_ref_issues(all, cat, names).len() == 0 {
            assert forall|k: int| 0 <= k < names.len() implies has_name(all, #[trigger] names[k]) by {
                if k < names.len() - 1 {
                    assert(names.drop_last()[k] == names[k]);
                }
            }
        }
    }
}

proof fn lemma_entries_ref_issues_empty(all: Seq<CategoryM>, cat: Seq<char>, es: Seq<EntryM>)
    ensures
        entries_ref_issues(all, cat, es).len() == 0 <==> forall|e: int, k: int|
            0 <= e < es.len() && 0 <= k < placeholder_names(es[e].text).len() ==> has_name(
                all,
                #[trigger] placeholder_names(es[e].text)[k],
            ),
    decreases es.len(),
{
    if es.len() > 0 {
        lemma_entries_ref_issues_empty(all, cat, es.drop_last());
        lemma_undefined_ref_issues_empty(all, cat, placeholder_names(es.last().text));
        if entries_ref_issues(all, cat, es).len() == 0 {
            assert forall|e: int, k: int|
                0 <= e < es.len() && 0 <= k < placeholder_names(es[e].text).len() implies has_name(
                all,
                #[trigger] placeholder_names(es[e].text)[k],
            ) by {
                if e < es.len() - 1 {
                    assert(es.drop_last()[e] == es[e]);
                }
            }
        }
        if forall|e: int, k: int|
            0 <= e < es.len() && 0 <= k < placeholder_names(es[e].text).len() ==> has_name(
                all,
                #[trigger] placeholder_names(es[e].text)[k],
            ) {
            assert forall|e: int, k: int|
                0 <= e < es.drop_last().len() && 0 <= k < placeholder_names(
                    es.drop_last()[e].text,
                ).len() implies has_name(all, #[trigger] placeholder_names(es.drop_last()[e].text)[k]) by {
                assert(es.drop_last()[e] == es[e]);
            }
            assert forall|k: int| 0 <= k < placeholder_names(es.last().text).len() implies has_name(
                all,
                #[trigger] placeholder_names(es.last().text)[k],
            ) by {
                assert(es.last() == es[es.len() - 1]);
            }
        }
    }
}

proof fn lemma_reference_issues_empty(all: Seq<CategoryM>, cats: Seq<CategoryM>)
    ensures
        reference_issues(all, cats).len() == 0 <==> forall|c: int, e: int, k: int|
            0 <= c < cats.len() && 0 <= e < cats[c].entries.len() && 0 <= k < placeholder_names(
                cats[c].entries[e].text,
            ).len() ==> has_name(all, #[trigger] placeholder_names(cats[c].entries[e].text)[k]),
    decreases cats.len(),
{
    if cats.len() > 0 {
        let init = cats.drop_last();
        let last = cats.last();
        lemma_reference_issues_empty(all, init);
        lemma_entries_ref_issues_empty(all, last.name, last.entries);
        if reference_issues(all, cats).len() == 0 {
            assert forall|c: int, e: int, k: int|
                0 <= c < cats.len() && 0 <= e < cats[c].entries.len() && 0 <= k < placeholder_names(
                    cats[c].entries[e].text,
                ).len() implies has_name(all, #[trigger] placeholder_names(cats[c].entries[e].text)[k]) by {
                if c < cats.len() - 1 {
                    assert(init[c] == cats[c]);
                }
            }
        }
        if forall|c: int, e: int, k: int|
            0 <= c < cats.len() && 0 <= e < cats[c].entries.len() && 0 <= k < placeholder_names(
                cats[c].entries[e].text,
            ).len() ==> has_name(all, #[trigger] placeholder_names(cats[c].entries[e].text)[k]) {
            assert forall|c: int, e: int, k: int|
                0 <= c < init.len() && 0 <= e < init[c].entries.len() && 0 <= k < placeholder_names(
                    init[c].entries[e].text,
                ).len() implies has_name(all, #[trigger] placeholder_names(init[c].entries[e].text)[k]) by {
                assert(init[c] == cats[c]);
            }
            assert forall|e: int, k: int|
                0 <= e < last.entries.len() && 0 <= k < placeholder_names(last.entries[e].text).len()
                    implies has_name(all, #[trigger] placeholder_names(last.entries[e].text)[k]) by {
                assert(last == cats[cats.len() - 1]);
            }
        }
    }
}

/// Strict checking: the checks find nothing to report exactly when the
/// start category resolves and every placeholder names a category; the
/// document then starts at a category that exists.
pub proof fn lemma_finalize_clean(d: DocM)
    ensures
        finalize_spec(d).1.len() == 0 <==> start_resolves(d) && refs_defined(d),
        finalize_spec(d).1.len() == 0 ==> (finalize_spec(d).0.start matches Some(s) && has_name(
            d.categories,
            s,
        ) && finalize_spec(d).0.categories == d.categories),
{
    lemma_reference_issues_empty(d.categories, d.categories);
}

/// The checks settle the start category once and for all: checking a
/// checked document again leaves it as it is.
pub proof fn lemma_finalize_idempotent(d: DocM)
    ensures
        finalize_spec(finalize_spec(d).0).0 == finalize_spec(d).0,
{
    lemma_find_category(d.categories, "name"@);
    if d.categories.len() > 0 {
        assert(has_name(d.categories, d.categories[0].name));
    }
}

} // verus!
