use namegen_convert::model::{finalize, placeholders, Document, Entry, Issue, Severity};
use namegen_convert::ngt;

fn entry(text: &str, weight: u32) -> Entry {
    Entry { text: text.to_string(), weight }
}

fn checked(src: &str) -> (Document, Vec<Issue>) {
    let (mut doc, mut issues) = ngt::parse(src).unwrap();
    finalize(&mut doc, &mut issues);
    (doc, issues)
}

#[test]
fn add_category_appends_or_merges() {
    let mut doc = Document::default();
    assert!(!doc.add_category("a".to_string(), vec![entry("x", 1)]));
    assert!(!doc.add_category("b".to_string(), vec![]));
    assert!(doc.add_category("a".to_string(), vec![entry("y", 2)]));
    assert_eq!(doc.categories.len(), 2);
    assert_eq!(doc.categories[0].1, vec![entry("x", 1), entry("y", 2)]);
    assert!(doc.has_category("b"));
    assert!(!doc.has_category("c"));
}

#[test]
fn category_mut_edits_the_named_category() {
    let mut doc = Document::default();
    doc.add_category("a".to_string(), vec![entry("x", 1)]);
    doc.category_mut("a").unwrap().push(entry("z", 5));
    assert_eq!(doc.categories[0].1.len(), 2);
    assert!(doc.category_mut("missing").is_none());
}

#[test]
fn issue_constructors_set_the_severity() {
    let f = Issue::fatal("bad".to_string());
    assert_eq!(f.message, "bad");
    assert_eq!(f.severity, Severity::Fatal);
    let s = Issue::semantic("odd".to_string());
    assert_eq!(s.severity, Severity::Semantic);
}

#[test]
fn placeholders_lists_valid_names_in_order() {
    assert_eq!(placeholders("{a} and {b_2} and {a}"), vec!["a", "b_2", "a"]);
    assert_eq!(placeholders("{not valid} {} {ok}"), vec!["ok"]);
    assert_eq!(placeholders("\\{esc\\} {real}"), vec!["real"]);
    assert_eq!(placeholders("{caf\u{e9}}"), vec!["caf\u{e9}"]);
    assert!(placeholders("no braces {unclosed").is_empty());
}

#[test]
fn finalize_uses_name_when_start_is_missing() {
    let (doc, issues) = checked("first = A\nname = {first}\n");
    assert_eq!(doc.start.as_deref(), Some("name"));
    assert!(issues.is_empty());
}

#[test]
fn finalize_falls_back_to_the_first_category() {
    let (doc, issues) = checked("first = A\nother = {first}\n");
    assert_eq!(doc.start.as_deref(), Some("first"));
    assert_eq!(issues.len(), 1);
    assert_eq!(issues[0].message, "no start category specified; falling back to 'first'");
    assert_eq!(issues[0].severity, Severity::Semantic);
}

#[test]
fn finalize_reports_an_undefined_start() {
    let (doc, issues) = checked("!start nope\nfirst = A\n");
    assert_eq!(doc.start.as_deref(), Some("first"));
    assert_eq!(issues[0].message, "start category 'nope' is not defined");
    assert_eq!(issues[0].severity, Severity::Semantic);
}

#[test]
fn finalize_rejects_an_empty_document() {
    let (_, issues) = checked("# nothing here\n");
    assert_eq!(issues.len(), 1);
    assert_eq!(issues[0].message, "document has no categories");
    assert_eq!(issues[0].severity, Severity::Fatal);
}

#[test]
fn finalize_is_idempotent_on_a_checked_document() {
    let (mut doc, _) = checked("!start nope\na = {b} {c}\nb = x\n");
    let before = doc.clone();
    let mut issues = Vec::new();
    finalize(&mut doc, &mut issues);
    assert_eq!(doc, before);
    assert_eq!(issues.len(), 1);
    assert_eq!(issues[0].message, "category 'a' references undefined category '{c}'");
}

#[test]
fn ngt_line_issues() {
    let (_, issues) = ngt::parse("a = \n!start a\n!start b\na = x\n").unwrap();
    let messages: Vec<&str> = issues.iter().map(|i| i.message.as_str()).collect();
    assert_eq!(
        messages,
        vec![
            "line 1: category 'a' has no entries",
            "line 3: duplicate !start directive; using the last one",
            "line 4: duplicate category 'a'; entries were merged",
        ]
    );
    assert!(issues.iter().all(|i| i.severity == Severity::Semantic));
}

#[test]
fn ngt_fatal_lines() {
    assert_eq!(ngt::parse("!start   \n").unwrap_err().message, "line 1: !start requires a category name");
    assert_eq!(ngt::parse("ok = 1\nno equals\n").unwrap_err().message, "line 2: expected '<name> = <entries>'");
    assert_eq!(ngt::parse("a b = c\n").unwrap_err().message, "line 1: 'a b' is not a valid category name");
    assert_eq!(ngt::parse(" = c\n").unwrap_err().message, "line 1: '' is not a valid category name");
}

#[test]
fn ngt_names_may_use_any_letters() {
    let (doc, issues) = ngt::parse("caf\u{e9} = x\n\u{540d}\u{524d} = y\n_1 = z\n").unwrap();
    assert!(issues.is_empty());
    assert_eq!(doc.categories[0].0, "caf\u{e9}");
    assert_eq!(doc.categories[1].0, "\u{540d}\u{524d}");
}

#[test]
fn ngt_entries_and_weights() {
    let (doc, _) = ngt::parse("a = x:3, y:0, z:abc,  w , :4, q:99999999999\n").unwrap();
    assert_eq!(
        doc.categories[0].1,
        vec![entry("x", 3), entry("y:0", 1), entry("z:abc", 1), entry("w", 1), entry(":4", 1), entry("q:99999999999", 1)]
    );
}
