use namegen_convert::model::Entry;
use namegen_convert::ngt;
use namegen_convert::ngt::parse;

#[test]
fn trailing_comment_is_stripped() {
    let (doc, issues) = parse("first = Anna, Beth  # placeholder names\n").unwrap();
    assert!(issues.is_empty());
    assert_eq!(
        doc.categories,
        vec![(
            "first".to_string(),
            vec![Entry { text: "Anna".to_string(), weight: 1 }, Entry { text: "Beth".to_string(), weight: 1 }],
        )]
    );
}

#[test]
fn full_line_comment_is_ignored() {
    let (doc, issues) = parse("# just a note\nfirst = Anna\n").unwrap();
    assert!(issues.is_empty());
    assert_eq!(doc.categories.len(), 1);
}

#[test]
fn escaped_hash_is_kept_literal() {
    let (doc, issues) = parse("first = C\\# is a language # comment\n").unwrap();
    assert!(issues.is_empty());
    assert_eq!(doc.categories[0].1[0].text, "C# is a language");
}

#[test]
fn escaped_braces_pass_through_unchanged() {
    let (doc, issues) = parse("name = \\{literal\\}\n").unwrap();
    assert!(issues.is_empty());
    assert_eq!(doc.categories[0].1[0].text, "\\{literal\\}");
}

#[test]
fn literal_hash_round_trips_through_write() {
    let (doc, _) = parse("first = C\\#\n").unwrap();
    let written = ngt::write(&doc);
    let (reparsed, issues) = parse(&written).unwrap();
    assert!(issues.is_empty());
    assert_eq!(doc, reparsed);
}
