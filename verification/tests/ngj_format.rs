use namegen_convert::model::{Entry, Severity};
use namegen_convert::ngj;

fn messages(text: &str) -> Vec<String> {
    let (_, issues) = ngj::parse(text).unwrap();
    issues.into_iter().map(|i| i.message).collect()
}

fn fatal(text: &str) -> String {
    match ngj::parse(text) {
        Ok(_) => panic!("expected a fatal issue"),
        Err(i) => {
            assert_eq!(i.severity, Severity::Fatal);
            i.message
        }
    }
}

#[test]
fn ngj_weights_follow_the_number_value() {
    let text = r#"{"categories": {"w": [
        {"text": "a", "weight": 2.0},
        {"text": "b", "weight": 1e1},
        {"text": "c", "weight": 3},
        {"text": "d", "weight": 1e20},
        {"text": "e"}
    ]}}"#;
    let (doc, issues) = ngj::parse(text).unwrap();
    assert!(issues.is_empty());
    let weights: Vec<u32> = doc.categories[0].1.iter().map(|e| e.weight).collect();
    assert_eq!(weights, vec![2, 10, 3, u32::MAX, 1]);
}

#[test]
fn ngj_invalid_weights_default_to_one() {
    for w in ["0.5", "-1", "0", "\"2\"", "1.25e1"] {
        let text = format!("{{\"categories\": {{\"w\": [{{\"text\": \"a\", \"weight\": {}}}]}}}}", w);
        let (doc, issues) = ngj::parse(&text).unwrap();
        assert_eq!(doc.categories[0].1, vec![Entry { text: "a".to_string(), weight: 1 }]);
        assert_eq!(issues.len(), 1);
        assert_eq!(issues[0].message, "category 'w' has an invalid weight; defaulting to 1");
        assert_eq!(issues[0].severity, Severity::Semantic);
    }
}

#[test]
fn ngj_semantic_issues() {
    assert_eq!(
        messages(r#"{"start": 3, "categories": {}}"#),
        vec!["\"start\" must be a string; ignoring it"]
    );
    assert_eq!(
        messages(r#"{"extra": 1, "categories": {}}"#),
        vec!["unknown top-level key 'extra' was ignored"]
    );
    assert_eq!(
        messages(r#"{"categories": {"a": ["x"], "a": ["y"]}}"#),
        vec!["duplicate category 'a'; entries were merged"]
    );
    assert_eq!(
        messages(r#"{"categories": {"a": [{"text": "x", "color": "red"}]}}"#),
        vec!["category 'a' entry has unknown field 'color'"]
    );
    assert_eq!(
        messages(r#"{"categories": {"a": [{"weight": 2}]}}"#),
        vec!["category 'a' has an entry object without a \"text\" field; skipping it"]
    );
    assert_eq!(
        messages(r#"{"categories": {"a": [7]}}"#),
        vec!["category 'a' has an entry that is neither a string nor an object; skipping it"]
    );
}

#[test]
fn ngj_duplicate_categories_are_merged() {
    let (doc, _) = ngj::parse(r#"{"categories": {"a": ["x"], "b": [], "a": ["y"]}}"#).unwrap();
    assert_eq!(doc.categories.len(), 2);
    assert_eq!(doc.categories[0].0, "a");
    assert_eq!(doc.categories[0].1.len(), 2);
    assert_eq!(doc.categories[1].0, "b");
    assert!(doc.categories[1].1.is_empty());
}

#[test]
fn ngj_fatal_issues() {
    assert_eq!(fatal("[1]"), "top-level JSON value must be an object");
    assert_eq!(fatal(r#"{"categories": []}"#), "\"categories\" must be an object");
    assert_eq!(fatal(r#"{"categories": {"a": "x"}}"#), "category 'a' must be an array of entries");
    assert_eq!(fatal("{"), "expected string key at position 1");
}

#[test]
fn ngj_write_uses_bare_strings_for_weight_one() {
    let (doc, _) = ngj::parse(r#"{"start": "n", "categories": {"n": ["a", {"text": "b", "weight": 3}]}}"#).unwrap();
    assert_eq!(
        ngj::write(&doc),
        "{\n  \"start\": \"n\",\n  \"categories\": {\n    \"n\": [\n      \"a\",\n      {\n        \"text\": \"b\",\n        \"weight\": 3\n      }\n    ]\n  }\n}"
    );
}

#[test]
fn ngj_round_trip_keeps_every_weight_and_text() {
    let (doc, _) = ngj::parse(
        r#"{"categories": {"x": ["p\"q", {"text": "r", "weight": 4294967295}], "y": []}}"#,
    )
    .unwrap();
    let (again, issues) = ngj::parse(&ngj::write(&doc)).unwrap();
    assert!(issues.is_empty());
    assert_eq!(again, doc);
}
