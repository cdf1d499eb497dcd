use namegen_convert::model::{finalize, Document};
use namegen_convert::ngt;
use namegen_convert::sample::{sample, Rng};

fn doc(src: &str) -> Document {
    let (mut doc, mut issues) = ngt::parse(src).expect("valid ngt fixture");
    finalize(&mut doc, &mut issues);
    doc
}

#[test]
fn expands_placeholders_recursively() {
    let doc = doc("first = Anna\nlast = Smith\nname = {first} {last}\n");
    let mut rng = Rng::from_seed(1);
    assert_eq!(sample(&doc, &mut rng).unwrap(), "Anna Smith");
}

#[test]
fn same_seed_is_reproducible() {
    let doc = doc("first = Anna, Beth, Clara, Dana\nname = {first}\n");
    let mut a = Rng::from_seed(42);
    let mut b = Rng::from_seed(42);
    let mut results_a = Vec::new();
    let mut results_b = Vec::new();
    for _ in 0..20 {
        results_a.push(sample(&doc, &mut a).unwrap());
        results_b.push(sample(&doc, &mut b).unwrap());
    }
    assert_eq!(results_a, results_b);
}

#[test]
fn only_defined_entries_are_selected() {
    let doc = doc("first = Rare:1, Common:1000\nname = {first}\n");
    let mut rng = Rng::from_seed(7);
    for _ in 0..50 {
        let result = sample(&doc, &mut rng).unwrap();
        assert!(result == "Rare" || result == "Common");
    }
}

#[test]
fn cyclic_reference_is_rejected() {
    let doc = doc("a = {b}\nb = {a}\nname = {a}\n");
    let mut rng = Rng::from_seed(1);
    let err = sample(&doc, &mut rng).unwrap_err();
    assert!(err.contains("recursion limit"), "unexpected error: {}", err);
}

#[test]
fn unresolved_placeholder_is_left_literal() {
    let doc = doc("name = hello {ghost}\n");
    let mut rng = Rng::from_seed(1);
    assert_eq!(sample(&doc, &mut rng).unwrap(), "hello {ghost}");
}

#[test]
fn escaped_braces_are_kept_literal() {
    let doc = doc("name = \\{5\\}\n");
    let mut rng = Rng::from_seed(1);
    assert_eq!(sample(&doc, &mut rng).unwrap(), "{5}");
}

#[test]
fn escaped_brace_next_to_a_real_placeholder_only_escapes_itself() {
    let doc = doc("first = Anna\nname = \\{first\\} {first}\n");
    let mut rng = Rng::from_seed(1);
    assert_eq!(sample(&doc, &mut rng).unwrap(), "{first} Anna");
}

#[test]
fn missing_start_category_is_an_error() {
    let mut doc = Document::default();
    doc.start = None;
    let mut rng = Rng::from_seed(1);
    assert!(sample(&doc, &mut rng).is_err());
}
