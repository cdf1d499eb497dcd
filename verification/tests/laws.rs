use namegen_convert::cli::{load, render_output, Format};
use namegen_convert::model::{finalize, Document, Entry};
use namegen_convert::sample::{sample, Rng};
use namegen_convert::{ngj, ngt};

fn entry(text: &str, weight: u32) -> Entry {
    Entry { text: text.to_string(), weight }
}

fn grammar() -> Document {
    Document {
        start: Some("name".to_string()),
        categories: vec![
            ("first".to_string(), vec![entry("C# fan", 3), entry("\\{x\\}", 1), entry("a:b", 2)]),
            ("last".to_string(), vec![entry("O'Neil \"Q\"", 4294967295)]),
            ("name".to_string(), vec![entry("{first} {last}", 1)]),
        ],
    }
}

#[test]
fn ngt_text_reads_back_as_the_document_written() {
    let doc = grammar();
    let (again, issues) = ngt::parse(&ngt::write(&doc)).unwrap();
    assert!(issues.is_empty());
    assert_eq!(again, doc);
}

#[test]
fn ngj_text_reads_back_as_the_document_written() {
    let mut doc = grammar();
    doc.categories.push(("empty \u{e9}\t\"".to_string(), vec![]));
    doc.start = None;
    let (again, issues) = ngj::parse(&ngj::write(&doc)).unwrap();
    assert!(issues.is_empty());
    assert_eq!(again, doc);
}

#[test]
fn converted_output_reloads_unchanged_in_both_formats() {
    let doc = grammar();
    for to in [Format::Ngt, Format::Ngj] {
        for lenient in [false, true] {
            let (lines, again) = load(&render_output(&doc, to), to, lenient);
            assert!(lines.is_empty());
            assert_eq!(again.unwrap(), doc);
        }
    }
}

#[test]
fn a_clean_document_checks_without_issues() {
    let mut doc = grammar();
    let mut issues = Vec::new();
    finalize(&mut doc, &mut issues);
    assert!(issues.is_empty());
    assert_eq!(doc, grammar());
}

#[test]
fn weighted_picks_stay_inside_the_category() {
    let doc = Document {
        start: Some("n".to_string()),
        categories: vec![("n".to_string(), vec![entry("x", 1), entry("y", 5), entry("z", 2)])],
    };
    let mut rng = Rng::from_seed(99);
    let mut seen = Vec::new();
    for _ in 0..200 {
        let s = sample(&doc, &mut rng).unwrap();
        assert!(s == "x" || s == "y" || s == "z");
        if !seen.contains(&s) {
            seen.push(s);
        }
    }
    assert_eq!(seen.len(), 3);
}

#[test]
fn sampling_is_a_function_of_the_seed() {
    let doc = grammar();
    let first: Vec<String> = {
        let mut rng = Rng::from_seed(0);
        (0..5).map(|_| sample(&doc, &mut rng).unwrap()).collect()
    };
    let mut rng = Rng::from_seed(0x9E37_79B9_7F4A_7C15);
    let second: Vec<String> = (0..5).map(|_| sample(&doc, &mut rng).unwrap()).collect();
    assert_eq!(first, second);
}

#[test]
fn unreached_categories_do_not_stop_sampling() {
    let doc = Document {
        start: Some("name".to_string()),
        categories: vec![
            ("name".to_string(), vec![entry("plain \\b", 1)]),
            ("unused".to_string(), vec![entry("x", u32::MAX), entry("y", u32::MAX)]),
            ("zero".to_string(), vec![entry("z", 0)]),
        ],
    };
    let mut rng = Rng::from_seed(5);
    assert_eq!(sample(&doc, &mut rng).unwrap(), "plain \\b");
}

#[test]
fn a_reached_category_whose_weights_do_not_fit_is_an_error() {
    let over = Document {
        start: Some("name".to_string()),
        categories: vec![("name".to_string(), vec![entry("x", u32::MAX), entry("y", 1)])],
    };
    let mut rng = Rng::from_seed(5);
    assert_eq!(
        sample(&over, &mut rng).unwrap_err(),
        "category 'name' has a total weight of 0 or more than 4294967295"
    );
    let zero = Document {
        start: Some("name".to_string()),
        categories: vec![("name".to_string(), vec![entry("{inner}", 1)]), ("inner".to_string(), vec![entry("z", 0)])],
    };
    assert_eq!(
        sample(&zero, &mut rng).unwrap_err(),
        "category 'inner' has a total weight of 0 or more than 4294967295"
    );
}

#[test]
fn ngt_text_read_written_and_read_again_is_unchanged() {
    let (doc, _) = ngt::parse("!start n  # the start\n\nn = a:2 , b\\#c, {m}:7\nm =\nn = x:0\n").unwrap();
    let (again, _) = ngt::parse(&ngt::write(&doc)).unwrap();
    assert_eq!(again, doc);
}
