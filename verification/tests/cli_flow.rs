use namegen_convert::cli::{
    format_from_extension, load, parse_convert_args, parse_format, parse_sample_args,
    render_output, report_issues, sample_names, Command, Format,
};
use namegen_convert::model::{Issue, Severity};
use namegen_convert::ngj;
use namegen_convert::sample::Rng;

const NGT_BASIC: &str =
    "!start name\n\nfirst = Anna, Beth:2, Clara\nlast = Smith, Jones\nname = {first} {last}\n";

const NGJ_BASIC: &str = r#"{
  "start": "name",
  "categories": {
    "first": ["Anna", { "text": "Beth", "weight": 2 }, "Clara"],
    "last": ["Smith", "Jones"],
    "name": ["{first} {last}"]
  }
}"#;

fn args(list: &[&str]) -> Vec<String> {
    list.iter().map(|s| s.to_string()).collect()
}

fn usage_message(list: &[&str]) -> (String, bool) {
    match parse_convert_args(&args(list)) {
        Ok(_) => panic!("expected a usage error"),
        Err(e) => (e.message, e.show_help),
    }
}

fn sample_error(list: &[&str]) -> String {
    match parse_sample_args(&args(list)) {
        Ok(_) => panic!("expected a usage error"),
        Err(m) => m,
    }
}

#[test]
fn check_accepts_a_valid_grammar_and_writes_nothing() {
    match parse_convert_args(&args(&["--check", "grammar.ngt"])) {
        Ok(Command::Check { lenient, from, input }) => {
            assert!(!lenient);
            assert_eq!(from, Format::Ngt);
            assert_eq!(input, "grammar.ngt");
        }
        _ => panic!("expected a check command"),
    }
    let (lines, doc) = load(NGT_BASIC, Format::Ngt, false);
    assert!(lines.is_empty());
    assert!(doc.is_ok());
}

#[test]
fn check_rejects_an_undefined_placeholder_without_lenient() {
    let (lines, doc) = load("name = {missing}\n", Format::Ngt, false);
    assert_eq!(lines, vec!["error: category 'name' references undefined category '{missing}'"]);
    assert_eq!(doc.unwrap_err(), "1 issue(s) found; rerun with --lenient to convert anyway");
}

#[test]
fn check_with_lenient_accepts_an_undefined_placeholder() {
    match parse_convert_args(&args(&["--check", "--lenient", "g.ngt"])) {
        Ok(Command::Check { lenient, .. }) => assert!(lenient),
        _ => panic!("expected a check command"),
    }
    let (lines, doc) = load("name = {missing}\n", Format::Ngt, true);
    assert_eq!(lines, vec!["warning: category 'name' references undefined category '{missing}'"]);
    assert_eq!(doc.unwrap().start.as_deref(), Some("name"));
}

#[test]
fn check_rejects_a_second_positional_argument() {
    assert_eq!(
        usage_message(&["--check", "g.ngt", "extra.ngj"]),
        ("expected exactly one input path".to_string(), false)
    );
}

#[test]
fn sample_accepts_a_numeric_seed() {
    match parse_sample_args(&args(&["--seed", "42", "g.ngt"])) {
        Ok(a) => {
            assert_eq!(a.seed, Some(42));
            assert_eq!(a.count, 1);
            assert_eq!(a.from, Format::Ngt);
            assert!(!a.lenient);
            assert_eq!(a.input, "g.ngt");
        }
        Err(m) => panic!("unexpected error: {}", m),
    }
}

#[test]
fn sample_rejects_a_non_numeric_seed() {
    assert_eq!(sample_error(&["--seed", "not-a-number", "g.ngt"]), "'not-a-number' is not a valid seed");
}

#[test]
fn sample_argument_errors() {
    assert_eq!(sample_error(&["--seed"]), "--seed requires a number");
    assert_eq!(sample_error(&["--count"]), "--count requires a number");
    assert_eq!(sample_error(&["--count", "x", "g.ngt"]), "'x' is not a valid count");
    assert_eq!(sample_error(&["--count", "0", "g.ngt"]), "--count must be at least 1");
    assert_eq!(sample_error(&[]), "expected exactly one input path");
    assert_eq!(sample_error(&["g.dat"]), "cannot infer input format from 'g.dat'; pass --from");
    assert_eq!(sample_error(&["--from", "xml", "g"]), "unknown format 'xml'; expected 'ngt' or 'ngj'");
    match parse_sample_args(&args(&["--count", "5", "--lenient", "--from", "ngj", "g.dat"])) {
        Ok(a) => {
            assert_eq!(a.count, 5);
            assert!(a.lenient);
            assert_eq!(a.from, Format::Ngj);
            assert_eq!(a.seed, None);
        }
        Err(m) => panic!("unexpected error: {}", m),
    }
    match parse_sample_args(&args(&["--seed", "18446744073709551615", "g.ngj"])) {
        Ok(a) => assert_eq!(a.seed, Some(u64::MAX)),
        Err(m) => panic!("unexpected error: {}", m),
    }
    assert_eq!(
        sample_error(&["--seed", "18446744073709551616", "g.ngj"]),
        "'18446744073709551616' is not a valid seed"
    );
}

#[test]
fn convert_infers_formats_from_extension_and_writes_a_parseable_output() {
    match parse_convert_args(&args(&["in.ngt", "out.ngj"])) {
        Ok(Command::Convert { lenient, from, to, input, output }) => {
            assert!(!lenient);
            assert_eq!(from, Format::Ngt);
            assert_eq!(to, Format::Ngj);
            assert_eq!(input, "in.ngt");
            assert_eq!(output, "out.ngj");
        }
        _ => panic!("expected a conversion"),
    }
    let doc = load(NGT_BASIC, Format::Ngt, false).1.unwrap();
    let written = render_output(&doc, Format::Ngj);
    assert!(written.ends_with("}\n"));
    let (lines, again) = load(&written, Format::Ngj, false);
    assert!(lines.is_empty());
    assert_eq!(again.unwrap(), doc);
}

#[test]
fn convert_respects_from_and_to_overrides_for_unrecognized_extensions() {
    match parse_convert_args(&args(&["--from", "ngj", "--to", "ngt", "in.dat", "out.out"])) {
        Ok(Command::Convert { from, to, .. }) => {
            assert_eq!(from, Format::Ngj);
            assert_eq!(to, Format::Ngt);
        }
        _ => panic!("expected a conversion"),
    }
    let doc = load(NGJ_BASIC, Format::Ngj, false).1.unwrap();
    let written = render_output(&doc, Format::Ngt);
    assert_eq!(written, NGT_BASIC);
    assert_eq!(load(&written, Format::Ngt, false).1.unwrap(), doc);
}

#[test]
fn convert_rejects_an_undefined_placeholder_and_writes_nothing() {
    let (_, doc) = load("name = {missing}\n", Format::Ngt, false);
    assert!(doc.is_err());
}

#[test]
fn convert_with_lenient_merges_duplicate_categories_in_the_output() {
    let (lines, doc) = load("first = Anna\nfirst = Beth\nname = {first}\n", Format::Ngt, true);
    assert_eq!(lines, vec!["warning: line 2: duplicate category 'first'; entries were merged"]);
    let written = render_output(&doc.unwrap(), Format::Ngj);
    let (again, _) = ngj::parse(&written).unwrap();
    let first = again.categories.iter().find(|(name, _)| name == "first").map(|(_, e)| e).unwrap();
    assert_eq!(first.len(), 2);
}

#[test]
fn convert_argument_errors() {
    assert_eq!(
        usage_message(&["only.ngt"]),
        ("expected exactly one input path and one output path".to_string(), true)
    );
    assert_eq!(usage_message(&["--from"]), ("--from requires a value (ngt or ngj)".to_string(), false));
    assert_eq!(usage_message(&["--to"]), ("--to requires a value (ngt or ngj)".to_string(), false));
    assert_eq!(
        usage_message(&["--to", "yaml", "a.ngt", "b.ngj"]),
        ("unknown format 'yaml'; expected 'ngt' or 'ngj'".to_string(), false)
    );
    assert_eq!(
        usage_message(&["a.dat", "b.ngj"]),
        ("cannot infer input format from 'a.dat'; pass --from".to_string(), false)
    );
    assert_eq!(
        usage_message(&["a.ngt", "b"]),
        ("cannot infer output format from 'b'; pass --to".to_string(), false)
    );
    assert_eq!(
        usage_message(&["json", "out.ngj"]),
        ("cannot infer input format from 'json'; pass --from".to_string(), false)
    );
    assert!(matches!(parse_convert_args(&args(&["--help"])), Ok(Command::Help)));
    assert!(matches!(parse_convert_args(&args(&["a.ngt", "-h"])), Ok(Command::Help)));
}

#[test]
fn formats_by_name_and_extension() {
    assert_eq!(parse_format("ngt"), Ok(Format::Ngt));
    assert_eq!(parse_format("ngj"), Ok(Format::Ngj));
    assert_eq!(parse_format("NGT"), Err("unknown format 'NGT'; expected 'ngt' or 'ngj'".to_string()));
    assert_eq!(format_from_extension("a.ngt"), Some(Format::Ngt));
    assert_eq!(format_from_extension("dir.v2/a.txt"), Some(Format::Ngt));
    assert_eq!(format_from_extension("a.tar.json"), Some(Format::Ngj));
    assert_eq!(format_from_extension("a.ngj"), Some(Format::Ngj));
    assert_eq!(format_from_extension("a.NGJ"), None);
    assert_eq!(format_from_extension("ngt"), None);
    assert_eq!(format_from_extension("json"), None);
    assert_eq!(format_from_extension("dir.d/json"), None);
    assert_eq!(format_from_extension("a."), None);
}

#[test]
fn report_labels_follow_the_mode() {
    let issues = vec![
        Issue::semantic("a".to_string()),
        Issue::fatal("b".to_string()),
    ];
    let (lines, verdict) = report_issues(&issues, true);
    assert_eq!(lines, vec!["warning: a", "error: b"]);
    assert_eq!(verdict.unwrap_err(), "2 issue(s) found and cannot be bypassed with --lenient");
    let (lines, verdict) = report_issues(&issues, false);
    assert_eq!(lines, vec!["error: a", "error: b"]);
    assert_eq!(verdict.unwrap_err(), "2 issue(s) found and cannot be bypassed with --lenient");
    let only_semantic = vec![Issue::semantic("c".to_string())];
    assert!(report_issues(&only_semantic, true).1.is_ok());
    assert_eq!(
        report_issues(&only_semantic, false).1.unwrap_err(),
        "1 issue(s) found; rerun with --lenient to convert anyway"
    );
    let none: Vec<Issue> = Vec::new();
    let (lines, verdict) = report_issues(&none, false);
    assert!(lines.is_empty());
    assert!(verdict.is_ok());
    assert_eq!(issues[1].severity, Severity::Fatal);
}

#[test]
fn load_reports_a_fatal_reading_issue_alone() {
    let (lines, doc) = load("just words\n", Format::Ngt, true);
    assert!(lines.is_empty());
    assert_eq!(doc.unwrap_err(), "line 1: expected '<name> = <entries>'");
    let (lines, doc) = load("[]", Format::Ngj, true);
    assert!(lines.is_empty());
    assert_eq!(doc.unwrap_err(), "top-level JSON value must be an object");
}

#[test]
fn output_always_ends_with_a_line_break() {
    let doc = load("name = solo\n", Format::Ngt, false).1.unwrap();
    assert_eq!(render_output(&doc, Format::Ngt), "!start name\n\nname = solo\n");
    assert_eq!(
        render_output(&doc, Format::Ngj),
        "{\n  \"start\": \"name\",\n  \"categories\": {\n    \"name\": [\n      \"solo\"\n    ]\n  }\n}\n"
    );
}

#[test]
fn sample_names_stops_at_the_first_error() {
    let doc = load("first = Anna\nname = {first}\n", Format::Ngt, false).1.unwrap();
    let mut rng = Rng::from_seed(3);
    let (names, err) = sample_names(&doc, &mut rng, 3);
    assert_eq!(names, vec!["Anna", "Anna", "Anna"]);
    assert!(err.is_none());

    let cyclic = load("a = {b}\nb = {a}\nname = {a}\n", Format::Ngt, false).1.unwrap();
    let (names, err) = sample_names(&cyclic, &mut rng, 4);
    assert!(names.is_empty());
    assert!(err.unwrap().contains("recursion limit"));
}

#[test]
fn entropy_seeded_generator_samples() {
    let doc = load("first = Anna, Beth\nname = {first}\n", Format::Ngt, false).1.unwrap();
    let mut rng = Rng::from_entropy();
    let (names, err) = sample_names(&doc, &mut rng, 10);
    assert!(err.is_none());
    assert_eq!(names.len(), 10);
    assert!(names.iter().all(|n| n == "Anna" || n == "Beth"));
}
