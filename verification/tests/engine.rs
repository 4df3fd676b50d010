use agent_html_lint::engine::{
    TokenEvent, lint_bytes, lint_events, report_from_results, report_without_inputs,
};
use agent_html_lint::model::{Diagnostic, FileReport, OperationalError, RuleSet};

#[test]
fn reports_exact_missing_alt_span() {
    let html = b"<!doctype html>\n<html lang=en><img src=x></html>";
    let report = lint_bytes("test.html".into(), html, RuleSet::common(), 100);
    assert_eq!(report.diagnostics.len(), 1);
    let diagnostic = &report.diagnostics[0];
    assert_eq!(diagnostic.rule, "img-alt");
    assert_eq!(
        &html[diagnostic.byte_start..diagnostic.byte_end],
        b"<img src=x>"
    );
    assert_eq!((diagnostic.line, diagnostic.column), (2, 15));
}

#[test]
fn clean_common_profile_has_no_findings() {
    let html = b"<!doctype html><html lang=en><img src=x alt='x'></html>";
    let report = lint_bytes("test.html".into(), html, RuleSet::common(), 100);
    assert!(report.diagnostics.is_empty());
}

#[test]
fn common_profile_respects_script_data_state() {
    let html = br#"<!doctype html><html lang=en><script>const template = "<img src=x>";</script><img src=x alt=x></html>"#;
    let report = lint_bytes("test.html".into(), html, RuleSet::common(), 100);
    assert!(report.diagnostics.is_empty());
}

#[test]
fn common_profile_normalizes_ascii_case() {
    let html = b"<!doctype html><HTML lang=en><IMG src=x ALT=x></HTML>";
    let report = lint_bytes("test.html".into(), html, RuleSet::common(), 100);
    assert!(report.diagnostics.is_empty());
}

#[test]
fn all_rules_include_tokenizer_errors() {
    let html = b"<!doctype html><html lang=en>\0</html>";
    let report = lint_bytes("test.html".into(), html, RuleSet::all(), 100);
    assert!(
        report
            .diagnostics
            .iter()
            .any(|diagnostic| diagnostic.rule == "parse-error")
    );
}

#[test]
fn all_rules_find_missing_attributes_and_doctype() {
    let html = b"<html><button>Save</button><iframe></iframe><img>";
    let report = lint_bytes("test.html".into(), html, RuleSet::all(), 100);
    let rules: Vec<_> = report
        .diagnostics
        .iter()
        .map(|diagnostic| diagnostic.rule)
        .collect();
    assert!(rules.contains(&"doctype-html"));
    assert!(rules.contains(&"html-lang"));
    assert!(rules.contains(&"button-type"));
    assert!(rules.contains(&"iframe-title"));
    assert!(rules.contains(&"img-alt"));
}

#[test]
fn diagnostic_cap_is_explicit() {
    let report = lint_bytes("test.html".into(), b"<img><img><img>", RuleSet::common(), 2);
    assert_eq!(report.diagnostics.len(), 2);
    assert!(report.truncated);
}

#[test]
fn findings_are_sorted_by_start_and_located() {
    let html = b"<html>\n<img>\n  <button>x</button>";
    let report = lint_bytes("page.html".into(), html, RuleSet::all(), 100);
    let found: Vec<_> = report
        .diagnostics
        .iter()
        .map(|d| (d.rule, d.byte_start, d.byte_end, d.line, d.column))
        .collect();
    assert_eq!(
        found,
        vec![
            ("html-lang", 0, 6, 1, 1),
            ("doctype-html", 0, 0, 1, 1),
            ("img-alt", 7, 12, 2, 1),
            ("button-type", 15, 23, 3, 3),
        ]
    );
    assert_eq!(report.path, "page.html");
    assert_eq!(report.bytes, html.len() as u64);
    assert!(!report.truncated);
    let doctype = &report.diagnostics[1];
    assert_eq!(doctype.severity, "error");
    assert_eq!(doctype.message, "Document must begin with an HTML doctype");
    assert_eq!(doctype.help, Some("Add <!doctype html> before the html element."));
}

#[test]
fn cap_keeps_the_first_findings_met() {
    // The doctype finding is met last, so a cap of one keeps the first image.
    let report = lint_bytes("t".into(), b"<img>\n<img>", RuleSet::all(), 1);
    assert_eq!(report.diagnostics.len(), 1);
    assert_eq!(report.diagnostics[0].rule, "img-alt");
    assert_eq!(report.diagnostics[0].byte_start, 0);
    assert!(report.truncated);
    let none = lint_bytes("t".into(), b"<img>", RuleSet::all(), 0);
    assert!(none.diagnostics.is_empty());
    assert!(none.truncated);
}

#[test]
fn rules_left_out_report_nothing() {
    let html = b"<html><button></button><iframe></iframe><img>\0";
    let report = lint_bytes("t".into(), html, RuleSet::parse("iframe-title").unwrap(), 100);
    let rules: Vec<_> = report.diagnostics.iter().map(|d| d.rule).collect();
    assert_eq!(rules, vec!["iframe-title"]);
}

#[test]
fn doctype_name_is_matched_without_case() {
    let report = lint_bytes("t".into(), b"<!DOCTYPE HTML><html lang=en></html>", RuleSet::all(), 100);
    assert!(report.diagnostics.is_empty());
    let report = lint_bytes("t".into(), b"<!doctype svg><html lang=en></html>", RuleSet::all(), 100);
    assert_eq!(report.diagnostics.len(), 1);
    assert_eq!(report.diagnostics[0].rule, "doctype-html");
}

#[test]
fn parse_error_message_names_the_error() {
    let report = lint_bytes("t".into(), b"<!doctype html><html lang=en>\0</html>", RuleSet::all(), 100);
    let error = report.diagnostics.iter().find(|d| d.rule == "parse-error").unwrap();
    assert_eq!(error.message, "HTML tokenizer error: UnexpectedNullCharacter");
    assert_eq!(error.help, None);
}

#[test]
fn events_are_linted_without_the_tokenizer() {
    let events = vec![
        TokenEvent::OpenStartTag { name: b"img".to_vec(), start: 3 },
        TokenEvent::AttributeName { name: b"src".to_vec() },
        TokenEvent::CloseStartTag { end: 9 },
        TokenEvent::OpenStartTag { name: b"button".to_vec(), start: 10 },
        TokenEvent::AttributeName { name: b"type".to_vec() },
        TokenEvent::CloseStartTag { end: 20 },
        TokenEvent::Error { code: "EofInTag".to_string(), start: 21, end: 21 },
        TokenEvent::Other,
    ];
    let input = b"ab\ncdefghijklmnopqrstuvwxyz";
    let report = lint_events("e".into(), input, &events, RuleSet::all(), 10);
    let found: Vec<_> = report
        .diagnostics
        .iter()
        .map(|d| (d.rule, d.byte_start, d.byte_end, d.line, d.column))
        .collect();
    assert_eq!(
        found,
        vec![
            ("doctype-html", 0, 0, 1, 1),
            ("img-alt", 3, 9, 2, 1),
            ("parse-error", 21, 21, 2, 19),
        ]
    );
    assert_eq!(report.diagnostics[2].message, "HTML tokenizer error: EofInTag");
}

fn file(path: &str, bytes: u64) -> FileReport {
    FileReport { path: path.to_string(), bytes, diagnostics: Vec::new(), truncated: false }
}

fn error(path: &str) -> OperationalError {
    OperationalError { path: Some(path.to_string()), message: "unreadable".to_string() }
}

#[test]
fn run_report_sorts_files_and_keeps_errors_in_order() {
    let report = report_from_results(
        vec![error("first")],
        vec![Ok(file("b.html", 2)), Err(error("second")), Ok(file("a.html", 1)), Ok(file("B.html", 4))],
    );
    let paths: Vec<_> = report.files.iter().map(|f| f.path.as_str()).collect();
    assert_eq!(paths, vec!["B.html", "a.html", "b.html"]);
    let errors: Vec<_> = report.errors.iter().map(|e| e.path.clone().unwrap()).collect();
    assert_eq!(errors, vec!["first", "second"]);
    assert_eq!(report.summary.bytes, 7);
    assert_eq!(report.status, "error");
}

#[test]
fn run_without_inputs_says_so() {
    let report = report_without_inputs(Vec::new());
    assert_eq!(report.errors.len(), 1);
    assert_eq!(report.errors[0].message, "no HTML files found");
    assert_eq!(report.exit_code(), 2);
    let report = report_without_inputs(vec![error("missing")]);
    assert_eq!(report.errors.len(), 1);
    assert_eq!(report.errors[0].path.as_deref(), Some("missing"));
}

#[test]
fn fewer_rules_only_drop_findings() {
    let html = b"<html>\n<button>x</button><iframe></iframe><img>\0<img alt=''>";
    let wide = lint_bytes("t".into(), html, RuleSet::all(), 100);
    let narrow_rules = RuleSet::parse("button-type,img-alt,parse-error").unwrap();
    let narrow = lint_bytes("t".into(), html, narrow_rules, 100);
    let kept: Vec<_> = wide
        .diagnostics
        .iter()
        .filter(|d| ["button-type", "img-alt", "parse-error"].contains(&d.rule))
        .map(|d| (d.rule, d.byte_start, d.byte_end, d.message.clone()))
        .collect();
    let got: Vec<_> = narrow
        .diagnostics
        .iter()
        .map(|d| (d.rule, d.byte_start, d.byte_end, d.message.clone()))
        .collect();
    assert_eq!(got, kept);
    assert!(got.len() >= 3);
    assert!(wide.diagnostics.len() > got.len());
}

#[test]
fn caps_beyond_the_findings_change_nothing() {
    let html = b"<html><img src=a><button>b</button><iframe src=c></iframe><img src=d></html>";
    let uncapped = lint_bytes("t.html".into(), html, RuleSet::all(), usize::MAX);
    let n = uncapped.diagnostics.len();
    assert_eq!(n, 6);
    for m in 0..10 {
        let capped = lint_bytes("t.html".into(), html, RuleSet::all(), m);
        assert_eq!(capped.diagnostics.len(), m.min(n));
        assert_eq!(capped.truncated, n > m);
        if m >= n {
            assert_eq!(summary(&capped.diagnostics), summary(&uncapped.diagnostics));
        }
    }
}

#[test]
fn common_profile_finds_the_same_images_as_all_rules() {
    let html = b"<html><img src=a>\n<IMG SRC=b ALT=''><button>x</button>\n<img src=c></html>";
    let common = lint_bytes("t.html".into(), html, RuleSet::common(), 100);
    let all = lint_bytes("t.html".into(), html, RuleSet::all(), 100);
    let images: Vec<_> = summary(&all.diagnostics)
        .into_iter()
        .filter(|d| d.0 == "img-alt")
        .collect();
    assert_eq!(images.len(), 2);
    assert_eq!(summary(&common.diagnostics), images);
    assert!(all.diagnostics.len() > images.len());
}

fn summary(diagnostics: &[Diagnostic]) -> Vec<(&'static str, String, usize, usize, usize, usize)> {
    diagnostics
        .iter()
        .map(|d| (d.rule, d.message.clone(), d.byte_start, d.byte_end, d.line, d.column))
        .collect()
}
