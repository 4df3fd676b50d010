use agent_html_lint::model::{
    Diagnostic, DiagnosticDraft, FileReport, OperationalError, Report, RuleSet,
};

#[test]
fn rule_profiles() {
    let all = RuleSet::parse("all").unwrap();
    assert_eq!(all, RuleSet::all());
    assert_eq!(RuleSet::parse("common").unwrap(), RuleSet::common());
    for bit in [
        RuleSet::IMG_ALT,
        RuleSet::HTML_LANG,
        RuleSet::BUTTON_TYPE,
        RuleSet::IFRAME_TITLE,
        RuleSet::DOCTYPE_HTML,
        RuleSet::PARSE_ERROR,
    ] {
        assert!(all.contains(bit));
    }
    let common = RuleSet::common();
    assert!(common.contains(RuleSet::IMG_ALT));
    assert!(!common.contains(RuleSet::HTML_LANG | RuleSet::PARSE_ERROR));
}

#[test]
fn rule_lists_combine_names() {
    let set = RuleSet::parse("html-lang,button-type").unwrap();
    assert!(set.contains(RuleSet::HTML_LANG));
    assert!(set.contains(RuleSet::BUTTON_TYPE));
    assert!(!set.contains(RuleSet::IMG_ALT));
    assert_eq!(
        RuleSet::parse("img-alt,html-lang,button-type,iframe-title,doctype-html,parse-error")
            .unwrap(),
        RuleSet::all()
    );
    assert_eq!(RuleSet::parse("img-alt").unwrap(), RuleSet::common());
}

#[test]
fn rule_list_errors() {
    assert_eq!(RuleSet::parse("").unwrap_err(), "--rules cannot be empty");
    assert_eq!(RuleSet::parse("img-alt,").unwrap_err(), "--rules cannot be empty");
    assert_eq!(RuleSet::parse("bogus,,").unwrap_err(), "unknown rule: bogus");
    assert_eq!(RuleSet::parse("all,img-alt").unwrap_err(), "unknown rule: all");
    assert_eq!(RuleSet::parse("IMG-ALT").unwrap_err(), "unknown rule: IMG-ALT");
}

fn draft(start: usize) -> DiagnosticDraft {
    DiagnosticDraft {
        rule: "img-alt",
        severity: "error",
        message: "m".to_string(),
        byte_start: start,
        byte_end: start + 1,
        help: None,
    }
}

#[test]
fn resolve_counts_lines_and_columns_from_one() {
    let starts = [0usize, 5, 9];
    let at = |start: usize| {
        let d: Diagnostic = draft(start).resolve(12, &starts);
        (d.line, d.column)
    };
    assert_eq!(at(0), (1, 1));
    assert_eq!(at(4), (1, 5));
    assert_eq!(at(5), (2, 1));
    assert_eq!(at(8), (2, 4));
    assert_eq!(at(9), (3, 1));
    assert_eq!(at(11), (3, 3));
    // An offset past the input is clamped to its end.
    assert_eq!(at(100), (3, 4));
}

fn file(path: &str, bytes: u64, findings: usize, truncated: bool) -> FileReport {
    FileReport {
        path: path.to_string(),
        bytes,
        diagnostics: (0..findings).map(|i| draft(i).resolve(100, &[0])).collect(),
        truncated,
    }
}

#[test]
fn report_summary_and_status() {
    let clean = Report::from_parts(vec![file("a", 3, 0, false), file("b", 4, 0, false)], Vec::new());
    assert_eq!(clean.status, "clean");
    assert_eq!(clean.exit_code(), 0);
    assert_eq!(clean.schema_version, 1);
    assert_eq!(clean.summary.files, 2);
    assert_eq!(clean.summary.bytes, 7);
    assert_eq!(clean.summary.findings, 0);
    assert!(!clean.summary.truncated);

    let found = Report::from_parts(vec![file("a", 3, 2, true), file("b", 4, 1, false)], Vec::new());
    assert_eq!(found.status, "findings");
    assert_eq!(found.exit_code(), 1);
    assert_eq!(found.summary.findings, 3);
    assert!(found.summary.truncated);

    let failed = Report::from_parts(
        vec![file("a", 3, 2, false)],
        vec![OperationalError { path: Some("b".to_string()), message: "gone".to_string() }],
    );
    assert_eq!(failed.status, "error");
    assert_eq!(failed.exit_code(), 2);
    assert_eq!(failed.summary.operational_errors, 1);
}

#[test]
fn operational_report_holds_one_error() {
    let report = Report::operational("no such option".to_string());
    assert_eq!(report.status, "error");
    assert_eq!(report.exit_code(), 2);
    assert!(report.files.is_empty());
    assert_eq!(report.errors.len(), 1);
    assert_eq!(report.errors[0].path, None);
    assert_eq!(report.errors[0].message, "no such option");
    assert_eq!(report.summary.operational_errors, 1);
    assert_eq!(report.summary.files, 0);
}

#[test]
fn rule_lists_ignore_order_and_repeats() {
    let names = [
        "img-alt",
        "html-lang",
        "button-type",
        "iframe-title",
        "doctype-html",
        "parse-error",
    ];
    for a in names {
        assert_eq!(
            RuleSet::parse(&format!("{a},{a}")).unwrap(),
            RuleSet::parse(a).unwrap()
        );
        for b in names {
            let forward = RuleSet::parse(&format!("{a},{b}")).unwrap();
            assert_eq!(forward, RuleSet::parse(&format!("{b},{a}")).unwrap());
        }
    }
    assert_eq!(
        RuleSet::parse("parse-error,img-alt,parse-error,html-lang").unwrap(),
        RuleSet::parse("html-lang,parse-error,img-alt").unwrap()
    );
}

#[test]
fn resolve_on_unsorted_starts_still_locates_from_one() {
    let unsorted = [0usize, 10, 3];
    let d: Diagnostic = draft(5).resolve(12, &unsorted);
    assert_eq!((d.line, d.column), (1, 6));
    let unsorted = [0usize, 2, 1, 7];
    let d: Diagnostic = draft(4).resolve(12, &unsorted);
    assert_eq!((d.line, d.column), (3, 4));
}
