use agent_html_lint::engine::lint_bytes;
use agent_html_lint::fixtures::{
    LARGE_BYTES, MIXED_BYTES, MIXED_SECTIONS, SMALL_BYTES, count_occurrences, fill_with_rows,
    fixture_matches, header, large_fixture, mixed_fixture, small_fixture,
};
use agent_html_lint::model::RuleSet;

#[test]
fn fixtures_have_exact_sizes_and_expected_missing_alt_counts() {
    let small = small_fixture();
    let mixed = mixed_fixture();
    let large = large_fixture();
    assert_eq!(small.len(), SMALL_BYTES);
    assert_eq!(mixed.len(), MIXED_BYTES);
    assert_eq!(large.len(), LARGE_BYTES);
    assert!(fixture_matches(&small, SMALL_BYTES, 0));
    assert!(fixture_matches(&mixed, MIXED_BYTES, 256));
    assert!(fixture_matches(&large, LARGE_BYTES, 0));
    assert!(!fixture_matches(&mixed, MIXED_BYTES, 255));
    assert!(!fixture_matches(&small, SMALL_BYTES + 1, 0));
    assert_eq!(MIXED_SECTIONS, 256);
}

#[test]
fn linter_finds_the_fixture_findings() {
    let cases = [(small_fixture(), 0), (mixed_fixture(), 256), (large_fixture(), 0)];
    for (input, expected) in cases {
        let report = lint_bytes("fixture.html".into(), &input, RuleSet::common(), usize::MAX);
        assert_eq!(report.diagnostics.len(), expected);
        assert!(!report.truncated);
    }
}

#[test]
fn mixed_fixture_numbers_its_sections() {
    let mixed = mixed_fixture();
    let text = String::from_utf8(mixed).unwrap();
    assert!(text.contains("<section class=card data-index=0><h2>Generated item 0</h2><img src=\"asset-0.webp\""));
    assert!(text.contains("data-index=255><h2>Generated item 255</h2><img src=\"asset-255.webp\""));
    assert!(text.contains("<iframe title=\"Item 42 details\" src=about:blank>"));
    assert!(!text.contains("data-index=256"));
    assert!(text.ends_with("-->\n</body></html>\n") || text.ends_with("--></body></html>\n"));
}

#[test]
fn fill_reaches_the_target_with_a_padding_comment() {
    let mut out = header("T");
    assert_eq!(
        out,
        b"<!doctype html>\n<html lang=en><head><meta charset=utf-8><title>T</title></head><body>\n"
            .to_vec()
    );
    let start = out.len();
    fill_with_rows(&mut out, b"<p>row</p>", start + 40, b"</x>");
    assert_eq!(out.len(), start + 40);
    let tail = String::from_utf8(out[start..].to_vec()).unwrap();
    // Two rows of 10 bytes fit before the 4-byte closing and a comment of at least 7 bytes.
    assert_eq!(tail, "<p>row</p><p>row</p><!--         --></x>");
}

#[test]
fn occurrences_count_overlapping_windows() {
    assert_eq!(count_occurrences(b"aaaa", b"aa"), 3);
    assert_eq!(count_occurrences(b"<img <img alt=", b"<img "), 2);
    assert_eq!(count_occurrences(b"", b"x"), 0);
    assert_eq!(count_occurrences(b"ab", b"abc"), 0);
}
