use agent_html_lint::input::is_html;

#[test]
fn recognizes_html_extensions() {
    assert!(is_html("artifact.HTML"));
    assert!(is_html("artifact.htm"));
    assert!(!is_html("artifact.xml"));
}

#[test]
fn extension_follows_the_last_component() {
    assert!(is_html("dir/page.Htm"));
    assert!(is_html("dir.x/page.html/"));
    assert!(is_html("a/b.html/."));
    assert!(!is_html(".html"));
    assert!(!is_html("dir.html/.."));
    assert!(!is_html("page.html.bak"));
    assert!(!is_html("page"));
    assert!(!is_html(""));
    assert!(!is_html("/"));
    assert!(is_html("..html"));
    assert!(is_html("./x//a.tar.HTM//"));
    assert!(!is_html("."));
    assert!(!is_html("x.html/./.."));
}
