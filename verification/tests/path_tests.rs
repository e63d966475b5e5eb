use dtar::path::paths_match;

fn m(a: &str, b: &str) -> bool {
    paths_match(&a.to_string(), &b.to_string())
}

#[test]
fn paths_match_ignores_repeated_and_trailing_separators() {
    assert!(m("a/b", "a/b"));
    assert!(m("a//b", "a/b"));
    assert!(m("a/b/", "a/b"));
    assert!(m("/x///y", "/x/y"));
    assert!(m("", ""));
}

#[test]
fn paths_match_ignores_inner_dots_but_not_a_leading_one() {
    assert!(m("a/./b", "a/b"));
    assert!(m("a/.", "a"));
    assert!(!m("./a", "a"));
    assert!(m("./a", ".//a/"));
    assert!(m(".", "./"));
    assert!(!m("a/../b", "b"));
}

#[test]
fn paths_match_distinguishes_root_and_names() {
    assert!(!m("/a", "a"));
    assert!(!m("a/b", "a/c"));
    assert!(!m("a/bc", "a/b/c"));
    assert!(!m("ab", "a"));
}
