use symlinks_database::skip::Skip;

fn skip(patterns: &[&str]) -> Skip {
    let v: Vec<String> = patterns.iter().map(|p| p.to_string()).collect();
    Skip::new(&v)
}

#[test]
fn plain_name_matches_at_any_depth() {
    let s = skip(&["target"]);
    assert!(s.matches("target", true));
    assert!(s.matches("a/b/target", false));
    assert!(!s.matches("targets", true));
}

#[test]
fn trailing_slash_matches_directories_only() {
    let s = skip(&[".venv/"]);
    assert!(s.matches("x/.venv", true));
    assert!(!s.matches("x/.venv", false));
}

#[test]
fn anchored_patterns_match_from_the_root() {
    let s = skip(&["/build", "docs/*.tmp"]);
    assert!(s.matches("build", true));
    assert!(!s.matches("a/build", true));
    assert!(s.matches("docs/x.tmp", false));
    assert!(!s.matches("a/docs/x.tmp", false));
}

#[test]
fn double_star_spans_directories() {
    let s = skip(&["a/**/z", "logs/**"]);
    assert!(s.matches("a/z", false));
    assert!(s.matches("a/b/c/z", false));
    assert!(s.matches("logs/x", false));
    assert!(!s.matches("logs", true));
}

#[test]
fn wildcards_match_within_a_name() {
    let s = skip(&["*.pyc", "file?.txt"]);
    assert!(s.matches("src/mod.pyc", false));
    assert!(s.matches("file1.txt", false));
    assert!(!s.matches("file12.txt", false));
}

#[test]
fn negation_reincludes_and_last_match_wins() {
    let s = skip(&["*.log", "!keep.log"]);
    assert!(s.matches("a.log", false));
    assert!(!s.matches("keep.log", false));
    let s = skip(&["!keep.log", "*.log"]);
    assert!(s.matches("keep.log", false));
}

#[test]
fn empty_and_comment_patterns_are_ignored() {
    let s = skip(&["", "# comment"]);
    assert!(!s.matches("# comment", false));
    assert!(!s.matches("anything", true));
    assert!(!Skip::none().matches("x", true));
}
