use trigger_scores::errors::ScoreError;
use trigger_scores::labels::{parse_wildcard, resolve_source_file, str_starts_with};

fn s(x: &str) -> String {
    String::from(x)
}

#[test]
fn local_label_resolves_to_relative_path() {
    let r = resolve_source_file(&s("//pkg/sub:file.txt")).unwrap();
    assert_eq!(r, Some(s("pkg/sub/file.txt")));
}

#[test]
fn top_level_package_resolves() {
    let r = resolve_source_file(&s("//:BUILD")).unwrap();
    assert_eq!(r, Some(s("/BUILD")));
}

#[test]
fn external_label_is_skipped() {
    let r = resolve_source_file(&s("@repo//pkg:file")).unwrap();
    assert_eq!(r, None);
}

#[test]
fn missing_separator_is_malformed() {
    let err = resolve_source_file(&s("//pkg/file")).unwrap_err();
    match err {
        ScoreError::MalformedLabel(l) => assert_eq!(l, s("//pkg/file")),
        other => panic!("unexpected error {:?}", other),
    }
}

#[test]
fn missing_repo_prefix_is_malformed() {
    assert!(matches!(
        resolve_source_file(&s("pkg:file")),
        Err(ScoreError::MalformedLabel(_))
    ));
    assert!(matches!(
        resolve_source_file(&s("")),
        Err(ScoreError::MalformedLabel(_))
    ));
}

#[test]
fn file_name_keeps_later_colons() {
    let r = resolve_source_file(&s("//p:a:b")).unwrap();
    assert_eq!(r, Some(s("p/a:b")));
}

#[test]
fn wildcard_parsing() {
    assert_eq!(parse_wildcard(&s("//p:...")), Some(s("//p")));
    assert_eq!(parse_wildcard(&s("//p/...")), Some(s("//p")));
    assert_eq!(parse_wildcard(&s("//p:A")), None);
    // a bare marker has no path prefix to strip.
    assert_eq!(parse_wildcard(&s("...")), None);
}

#[test]
fn prefix_matching() {
    assert!(str_starts_with(&s("//p:A"), &s("//p")));
    assert!(str_starts_with(&s("//p:A"), &s("")));
    assert!(!str_starts_with(&s("//q:A"), &s("//p")));
    assert!(!str_starts_with(&s("//p"), &s("//p:A")));
}
