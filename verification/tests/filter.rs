use emacs_native::filter::Ignores;
use emacs_native::glob::{PatternSet, ScanError};
use emacs_native::text::{join_path, leaf_of};

fn strings(xs: &[&str]) -> Vec<String> {
    xs.iter().map(|s| s.to_string()).collect()
}

#[test]
fn pattern_set_matches_when_some_pattern_does() {
    let set = PatternSet::compile(&strings(&["*.txt", "*.md"])).unwrap();
    assert!(set.matches("notes.md"));
    assert!(set.matches("a.txt"));
    assert!(!set.matches("a.rs"));
}

#[test]
fn pattern_matching_is_case_insensitive() {
    let set = PatternSet::compile(&strings(&["*.txt"])).unwrap();
    assert!(set.matches("FOO.TXT"));
    assert!(set.matches("Foo.Txt"));
}

#[test]
fn star_spans_separator_boundaries() {
    let set = PatternSet::compile(&strings(&["*.txt"])).unwrap();
    assert!(set.matches("deep/nested/dir/file.txt"));
}

#[test]
fn empty_pattern_set_matches_nothing() {
    let set = PatternSet::compile(&Vec::new()).unwrap();
    assert!(set.is_empty());
    assert!(!set.matches("anything"));
    assert!(!set.matches(""));
}

#[test]
fn invalid_pattern_is_reported_at_build_time() {
    let err = match PatternSet::compile(&strings(&["a[b"])) {
        Err(e) => e,
        Ok(_) => panic!("an invalid pattern must be refused"),
    };
    match err {
        ScanError::BadPattern { pattern } => assert_eq!(pattern, "a[b"),
        other => panic!("wrong error: {:?}", other),
    }
}

#[test]
fn over_long_pattern_is_refused_before_compilation() {
    let long = "a".repeat(5000);
    let err = match PatternSet::compile(&vec![long.clone()]) {
        Err(e) => e,
        Ok(_) => panic!("an over-long pattern must be refused"),
    };
    match err {
        ScanError::PatternTooLong { pattern } => assert_eq!(pattern, long),
        other => panic!("wrong error: {:?}", other),
    }
}

#[test]
fn longest_admitted_pattern_still_compiles() {
    let pat = "a".repeat(4096);
    let set = PatternSet::compile(&vec![pat.clone()]).unwrap();
    assert!(set.matches(&pat));
}

#[test]
fn invalid_pattern_fails_the_whole_configuration() {
    let err = match Ignores::new(
        &strings(&["*"]),
        &strings(&["a[b"]),
        &strings(&[]),
        &strings(&[]),
    ) {
        Err(e) => e,
        Ok(_) => panic!("an invalid pattern must be refused"),
    };
    assert_eq!(err.message(), "invalid glob pattern: a[b");
}

#[test]
fn join_path_inserts_one_separator() {
    assert_eq!(join_path("/r/sub", "b.txt"), "/r/sub/b.txt");
}

#[test]
fn leaf_of_takes_the_last_component() {
    assert_eq!(leaf_of("/r/sub/b.txt"), "b.txt");
    assert_eq!(leaf_of("plain"), "plain");
    assert_eq!(leaf_of("/r/"), "");
    assert_eq!(leaf_of(""), "");
}
