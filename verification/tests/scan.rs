use emacs_native::filter::Ignores;
use emacs_native::scan::{scan_tree, unreadable_message, FsDir};

fn strings(xs: &[&str]) -> Vec<String> {
    xs.iter().map(|s| s.to_string()).collect()
}

fn ignores(
    include_globs: &[&str],
    exclude_files: &[&str],
    exclude_dirs: &[&str],
    exclude_dir_prefixes: &[&str],
) -> Ignores {
    Ignores::new(
        &strings(include_globs),
        &strings(exclude_files),
        &strings(exclude_dirs),
        &strings(exclude_dir_prefixes),
    )
    .unwrap()
}

fn leaf_dir(name: &str, files: &[&str]) -> FsDir {
    FsDir { name: name.to_string(), readable: true, files: strings(files), subdirs: Vec::new() }
}

/// The tree `/r/a.txt`, `/r/sub/b.txt`, `/r/.git/c.txt`.
fn sample_tree() -> FsDir {
    FsDir {
        name: "/r".to_string(),
        readable: true,
        files: strings(&["a.txt"]),
        subdirs: vec![leaf_dir("sub", &["b.txt"]), leaf_dir(".git", &["c.txt"])],
    }
}

fn sorted(mut v: Vec<String>) -> Vec<String> {
    v.sort();
    v
}

#[test]
fn scenario_exclude_git_dir() {
    let ig = ignores(&["*.txt"], &[], &[".git"], &[]);
    let (matched, errors) = scan_tree(vec![sample_tree()], &ig, 1);
    assert_eq!(sorted(matched), strings(&["/r/a.txt", "/r/sub/b.txt"]));
    assert_eq!(errors, Vec::<String>::new());
}

#[test]
fn scenario_exclude_file_by_leaf_name() {
    let ig = ignores(&["*.txt"], &["a.txt"], &[".git"], &[]);
    let (matched, errors) = scan_tree(vec![sample_tree()], &ig, 1);
    assert_eq!(sorted(matched), strings(&["/r/sub/b.txt"]));
    assert_eq!(errors, Vec::<String>::new());
}

#[test]
fn match_everything_reports_every_reachable_file() {
    let ig = ignores(&["*"], &[], &[], &[]);
    let (matched, errors) = scan_tree(vec![sample_tree()], &ig, 1);
    assert_eq!(sorted(matched), strings(&["/r/.git/c.txt", "/r/a.txt", "/r/sub/b.txt"]));
    assert_eq!(errors, Vec::<String>::new());
}

#[test]
fn excluded_leaf_beats_every_inclusion() {
    let ig = ignores(&["*"], &["a.txt"], &[], &[]);
    let (matched, _) = scan_tree(vec![sample_tree()], &ig, 1);
    assert_eq!(sorted(matched), strings(&["/r/.git/c.txt", "/r/sub/b.txt"]));
}

#[test]
fn no_inclusion_patterns_select_nothing() {
    let ig = ignores(&[], &[], &[], &[]);
    let (matched, errors) = scan_tree(vec![sample_tree()], &ig, 1);
    assert_eq!(matched, Vec::<String>::new());
    assert_eq!(errors, Vec::<String>::new());
}

#[test]
fn scanning_twice_yields_the_same_set() {
    let ig = ignores(&["*.txt"], &[], &[".git"], &[]);
    let (m1, e1) = scan_tree(vec![sample_tree()], &ig, 2);
    let (m2, e2) = scan_tree(vec![sample_tree()], &ig, 2);
    assert_eq!(sorted(m1), sorted(m2));
    assert_eq!(sorted(e1), sorted(e2));
}

#[test]
fn excluded_root_contributes_nothing() {
    let ig = ignores(&["*"], &[], &["r"], &[]);
    let (matched, errors) = scan_tree(vec![sample_tree()], &ig, 1);
    assert_eq!(matched, Vec::<String>::new());
    assert_eq!(errors, Vec::<String>::new());
}

#[test]
fn unreadable_subdir_is_isolated() {
    let mut root = sample_tree();
    root.subdirs.push(FsDir {
        name: "locked".to_string(),
        readable: false,
        files: strings(&["hidden.txt"]),
        subdirs: Vec::new(),
    });
    let ig = ignores(&["*.txt"], &[], &[".git"], &[]);
    let (matched, errors) = scan_tree(vec![root], &ig, 1);
    assert_eq!(sorted(matched), strings(&["/r/a.txt", "/r/sub/b.txt"]));
    assert_eq!(errors, vec![unreadable_message("/r/locked")]);
}

#[test]
fn worker_count_does_not_change_the_outcome() {
    let expected = strings(&["/r/a.txt", "/r/sub/b.txt"]);
    for workers in 0..5 {
        let ig = ignores(&["*.txt"], &[], &[".git"], &[]);
        let (matched, errors) = scan_tree(vec![sample_tree()], &ig, workers);
        assert_eq!(sorted(matched), expected);
        assert_eq!(errors, Vec::<String>::new());
    }
}

#[test]
fn dir_prefix_glob_excludes_by_name_prefix() {
    let ig = ignores(&["*.txt"], &[], &[], &[".g"]);
    let (matched, errors) = scan_tree(vec![sample_tree()], &ig, 1);
    assert_eq!(sorted(matched), strings(&["/r/a.txt", "/r/sub/b.txt"]));
    assert_eq!(errors, Vec::<String>::new());
}

#[test]
fn dir_glob_excludes_at_any_depth() {
    let deep = FsDir {
        name: "/top".to_string(),
        readable: true,
        files: strings(&[]),
        subdirs: vec![FsDir {
            name: "mid".to_string(),
            readable: true,
            files: strings(&["keep.txt"]),
            subdirs: vec![leaf_dir("target", &["drop.txt"])],
        }],
    };
    let ig = ignores(&["*.txt"], &[], &["target"], &[]);
    let (matched, errors) = scan_tree(vec![deep], &ig, 1);
    assert_eq!(sorted(matched), strings(&["/top/mid/keep.txt"]));
    assert_eq!(errors, Vec::<String>::new());
}

#[test]
fn absolute_include_pattern_matches_on_the_full_path() {
    let ig = ignores(&["/r/sub/*"], &[], &[], &[]);
    let (matched, _) = scan_tree(vec![sample_tree()], &ig, 1);
    assert_eq!(sorted(matched), strings(&["/r/sub/b.txt"]));
}

#[test]
fn matching_is_case_insensitive() {
    let ig = ignores(&["*.TXT"], &[], &[".git"], &[]);
    let (matched, _) = scan_tree(vec![sample_tree()], &ig, 1);
    assert_eq!(sorted(matched), strings(&["/r/a.txt", "/r/sub/b.txt"]));
}

#[test]
fn multiple_roots_are_all_scanned() {
    let ig = ignores(&["*"], &[], &[], &[]);
    let other = leaf_dir("/s", &["d.md"]);
    let (matched, errors) = scan_tree(vec![sample_tree(), other], &ig, 3);
    assert_eq!(
        sorted(matched),
        strings(&["/r/.git/c.txt", "/r/a.txt", "/r/sub/b.txt", "/s/d.md"])
    );
    assert_eq!(errors, Vec::<String>::new());
}

#[test]
fn no_roots_no_output() {
    let ig = ignores(&["*"], &[], &[], &[]);
    let (matched, errors) = scan_tree(Vec::new(), &ig, 1);
    assert_eq!(matched, Vec::<String>::new());
    assert_eq!(errors, Vec::<String>::new());
}
