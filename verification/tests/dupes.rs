use b2::dupes::{strip_root, Dir, DupesError, InsertError};

fn key(parts: &[&str]) -> Vec<Vec<u8>> {
    parts.iter().map(|p| p.as_bytes().to_vec()).collect()
}
use b2::hashes::ParseError;

#[test]
fn removes_root() {
    let input: &[u8] = b"/foo/bar";
    let expected: &[u8] = b"foo/bar";
    let actual = strip_root(input);
    assert_eq!(expected, actual);
}

#[test]
fn returns_rootless_path_unmodified() {
    let input: &[u8] = b"foo/bar";
    let expected = input;
    let actual = strip_root(input);
    assert_eq!(expected, actual);
}

#[test]
fn strip_root_trims_like_path_components() {
    assert_eq!(strip_root(b"/"), b"");
    assert_eq!(strip_root(b"//./foo/./"), b"foo");
    assert_eq!(strip_root(b"/foo/bar/."), b"foo/bar");
    assert_eq!(strip_root(b"./foo"), b"./foo");
}

#[test]
fn builds_and_prints_tree() {
    let mut dir = Dir::new();
    assert_eq!(dir.add_line("sha1:aa\t/b/two.txt"), Some(Ok(())));
    assert_eq!(dir.add_line("   "), Some(Ok(())));
    assert_eq!(dir.add_line("sha1:bb\t/a.txt"), Some(Ok(())));
    assert_eq!(dir.add_line("  sha1:cc\t/b/c/one\\ file  "), Some(Ok(())));
    assert_eq!(dir.add_line("sha1:dd\trel/x"), Some(Ok(())));
    assert_eq!(
        dir.render(),
        "/\n  a.txt sha1:bb\n  b/\n    c/\n      one file sha1:cc\n    two.txt sha1:aa\n  rel/\n    x sha1:dd\n"
    );
}

#[test]
fn empty_tree_prints_root_only() {
    assert_eq!(Dir::new().render(), "/\n");
}

#[test]
fn second_insert_of_same_path_conflicts() {
    let mut dir = Dir::new();
    assert_eq!(dir.insert(b"/x/y", "h1"), Ok(()));
    assert_eq!(
        dir.insert(b"/x/y", "h2"),
        Err(InsertError::Conflict {
            path: b"/x/y".to_vec(),
            new: "h2".to_string(),
            existing: "FILE h1".to_string(),
        })
    );
    assert_eq!(dir.render(), "/\n  x/\n    y h1\n");
}

#[test]
fn insert_over_directory_conflicts() {
    let mut dir = Dir::new();
    assert_eq!(dir.insert(b"/x/y", "h1"), Ok(()));
    assert_eq!(
        dir.insert(b"/x", "h2"),
        Err(InsertError::Conflict {
            path: b"/x".to_vec(),
            new: "h2".to_string(),
            existing: "DIR x/".to_string(),
        })
    );
}

#[test]
fn insert_below_file_is_not_a_dir() {
    let mut dir = Dir::new();
    assert_eq!(dir.insert(b"/x", "h1"), Ok(()));
    assert_eq!(dir.insert(b"/x/y/z", "h2"), Err(InsertError::NotADir(b"/x".to_vec())));
}

#[test]
fn insert_without_file_name() {
    let mut dir = Dir::new();
    assert_eq!(dir.insert(b"/", "h"), Err(InsertError::NoFileName));
    assert_eq!(dir.insert(b"a/..", "h"), Err(InsertError::NoFileName));
    assert_eq!(dir.insert(b"", "h"), Err(InsertError::NoFileName));
}

#[test]
fn parse_errors_stop_lines() {
    let mut dir = Dir::new();
    assert_eq!(
        dir.add_line("no-tab-here"),
        Some(Err(DupesError::Parse(ParseError("missing path".to_string()))))
    );
}

#[test]
fn non_utf8_path_is_refused() {
    let mut dir = Dir::new();
    assert_eq!(dir.add_line("h\t\\xff"), None);
}

#[test]
fn failed_insert_keeps_earlier_entries() {
    let mut dir = Dir::new();
    assert_eq!(dir.insert(b"/x", "h1"), Ok(()));
    assert_eq!(dir.insert(b"/a/x/y", "h0"), Ok(()));
    assert_eq!(dir.insert(b"/x/y", "h2"), Err(InsertError::NotADir(b"/x".to_vec())));
    assert_eq!(dir.render(), "/\n  a/\n    x/\n      y h0\n  x h1\n");
}

#[test]
fn insert_error_messages() {
    assert_eq!(InsertError::NoFileName.to_display_string(), "path must contain a file name");
    assert_eq!(
        InsertError::NotADir(b"/x".to_vec()).to_display_string(),
        "path \"/x\" already exists and is not a directory"
    );
    assert_eq!(
        InsertError::Conflict {
            path: b"/x/y".to_vec(),
            new: "h2".to_string(),
            existing: "DIR y/".to_string(),
        }
        .to_display_string(),
        "conflict at \"/x/y\": new=h2, existing=DIR y/"
    );
    assert_eq!(
        DupesError::Insert(InsertError::Conflict {
            path: b"/x/y".to_vec(),
            new: "h2".to_string(),
            existing: "FILE h1".to_string(),
        })
        .to_display_string(),
        "conflict at \"/x/y\": new=h2, existing=FILE h1"
    );
}

#[test]
fn relative_and_dotted_paths_are_filed_by_component() {
    let mut dir = Dir::new();
    assert_eq!(dir.insert(b"./a/../b", "h"), Ok(()));
    assert_eq!(dir.render(), "/\n  ./\n    a/\n      ../\n        b h\n");
}

#[test]
fn finds_duplicate_files_and_directories() {
    let mut dir = Dir::new();
    for line in [
        "sha1:aa\t/a/x",
        "sha1:bb\t/a/y",
        "sha1:aa\t/b/x",
        "sha1:bb\t/b/y",
        "sha1:cc\t/c/x",
        "sha1:aa\t/d",
    ] {
        assert_eq!(dir.add_line(line), Some(Ok(())));
    }
    let found = dir.duplicates();
    assert_eq!(
        found.files,
        vec![
            ("sha1:aa".to_string(), vec![key(&["a", "x"]), key(&["b", "x"]), key(&["d"])]),
            ("sha1:bb".to_string(), vec![key(&["a", "y"]), key(&["b", "y"])]),
        ]
    );
    assert_eq!(found.dirs, vec![vec![key(&["a"]), key(&["b"])]]);
}

#[test]
fn directories_differing_in_one_file_are_not_duplicates() {
    let mut dir = Dir::new();
    assert_eq!(dir.insert(b"/a/x", "h1"), Ok(()));
    assert_eq!(dir.insert(b"/b/x", "h1"), Ok(()));
    assert_eq!(dir.insert(b"/b/z", "h2"), Ok(()));
    let found = dir.duplicates();
    assert_eq!(found.files, vec![("h1".to_string(), vec![key(&["a", "x"]), key(&["b", "x"])])]);
    assert!(found.dirs.is_empty());
}

#[test]
fn nested_duplicate_directories_are_each_reported() {
    let mut dir = Dir::new();
    assert_eq!(dir.insert(b"/p/q/f", "h"), Ok(()));
    assert_eq!(dir.insert(b"/r/q/f", "h"), Ok(()));
    let found = dir.duplicates();
    assert_eq!(found.files, vec![("h".to_string(), vec![key(&["p", "q", "f"]), key(&["r", "q", "f"])])]);
    assert_eq!(
        found.dirs,
        vec![vec![key(&["p"]), key(&["r"])], vec![key(&["p", "q"]), key(&["r", "q"])]]
    );
}

#[test]
fn no_duplicates_in_distinct_tree() {
    let mut dir = Dir::new();
    assert_eq!(dir.insert(b"/a", "h1"), Ok(()));
    assert_eq!(dir.insert(b"/b/c", "h2"), Ok(()));
    let found = dir.duplicates();
    assert!(found.files.is_empty());
    assert!(found.dirs.is_empty());
    assert!(Dir::new().duplicates().files.is_empty());
}

#[test]
fn insertion_order_does_not_matter() {
    let mut first = Dir::new();
    assert_eq!(first.insert(b"/a/b/c", "h1"), Ok(()));
    assert_eq!(first.insert(b"/a/d", "h2"), Ok(()));
    let mut second = Dir::new();
    assert_eq!(second.insert(b"/a/d", "h2"), Ok(()));
    assert_eq!(second.insert(b"/a/b/c", "h1"), Ok(()));
    assert_eq!(first.render(), second.render());
    assert_eq!(first.render(), "/\n  a/\n    b/\n      c h1\n    d h2\n");
}
