use b2::files::{Error, FilePathItem, IntoFilePaths, IntoFilePathsIter};
use b2::xfs::{self, Entry, WalkItem};

fn sort_file_paths(mut entries: IntoFilePathsIter) -> Vec<FilePathItem> {
    let mut out: Vec<FilePathItem> = Vec::new();
    while let Some(item) = entries.next() {
        out.push(item);
    }
    out.sort_by_key(|res| match res {
        Ok(path) => path.clone(),
        Err(err) => err.path.clone(),
    });
    out
}

#[test]
fn converts_file_entries_to_paths() {
    let expected: Vec<FilePathItem> = vec![Ok(b"/foo/bar".to_vec()), Ok(b"/foo/baz".to_vec())];
    let input: Vec<WalkItem> = vec![Ok(Entry::file(b"/foo/bar")), Ok(Entry::file(b"/foo/baz"))];
    let actual = sort_file_paths(input.into_file_paths());
    assert_eq!(expected.len(), actual.len());
    for (i, expected) in expected.iter().enumerate() {
        assert_eq!(expected, &actual[i])
    }
}

#[test]
fn skips_directories() {
    let expected: Vec<FilePathItem> = vec![Ok(b"/foo/bar/baz".to_vec())];
    let input: Vec<WalkItem> = vec![
        Ok(Entry::directory(b"/foo")),
        Ok(Entry::directory(b"/foo/bar")),
        Ok(Entry::file(b"/foo/bar/baz")),
    ];
    let actual = sort_file_paths(input.into_file_paths());
    assert_eq!(expected.len(), actual.len());
    for (i, expected) in expected.iter().enumerate() {
        assert_eq!(expected, &actual[i])
    }
}

#[test]
fn emits_error_for_symlink() {
    let expected: Vec<FilePathItem> =
        vec![Ok(b"/bar".to_vec()), Err(Error::symlink(b"/baz")), Ok(b"/foo".to_vec())];
    let input: Vec<WalkItem> = vec![
        Ok(Entry::file(b"/bar")),
        Ok(Entry::symlink(b"/baz")),
        Ok(Entry::file(b"/foo")),
    ];
    let actual = sort_file_paths(input.into_file_paths());
    assert_eq!(expected.len(), actual.len());
    for (i, expected) in expected.iter().enumerate() {
        assert_eq!(expected, &actual[i])
    }
}

#[test]
fn emits_error_for_unknown_entry_type() {
    let expected: Vec<FilePathItem> =
        vec![Ok(b"/bar".to_vec()), Err(Error::unknown_entry_type(b"/baz")), Ok(b"/foo".to_vec())];
    let input: Vec<WalkItem> = vec![
        Ok(Entry::file(b"/bar")),
        Ok(Entry::unknown(b"/baz")),
        Ok(Entry::file(b"/foo")),
    ];
    let actual = sort_file_paths(input.into_file_paths());
    assert_eq!(expected.len(), actual.len());
    for (i, expected) in expected.iter().enumerate() {
        assert_eq!(expected, &actual[i])
    }
}

#[test]
fn emits_error_for_entry_error() {
    let expected: Vec<FilePathItem> =
        vec![Err(Error::new(b"/bar", "whoops")), Ok(b"/baz".to_vec()), Ok(b"/foo".to_vec())];
    let input: Vec<WalkItem> = vec![
        Ok(Entry::file(b"/baz")),
        Ok(Entry::file(b"/foo")),
        Err(xfs::Error::new(b"/bar", "whoops")),
    ];
    let actual = sort_file_paths(input.into_file_paths());
    assert_eq!(expected.len(), actual.len());
    for (i, expected) in expected.iter().enumerate() {
        assert_eq!(expected, &actual[i])
    }
}

#[test]
fn listing_keeps_walk_order() {
    let input: Vec<WalkItem> = vec![
        Ok(Entry::directory(b"/d")),
        Ok(Entry::file(b"/d/z")),
        Ok(Entry::file(b"/d/a")),
    ];
    let mut it = IntoFilePathsIter::new(input);
    assert_eq!(it.next(), Some(Ok(b"/d/z".to_vec())));
    assert_eq!(it.next(), Some(Ok(b"/d/a".to_vec())));
    assert_eq!(it.next(), None);
    assert_eq!(it.next(), None);
}

#[test]
fn error_display() {
    assert_eq!(Error::symlink(b"/l").to_display_string(), "symlinks are not supported (path: /l)");
}
