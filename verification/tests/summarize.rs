use b2::files::Error;
use b2::summarize::Summary;

#[test]
fn groups_by_extension_sorted() {
    let mut s = Summary::new();
    s.add_path(b"/d/b.txt");
    s.add_path(b"/d/a.txt");
    s.add_path(b"/d/noext");
    s.add_path(b"/d/.hidden");
    s.add_path(b"/d/x.rs");
    s.add_path(b"/d/with space.txt");
    s.add_path(b"/d/trailing.");
    let groups = s.into_groups();
    assert_eq!(
        groups,
        vec![
            ("".to_string(), vec!["/d/.hidden".to_string(), "/d/noext".to_string(), "/d/trailing.".to_string()]),
            ("rs".to_string(), vec!["/d/x.rs".to_string()]),
            (
                "txt".to_string(),
                vec!["/d/a.txt".to_string(), "/d/b.txt".to_string(), "/d/with\\ space.txt".to_string()]
            ),
        ]
    );
}

#[test]
fn non_utf8_extension_is_decoded_lossily() {
    let mut s = Summary::new();
    s.add_path(b"/d/a.\xff");
    let groups = s.into_groups();
    assert_eq!(groups, vec![("\u{FFFD}".to_string(), vec!["/d/a.\\xff".to_string()])]);
}

#[test]
fn error_item_stops_summary() {
    let mut s = Summary::new();
    assert_eq!(s.add_item(Ok(b"/a.c".to_vec())), Ok(()));
    let e = Error::symlink(b"/l");
    assert_eq!(s.add_item(Err(Error::symlink(b"/l"))), Err(e));
    assert_eq!(s.into_groups(), vec![("c".to_string(), vec!["/a.c".to_string()])]);
}

#[test]
fn summary_does_not_depend_on_order() {
    let paths: Vec<&[u8]> = vec![b"/z.md", b"/a.md", b"/q", b"/b.rs", b"/a.md"];
    let mut forward = Summary::new();
    for p in &paths {
        forward.add_path(p);
    }
    let mut backward = Summary::new();
    for p in paths.iter().rev() {
        backward.add_path(p);
    }
    let groups = forward.into_groups();
    assert_eq!(groups, backward.into_groups());
    assert_eq!(
        groups,
        vec![
            ("".to_string(), vec!["/q".to_string()]),
            ("md".to_string(), vec!["/a.md".to_string(), "/a.md".to_string(), "/z.md".to_string()]),
            ("rs".to_string(), vec!["/b.rs".to_string()]),
        ]
    );
}
