use b2::xfs::{walk, DirEvent, Entry, Error, Meta, Request, WalkItem};

const TEST_DATA_DIR: &str = "/src/xfs/test_data";

const FILE: Meta = Meta { is_dir: false, is_file: true, is_symlink: false };
const DIR: Meta = Meta { is_dir: true, is_file: false, is_symlink: false };
const LINK: Meta = Meta { is_dir: false, is_file: false, is_symlink: true };

/// A directory tree held in memory: each directory with its entries.
struct FakeFs {
    dirs: Vec<(Vec<u8>, Vec<(Vec<u8>, Result<Meta, String>)>)>,
}

impl FakeFs {
    fn new() -> Self {
        FakeFs { dirs: Vec::new() }
    }

    fn dir(&mut self, path: &str, entries: &[(&str, Meta)]) {
        let entries = entries
            .iter()
            .map(|(name, meta)| (join(path, name).into_bytes(), Ok(*meta)))
            .collect();
        self.dirs.push((path.as_bytes().to_vec(), entries));
    }

    fn list(&self, path: &[u8]) -> Option<Vec<(Vec<u8>, Result<Meta, String>)>> {
        self.dirs.iter().find(|(p, _)| p == path).map(|(_, e)| e.clone())
    }
}

fn join(dir: &str, name: &str) -> String {
    format!("{}/{}", dir, name)
}

/// Drives a walk over the tree held in memory, as a directory reader would.
fn run_walk(root: &str, fs: &FakeFs) -> Vec<WalkItem> {
    let mut walker = walk(root.as_bytes());
    let mut listing: Vec<(Vec<u8>, Result<Meta, String>)> = Vec::new();
    let mut pos = 0;
    let mut out = Vec::new();
    loop {
        match walker.request() {
            Request::NextEntry => {
                let event = if pos < listing.len() {
                    let (path, meta) = listing[pos].clone();
                    pos += 1;
                    DirEvent::Found { path, meta }
                } else {
                    DirEvent::End
                };
                if let Some(item) = walker.on_entry(event) {
                    out.push(item);
                }
            }
            Request::Open(path) => match fs.list(&path) {
                Some(entries) => {
                    listing = entries;
                    pos = 0;
                    out.push(walker.on_open(Ok(())));
                }
                None => out.push(walker.on_open(Err("No such file or directory (os error 2)".to_string()))),
            },
            Request::Done => break,
        }
    }
    out
}

fn sort_entries(mut entries: Vec<WalkItem>) -> Vec<WalkItem> {
    entries.sort_by_key(|res| match res {
        Ok(entry) => match entry {
            Entry::File { path } => path.clone(),
            Entry::Directory { path } => path.clone(),
            Entry::Symlink { path } => path.clone(),
            Entry::Unknown { path } => path.clone(),
        },
        Err(err) => err.path.clone(),
    });
    entries
}

#[test]
fn returns_dir_entry_for_empty_directory() {
    let test_dir = join(TEST_DATA_DIR, "empty_dir");
    let mut fs = FakeFs::new();
    fs.dir(&test_dir, &[]);

    let expected: Vec<WalkItem> = vec![Ok(Entry::directory(test_dir.as_bytes()))];

    let actual = sort_entries(run_walk(&test_dir, &fs));

    assert_eq!(expected.len(), actual.len());
    for (i, expected) in expected.iter().enumerate() {
        assert_eq!(expected, &actual[i])
    }
}

#[test]
fn returns_files_in_directory() {
    let test_dir = join(TEST_DATA_DIR, "files_only");
    let mut fs = FakeFs::new();
    fs.dir(&test_dir, &[("file2.txt", FILE), ("file1.txt", FILE)]);

    let expected: Vec<WalkItem> = vec![
        Ok(Entry::directory(test_dir.as_bytes())),
        Ok(Entry::file(join(&test_dir, "file1.txt").as_bytes())),
        Ok(Entry::file(join(&test_dir, "file2.txt").as_bytes())),
    ];

    let actual = sort_entries(run_walk(&test_dir, &fs));

    assert_eq!(expected.len(), actual.len());
    for (i, expected) in expected.iter().enumerate() {
        assert_eq!(expected, &actual[i])
    }
}

#[test]
fn returns_nested_files_and_directories() {
    let test_dir = join(TEST_DATA_DIR, "files_and_directories");
    let bar = join(&test_dir, "bar");
    let baz = join(&bar, "baz");
    let foo = join(&test_dir, "foo");
    let mut fs = FakeFs::new();
    fs.dir(&test_dir, &[("foo", DIR), ("one.txt", FILE), ("bar", DIR), ("two.txt", FILE)]);
    fs.dir(&bar, &[("one.txt", FILE), ("baz", DIR), ("two.txt", FILE)]);
    fs.dir(&baz, &[("two.txt", FILE), ("one.txt", FILE)]);
    fs.dir(&foo, &[("one.txt", FILE), ("two.txt", FILE)]);

    let expected: Vec<WalkItem> = vec![
        Ok(Entry::directory(test_dir.as_bytes())),
        Ok(Entry::directory(bar.as_bytes())),
        Ok(Entry::directory(baz.as_bytes())),
        Ok(Entry::file(join(&baz, "one.txt").as_bytes())),
        Ok(Entry::file(join(&baz, "two.txt").as_bytes())),
        Ok(Entry::file(join(&bar, "one.txt").as_bytes())),
        Ok(Entry::file(join(&bar, "two.txt").as_bytes())),
        Ok(Entry::directory(foo.as_bytes())),
        Ok(Entry::file(join(&foo, "one.txt").as_bytes())),
        Ok(Entry::file(join(&foo, "two.txt").as_bytes())),
        Ok(Entry::file(join(&test_dir, "one.txt").as_bytes())),
        Ok(Entry::file(join(&test_dir, "two.txt").as_bytes())),
    ];

    let actual = sort_entries(run_walk(&test_dir, &fs));

    assert_eq!(expected.len(), actual.len());
    for (i, expected) in expected.iter().enumerate() {
        assert_eq!(expected, &actual[i])
    }
}

#[test]
fn walk_is_breadth_first() {
    let mut fs = FakeFs::new();
    fs.dir("/r", &[("a", DIR), ("f", FILE), ("b", DIR)]);
    fs.dir("/r/a", &[("x", DIR), ("g", FILE)]);
    fs.dir("/r/b", &[("h", FILE)]);
    fs.dir("/r/a/x", &[]);
    let actual = run_walk("/r", &fs);
    let expected: Vec<WalkItem> = vec![
        Ok(Entry::directory(b"/r")),
        Ok(Entry::file(b"/r/f")),
        Ok(Entry::directory(b"/r/a")),
        Ok(Entry::file(b"/r/a/g")),
        Ok(Entry::directory(b"/r/b")),
        Ok(Entry::file(b"/r/b/h")),
        Ok(Entry::directory(b"/r/a/x")),
    ];
    assert_eq!(actual, expected);
}

#[test]
fn walk_reports_errors_and_links() {
    let mut fs = FakeFs::new();
    fs.dir("/r", &[("gone", DIR), ("l", LINK)]);
    fs.dirs[0].1.push((b"/r/bad".to_vec(), Err("permission denied".to_string())));
    let actual = run_walk("/r", &fs);
    let expected: Vec<WalkItem> = vec![
        Ok(Entry::directory(b"/r")),
        Ok(Entry::symlink(b"/r/l")),
        Err(Error::new(b"/r/bad", "permission denied")),
        Err(Error::new(b"/r/gone", "No such file or directory (os error 2)")),
    ];
    assert_eq!(actual, expected);
}

#[test]
fn walk_of_missing_root_is_one_error() {
    let fs = FakeFs::new();
    let actual = run_walk("/nope", &fs);
    assert_eq!(actual, vec![Err(Error::new(b"/nope", "No such file or directory (os error 2)"))]);
}

#[test]
fn read_failure_is_reported_at_the_directory() {
    let mut walker = walk(b"/r");
    assert_eq!(walker.request(), Request::Open(b"/r".to_vec()));
    assert_eq!(walker.on_open(Ok(())), Ok(Entry::directory(b"/r")));
    assert_eq!(walker.request(), Request::NextEntry);
    assert_eq!(
        walker.on_entry(DirEvent::Failed("io".to_string())),
        Some(Err(Error::new(b"/r", "io")))
    );
    assert_eq!(walker.on_entry(DirEvent::End), None);
    assert_eq!(walker.request(), Request::Done);
}

#[test]
fn entry_kind_from_metadata() {
    let all = Meta { is_dir: true, is_file: true, is_symlink: true };
    let none = Meta { is_dir: false, is_file: false, is_symlink: false };
    assert_eq!(Entry::from_meta(b"/p".to_vec(), all), Entry::directory(b"/p"));
    assert_eq!(Entry::from_meta(b"/p".to_vec(), FILE), Entry::file(b"/p"));
    assert_eq!(Entry::from_meta(b"/p".to_vec(), LINK), Entry::symlink(b"/p"));
    assert_eq!(Entry::from_meta(b"/p".to_vec(), none), Entry::unknown(b"/p"));
}

#[test]
fn walk_error_display() {
    assert_eq!(
        Error::new(b"/baz", "symlinks are not supported").to_display_string(),
        "symlinks are not supported (path: /baz)"
    );
}
