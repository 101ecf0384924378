use b2::hashes::{hash_label, search_step, sha256_label, FileHash, HashAlgo, ParseError, SearchStep, Sha1Hasher};
use b2::xfs::Meta;

fn fh(hash: &str, path: &[u8]) -> FileHash {
    FileHash { hash: hash.to_string(), path: path.to_vec() }
}

#[test]
fn file_hash_line_format() {
    assert_eq!(fh("sha1:ab", b"/a b/c\td").to_string(), "sha1:ab\t/a\\ b/c\\td");
}

#[test]
fn file_hash_line_reads_back() {
    let samples = vec![
        fh("sha1:00ff", b"/plain/path"),
        fh("sha256:12", "/ünï/cödé".as_bytes()),
        fh("x", b"/with spaces/and\\backslash/\"q\" 'q'\n"),
    ];
    for s in samples {
        let line = s.to_string();
        assert_eq!(FileHash::parse(&line), Some(Ok(fh(&s.hash, &s.path))));
        assert_eq!(FileHash::from_str(&line), Ok(s));
    }
}

#[test]
fn path_ending_in_space_does_not_read_back() {
    let line = fh("h", b"/a ").to_string();
    assert_eq!(line, "h\t/a\\ ");
    assert_eq!(
        FileHash::parse(&line),
        Some(Err(ParseError(
            "invalid escape sequence: invalid escape sequence: trailing backslash".to_string()
        )))
    );
}

#[test]
fn parse_errors() {
    assert_eq!(FileHash::parse("  \t/p"), Some(Err(ParseError::new("empty hash"))));
    assert_eq!(FileHash::parse("hash only"), Some(Err(ParseError::new("missing path"))));
    assert_eq!(FileHash::parse("h\t  "), Some(Err(ParseError::new("empty path"))));
    assert_eq!(
        FileHash::parse("h\t\\q"),
        Some(Err(ParseError::new(
            "invalid escape sequence: invalid escape sequence: unrecognized escape sequence: \\q"
        )))
    );
    assert_eq!(FileHash::parse("h\t\\xc3"), None);
}

#[test]
fn parse_trims_and_splits_at_first_tab() {
    assert_eq!(FileHash::parse("\u{3000} h \t p\tq \u{a0}"), Some(Ok(fh("h", b"p\tq"))));
}

#[test]
fn parse_error_display() {
    assert_eq!(ParseError::new("empty hash").to_display_string(), "error parsing file hash: empty hash");
}

#[test]
fn hash_labels() {
    assert_eq!(hash_label(HashAlgo::SHA1, "00"), "sha1:00");
    assert_eq!(hash_label(HashAlgo::SHA256, "ab"), "sha256:ab");
}

#[test]
fn sha1_of_known_inputs() {
    let h = Sha1Hasher::new();
    assert_eq!(h.finish(), "sha1:da39a3ee5e6b4b0d3255bfef95601890afd80709");
    let mut h = Sha1Hasher::new();
    h.update(b"ab");
    h.update(b"c");
    assert_eq!(h.finish(), "sha1:a9993e364706816aba3e25717850c26c9cd0d89d");
}

#[test]
fn sha256_of_known_inputs() {
    assert_eq!(
        sha256_label(b""),
        "sha256:e3b0c44298fc1c149afbf4c8996fb92427ae41e4649b934ca495991b7852b855"
    );
    assert_eq!(
        sha256_label(b"abc"),
        "sha256:ba7816bf8f01cfea414140de5dae2223b00361a396177a9cb410ff61f20015ad"
    );
}

#[test]
fn search_steps() {
    let meta = |is_dir, is_file, is_symlink| Some(Meta { is_dir, is_file, is_symlink });
    assert_eq!(search_step(meta(false, true, false)), SearchStep::Hash);
    assert_eq!(search_step(meta(true, false, false)), SearchStep::Descend);
    assert_eq!(search_step(meta(false, false, true)), SearchStep::Skip);
    assert_eq!(search_step(meta(false, false, false)), SearchStep::Skip);
    assert_eq!(search_step(None), SearchStep::Skip);
}
