//! File-hash records: the line format that `hashes` writes and `dupes`
//! reads, and the computation of a file's hash label.

use vstd::prelude::*;
use vstd::utf8::*;
use vstd::string::StringExecFns;
use crate::ascii::{escape, escaped_byte, spec_escape, spec_unescape, unescape_bytes, hex_digit_lower};
use crate::text::{ascii_chars, trim_chars, first_index_of, str_trim, split_at_first_tab, string_from_utf8, string_push};

verus! {

/// The hash algorithm a file is hashed with.
#[derive(Copy, Clone, Debug, PartialEq, Eq)]
pub enum HashAlgo {
    SHA1,
    SHA256,
}

/// The prefix that names an algorithm in a hash label.
pub open spec fn algo_prefix(algo: HashAlgo) -> Seq<char> {
    match algo {
        HashAlgo::SHA1 => "sha1:"@,
        HashAlgo::SHA256 => "sha256:"@,
    }
}

/// The label of a file's hash: the algorithm's prefix and the digest in hex,
/// such as `sha1:da39a3ee...`.
pub fn hash_label(algo: HashAlgo, hex_digest: &str) -> (s: String)
    ensures
        s@ == algo_prefix(algo) + hex_digest@,
{
    let mut s = match algo {
        HashAlgo::SHA1 => "sha1:".to_owned(),
        HashAlgo::SHA256 => "sha256:".to_owned(),
    };
    s.append(hex_digest);
    s
}

/// Lowercase hexadecimal text of a byte string, two digits per byte, high
/// digit first.
pub open spec fn hex_lower_chars(data: Seq<u8>) -> Seq<char> {
    Seq::new(
        2 * data.len(),
        |i: int|
            if i % 2 == 0 {
                hex_digit_lower(data[i / 2] / 16) as char
            } else {
                hex_digit_lower(data[i / 2] % 16) as char
            },
    )
}

/// Encodes bytes as lowercase hexadecimal text, as `hex::encode` does.
#[verifier::external_body]
fn hex_encode(data: &[u8]) -> (s: String)
    ensures
        s@ == hex_lower_chars(data@),
{
    hex::encode(data)
}

/// The lowercase hex SHA-256 digest of a byte string.
pub uninterp spec fn sha256_hex(data: Seq<u8>) -> Seq<char>;

/// A lowercase hexadecimal digit.
pub open spec fn is_lower_hex(c: char) -> bool {
    ('0' <= c && c <= '9') || ('a' <= c && c <= 'f')
}

/// The hex SHA-256 digest of bytes, as `sha256::digest` gives it for a byte
/// slice (`hex::encode` of the 32-byte digest): a function of the bytes
/// alone, 64 lowercase hex digits.
#[verifier::external_body]
fn sha256_digest_hex(data: &[u8]) -> (s: String)
    ensures
        s@ == sha256_hex(data@),
        s@.len() == 64,
        forall|i: int| 0 <= i < 64 ==> is_lower_hex(#[trigger] s@[i]),
{
    sha256::digest(data)
}

/// The SHA-256 label of a file's contents: `sha256:` followed by the hex
/// digest, 64 lowercase hex digits, so 71 characters in all.
pub fn sha256_label(data: &[u8]) -> (s: String)
    ensures
        s@ == algo_prefix(HashAlgo::SHA256) + sha256_hex(data@),
        s@.len() == 71,
        forall|i: int| 7 <= i < 71 ==> is_lower_hex(#[trigger] s@[i]),
{
    let hex = sha256_digest_hex(data);
    let s = hash_label(HashAlgo::SHA256, hex.as_str());
    proof {
        reveal_strlit("sha256:");
        assert forall|i: int| 7 <= i < 71 implies is_lower_hex(#[trigger] s@[i]) by {
            assert(s@[i] == hex@[i - 7]);
        }
    }
    s
}

/// The running state of a SHA-1 computation (`sha1::Sha1`).
#[verifier::external_body]
pub struct Sha1State {
    inner: sha1::Sha1,
}

/// The bytes that a SHA-1 state has absorbed so far.
pub uninterp spec fn sha1_absorbed(state: Sha1State) -> Seq<u8>;

/// The SHA-1 digest of a byte string.
pub uninterp spec fn sha1_digest(data: Seq<u8>) -> Seq<u8>;

/// A fresh SHA-1 state (`Digest::new`), which has absorbed nothing.
#[verifier::external_body]
fn sha1_new() -> (s: Sha1State)
    ensures
        sha1_absorbed(s) == Seq::<u8>::empty(),
{
    Sha1State { inner: <sha1::Sha1 as sha1::Digest>::new() }
}

/// Feeds bytes to a SHA-1 state (`Digest::update`): they are appended to
/// what it has absorbed.
#[verifier::external_body]
fn sha1_update(s: &mut Sha1State, data: &[u8])
    ensures
        sha1_absorbed(*final(s)) == sha1_absorbed(*old(s)) + data@,
{
    sha1::Digest::update(&mut s.inner, data)
}

/// Finishes a SHA-1 computation (`Digest::finalize`): the 20-byte digest of
/// everything the state absorbed.
#[verifier::external_body]
fn sha1_finalize(s: Sha1State) -> (d: Vec<u8>)
    ensures
        d@ == sha1_digest(sha1_absorbed(s)),
        d@.len() == 20,
{
    sha1::Digest::finalize(s.inner).to_vec()
}

/// Computes the SHA-1 label of data fed to it in pieces.
pub struct Sha1Hasher {
    state: Sha1State,
}

impl Sha1Hasher {
    /// Everything fed to the hasher so far, in order.
    pub closed spec fn data(&self) -> Seq<u8> {
        sha1_absorbed(self.state)
    }

    pub fn new() -> (h: Sha1Hasher)
        ensures
            h.data() == Seq::<u8>::empty(),
    {
        Sha1Hasher { state: sha1_new() }
    }

    pub fn update(&mut self, chunk: &[u8])
        ensures
            final(self).data() == old(self).data() + chunk@,
    {
        sha1_update(&mut self.state, chunk)
    }

    /// The label `sha1:` followed by the hex digest of all data fed: 40
    /// lowercase hex digits, so 45 characters in all.
    pub fn finish(self) -> (s: String)
        ensures
            s@ == algo_prefix(HashAlgo::SHA1) + hex_lower_chars(sha1_digest(self.data())),
            s@.len() == 45,
            forall|i: int| 5 <= i < 45 ==> is_lower_hex(#[trigger] s@[i]),
    {
        let digest = sha1_finalize(self.state);
        let hex = hex_encode(digest.as_slice());
        let s = hash_label(HashAlgo::SHA1, hex.as_str());
        proof {
            reveal_strlit("sha1:");
            let d = digest@;
            assert forall|i: int| 5 <= i < 45 implies is_lower_hex(#[trigger] s@[i]) by {
                assert(s@[i] == hex@[i - 5]);
                let j = i - 5;
                if j % 2 == 0 {
                    assert(d[j / 2] / 16 < 16);
                } else {
                    assert(d[j / 2] % 16 < 16);
                }
            }
        }
        s
    }
}

/// A file's hash label together with the file's path.
#[derive(Debug, PartialEq, Eq)]
pub struct FileHash {
    pub hash: String,
    pub path: Vec<u8>,
}

/// The failure to read a file-hash line, with a message saying why.
#[derive(Debug, PartialEq, Eq)]
pub struct ParseError(pub String);

impl ParseError {
    pub fn new(msg: &str) -> (e: ParseError)
        ensures
            e.0@ == msg@,
    {
        ParseError(msg.to_owned())
    }

    /// The message the error is shown with.
    pub fn to_display_string(&self) -> (s: String)
        ensures
            s@ == "error parsing file hash: "@ + self.0@,
    {
        let mut s = "error parsing file hash: ".to_owned();
        s.append(self.0.as_str());
        s
    }
}

/// The line that stands for a file hash: the hash, a tab, and the escaped
/// path.
pub open spec fn file_hash_line(hash: Seq<char>, path: Seq<u8>) -> Seq<char> {
    hash + seq!['\t'] + ascii_chars(spec_escape(path))
}

/// What reading a line as a file hash gives: `Some(Ok((hash, path)))`, or
/// `Some(Err(message))`, or `None` where the unescaped path is not
/// well-formed UTF-8 and so cannot be read into a path string.
///
/// The text before the first tab, trimmed, is the hash; the text after it,
/// trimmed and unescaped, is the path.
pub open spec fn spec_parse_file_hash(line: Seq<char>) -> Option<Result<(Seq<char>, Seq<u8>), Seq<char>>> {
    let tab = first_index_of(line, '\t');
    let hash = trim_chars(
        match tab {
            Some(i) => line.take(i),
            None => line,
        },
    );
    if hash.len() == 0 {
        Some(Err("empty hash"@))
    } else {
        match tab {
            None => Some(Err("missing path"@)),
            Some(i) => {
                let path = trim_chars(line.skip(i + 1));
                if path.len() == 0 {
                    Some(Err("empty path"@))
                } else {
                    match spec_unescape(encode_utf8(path)) {
                        Err(m) => Some(Err("invalid escape sequence: "@ + ("invalid escape sequence: "@ + m))),
                        Ok(out) => if valid_utf8(out) {
                            Some(Ok((hash, out)))
                        } else {
                            None
                        },
                    }
                }
            },
        }
    }
}

/// The outcome of `FileHash::parse` matches what the specification gives.
pub open spec fn parse_outcome_matches(
    r: Option<Result<FileHash, ParseError>>,
    expected: Option<Result<(Seq<char>, Seq<u8>), Seq<char>>>,
) -> bool {
    match (r, expected) {
        (None, None) => true,
        (Some(Ok(fh)), Some(Ok((h, p)))) => fh.hash@ == h && fh.path@ == p,
        (Some(Err(e)), Some(Err(m))) => e.0@ == m,
        _ => false,
    }
}

impl FileHash {
    /// Reads a file-hash line (see `spec_parse_file_hash`); `None` where the
    /// path it names is not well-formed UTF-8.
    pub fn parse(s: &str) -> (r: Option<Result<FileHash, ParseError>>)
        ensures
            parse_outcome_matches(r, spec_parse_file_hash(s@)),
    {
        let (first, rest) = match split_at_first_tab(s) {
            Some((a, b)) => (a, Some(b)),
            None => (s, None),
        };
        let hash = str_trim(first);
        if hash.is_empty() {
            return Some(Err(ParseError::new("empty hash")));
        }
        let rest = match rest {
            None => {
                return Some(Err(ParseError::new("missing path")));
            },
            Some(b) => b,
        };
        let path = str_trim(rest);
        if path.is_empty() {
            return Some(Err(ParseError::new("empty path")));
        }
        match unescape_bytes(path.as_bytes()) {
            Err(e) => {
                let mut msg = "invalid escape sequence: ".to_owned();
                let shown = e.to_display_string();
                msg.append(shown.as_str());
                Some(Err(ParseError(msg)))
            },
            Ok(buf) => {
                let copy = vstd::slice::slice_to_vec(buf.as_slice());
                match string_from_utf8(buf) {
                    None => None,
                    Some(_) => Some(Ok(FileHash { hash: hash.to_owned(), path: copy })),
                }
            },
        }
    }

    /// Reads a file-hash line whose path is well-formed UTF-8.
    pub fn from_str(s: &str) -> (r: Result<FileHash, ParseError>)
        requires
            spec_parse_file_hash(s@) is Some,
        ensures
            parse_outcome_matches(Some(r), spec_parse_file_hash(s@)),
    {
        match FileHash::parse(s) {
            Some(r) => r,
            None => unreached(),
        }
    }

    /// The line that stands for this file hash: the hash, a tab, and the
    /// escaped path.
    pub fn to_string(&self) -> (s: String)
        ensures
            s@ == file_hash_line(self.hash@, self.path@),
    {
        let mut s = self.hash.clone();
        string_push(&mut s, '\t');
        let escaped = escape(self.path.as_slice());
        s.append(escaped.as_str());
        s
    }
}

proof fn lemma_first_tab(a: Seq<char>, b: Seq<char>)
    requires
        !a.contains('\t'),
    ensures
        first_index_of(a + seq!['\t'] + b, '\t') == Some(a.len() as int),
    decreases a.len(),
{
    let s = a + seq!['\t'] + b;
    if a.len() == 0 {
        assert(s[0] == '\t');
    } else {
        assert(a[0] != '\t') by {
            if a[0] == '\t' {
                assert(a.contains('\t'));
            }
        }
        assert(!a.drop_first().contains('\t')) by {
            if a.drop_first().contains('\t') {
                let j = choose|j: int| 0 <= j < a.drop_first().len() && a.drop_first()[j] == '\t';
                assert(a[j + 1] == '\t');
            }
        }
        lemma_first_tab(a.drop_first(), b);
        assert(s.drop_first() =~= a.drop_first() + seq!['\t'] + b);
    }
}

proof fn lemma_escaped_ends(path: Seq<u8>)
    requires
        path.len() > 0,
        path.last() != 0x20,
    ensures
        spec_escape(path).len() > 0,
        spec_escape(path)[0] != 0x20,
        spec_escape(path).last() != 0x20,
{
    crate::ascii::lemma_escape_push(path.drop_last(), path.last());
    assert(path.drop_last().push(path.last()) =~= path);
    let first = escaped_byte(path[0]);
    let last = escaped_byte(path.last());
    assert(spec_escape(path) == first + spec_escape(path.drop_first()));
    assert(first.len() >= 1 && first[0] != 0x20);
    assert(last.len() >= 1 && last.last() != 0x20) by {
        let x = path.last();
        if !(x == 0x09 || x == 0x0d || x == 0x0a || x == 0x20 || x == 0x27 || x == 0x22 || x == 0x5c)
            && !(0x20 <= x < 0x7f) {
            assert(last =~= seq![0x5cu8, 0x78u8, hex_digit_lower(x / 16), hex_digit_lower(x % 16)]);
        }
    }
    assert(spec_escape(path).last() == last.last());
}

/// A line written for a file hash reads back as that file hash, provided the
/// hash is non-empty, has no surrounding white space and no tab, and the
/// path is non-empty, well-formed UTF-8 and does not end with a space (whose
/// escape ends the line with a space that trimming would remove).
pub proof fn law_file_hash_line_roundtrip(hash: Seq<char>, path: Seq<u8>)
    requires
        hash.len() > 0,
        trim_chars(hash) == hash,
        !hash.contains('\t'),
        path.len() > 0,
        path.last() != 0x20,
        valid_utf8(path),
    ensures
        spec_parse_file_hash(file_hash_line(hash, path)) == Some(Ok::<(Seq<char>, Seq<u8>), Seq<char>>((hash, path))),
{
    let esc = spec_escape(path);
    let e = ascii_chars(esc);
    let line = file_hash_line(hash, path);
    lemma_first_tab(hash, e);
    assert(line.take(hash.len() as int) =~= hash);
    assert(line.skip(hash.len() as int + 1) =~= e);
    crate::ascii::law_escape_printable(path);
    assert(crate::text::is_ascii_bytes(esc));
    crate::text::lemma_ascii_decode(esc);
    lemma_escaped_ends(path);
    assert(e.len() > 0 && e[0] != ' ' && e.last() != ' ');
    assert(!crate::text::is_white_space(e[0]));
    assert(!crate::text::is_white_space(e.last()));
    assert(crate::text::trim_start_chars(e) == e);
    assert(crate::text::trim_end_chars(e) == e);
    crate::ascii::law_unescape_inverts_escape(path);
}

/// What the file search for hashing does with an entry it meets.
#[derive(Copy, Clone, Debug, PartialEq, Eq)]
pub enum SearchStep {
    /// A regular file: hash it.
    Hash,
    /// A directory: search it too.
    Descend,
    /// Anything else, or an entry whose type could not be read: pass it by.
    Skip,
}

/// The step for an entry of the given type (`None` where its type could
/// not be read): regular files are hashed, directories searched, and
/// everything else passed by. The type is that of the entry itself, so a
/// symbolic link is neither a file nor a directory here.
pub fn search_step(kind: Option<crate::xfs::Meta>) -> (step: SearchStep)
    ensures
        step == match kind {
            Some(m) => if m.is_file {
                SearchStep::Hash
            } else if m.is_dir {
                SearchStep::Descend
            } else {
                SearchStep::Skip
            },
            None => SearchStep::Skip,
        },
{
    match kind {
        Some(m) => if m.is_file {
            SearchStep::Hash
        } else if m.is_dir {
            SearchStep::Descend
        } else {
            SearchStep::Skip
        },
        None => SearchStep::Skip,
    }
}

} // verus!
