//! The files of a walk: the walk's items turned into file paths, with an
//! error for each entry that is neither a file nor a directory.

use vstd::prelude::*;
use std::collections::VecDeque;
use crate::xfs::{self, Entry, WalkItem};
use crate::text::{utf8_lossy, string_from_utf8_lossy};
use vstd::string::StringExecFns;

verus! {

/// An error met while listing files: where, and what went wrong.
#[derive(Debug, PartialEq, Eq)]
pub struct Error {
    pub path: Vec<u8>,
    pub message: String,
}

impl Error {
    pub fn new(path: &[u8], message: &str) -> (e: Error)
        ensures
            e.path@ == path@,
            e.message@ == message@,
    {
        Error { path: vstd::slice::slice_to_vec(path), message: message.to_owned() }
    }

    /// The error for a symbolic link, which is not followed.
    pub fn symlink(path: &[u8]) -> (e: Error)
        ensures
            e.path@ == path@,
            e.message@ == "symlinks are not supported"@,
    {
        Error::new(path, "symlinks are not supported")
    }

    /// The error for an entry that is neither a file, a directory nor a
    /// symbolic link.
    pub fn unknown_entry_type(path: &[u8]) -> (e: Error)
        ensures
            e.path@ == path@,
            e.message@ == "unknown entry type"@,
    {
        Error::new(path, "unknown entry type")
    }
}

impl Error {
    /// The message the error is shown with: the message, then the path
    /// (decoded lossily).
    pub fn to_display_string(&self) -> (s: String)
        ensures
            s@ == self.message@ + " (path: "@ + utf8_lossy(self.path@) + ")"@,
    {
        let mut s = self.message.clone();
        s.append(" (path: ");
        let shown = string_from_utf8_lossy(self.path.as_slice());
        s.append(shown.as_str());
        s.append(")");
        s
    }
}

impl From<xfs::Error> for Error {
    fn from(value: xfs::Error) -> (e: Error) {
        Error { path: value.path, message: value.message }
    }
}

impl vstd::std_specs::convert::FromSpecImpl<xfs::Error> for Error {
    open spec fn obeys_from_spec() -> bool {
        true
    }

    open spec fn from_spec(value: xfs::Error) -> Error {
        Error { path: value.path, message: value.message }
    }
}

/// One item of the listing: a file's path, or an error.
pub type FilePathItem = Result<Vec<u8>, Error>;

/// A listing item as values: the path, or the error's path and message.
pub open spec fn item_view(item: FilePathItem) -> Result<Seq<u8>, (Seq<u8>, Seq<char>)> {
    match item {
        Ok(p) => Ok(p@),
        Err(e) => Err((e.path@, e.message@)),
    }
}

/// What a walk item becomes in the listing: a file gives its path, a
/// directory gives nothing, a symbolic link or an entry of unknown kind
/// gives an error at its path, and a walk error is passed on.
pub open spec fn spec_file_path_of(item: WalkItem) -> Option<Result<Seq<u8>, (Seq<u8>, Seq<char>)>> {
    match item {
        Ok(Entry::File { path }) => Some(Ok(path@)),
        Ok(Entry::Directory { path: _ }) => None,
        Ok(Entry::Symlink { path }) => Some(Err((path@, "symlinks are not supported"@))),
        Ok(Entry::Unknown { path }) => Some(Err((path@, "unknown entry type"@))),
        Err(e) => Some(Err((e.path@, e.message@))),
    }
}

/// The listing of a sequence of walk items.
pub open spec fn spec_file_paths(items: Seq<WalkItem>) -> Seq<Result<Seq<u8>, (Seq<u8>, Seq<char>)>>
    decreases items.len(),
{
    if items.len() == 0 {
        seq![]
    } else {
        match spec_file_path_of(items[0]) {
            Some(x) => seq![x] + spec_file_paths(items.drop_first()),
            None => spec_file_paths(items.drop_first()),
        }
    }
}

/// What one walk item becomes in the listing (see `spec_file_path_of`).
pub fn file_path_of(item: WalkItem) -> (r: Option<FilePathItem>)
    ensures
        match r {
            Some(x) => spec_file_path_of(item) == Some(item_view(x)),
            None => spec_file_path_of(item) is None,
        },
{
    match item {
        Ok(entry) => match entry {
            Entry::File { path } => Some(Ok(path)),
            Entry::Directory { path: _ } => None,
            Entry::Symlink { path } => Some(Err(Error::symlink(path.as_slice()))),
            Entry::Unknown { path } => Some(Err(Error::unknown_entry_type(path.as_slice()))),
        },
        Err(err) => Some(Err(Error::from(err))),
    }
}

/// The file paths of a sequence of walk items, one at a time.
pub struct IntoFilePathsIter {
    inner: VecDeque<WalkItem>,
}

/// Turns walk items into their listing.
pub trait IntoFilePaths {
    fn into_file_paths(self) -> IntoFilePathsIter;
}

impl IntoFilePaths for Vec<WalkItem> {
    fn into_file_paths(self) -> (it: IntoFilePathsIter)
        ensures
            it.remaining() == self@,
    {
        IntoFilePathsIter::new(self)
    }
}

impl IntoFilePathsIter {
    /// The walk items not yet taken.
    pub closed spec fn remaining(&self) -> Seq<WalkItem> {
        self.inner@
    }

    pub fn new(items: Vec<WalkItem>) -> (it: IntoFilePathsIter)
        ensures
            it.remaining() == items@,
    {
        let mut inner: VecDeque<WalkItem> = VecDeque::new();
        let mut items = items;
        let ghost all = items@;
        while items.len() > 0
            invariant
                items@ == all.take(items@.len() as int),
                inner@ == all.skip(items@.len() as int),
                items@.len() <= all.len(),
            decreases items@.len(),
        {
            let ghost k = items@.len();
            let x = items.pop().unwrap();
            inner.push_front(x);
            assert(inner@ =~= all.skip(items@.len() as int));
            assert(items@ =~= all.take(items@.len() as int));
        }
        assert(all.skip(0) =~= all);
        IntoFilePathsIter { inner }
    }

    /// The next item of the listing: walk items are taken until one gives a
    /// listing item (see `spec_file_path_of`), which is returned; `None`
    /// once no walk items are left. Nothing of the listing is lost or
    /// changed along the way.
    pub fn next(&mut self) -> (r: Option<FilePathItem>)
        ensures
            spec_file_paths(old(self).remaining()) == match r {
                Some(x) => seq![item_view(x)] + spec_file_paths(final(self).remaining()),
                None => Seq::empty(),
            },
            r is None ==> final(self).remaining().len() == 0,
    {
        loop
            invariant
                spec_file_paths(old(self).remaining()) == spec_file_paths(self.remaining()),
            decreases self.remaining().len(),
        {
            let ghost before = self.inner@;
            match self.inner.pop_front() {
                None => {
                    return None;
                },
                Some(item) => {
                    assert(self.inner@ =~= before.drop_first());
                    match file_path_of(item) {
                        Some(x) => {
                            return Some(x);
                        },
                        None => {},
                    }
                },
            }
        }
    }
}

/// No file is left out of the listing: every file the walk yields is listed
/// with its path, unchanged, whatever its name; only directories give
/// nothing; and every other entry or walk error is listed as an error at its
/// own path.
pub proof fn law_every_file_is_listed(item: WalkItem)
    ensures
        item matches Ok(Entry::File { path }) ==> spec_file_path_of(item) == Some(Ok::<Seq<u8>, (Seq<u8>, Seq<char>)>(path@)),
        (spec_file_path_of(item) is None) <==> (item matches Ok(Entry::Directory { path: _ })),
        item matches Ok(Entry::Symlink { path }) ==> spec_file_path_of(item) matches Some(Err((q, _))) && q == path@,
        item matches Ok(Entry::Unknown { path }) ==> spec_file_path_of(item) matches Some(Err((q, _))) && q == path@,
        item matches Err(e) ==> spec_file_path_of(item) == Some(Err::<Seq<u8>, (Seq<u8>, Seq<char>)>((e.path@, e.message@))),
{
}

/// A listing keeps every file of the walk, in order: listing walk items one
/// after another gives the listing of the first ones followed by the new
/// item's, and a file item adds exactly its path.
pub proof fn law_listing_grows_by_each_file(items: Seq<WalkItem>, path: Vec<u8>)
    ensures
        spec_file_paths(seq![Ok(Entry::File { path })] + items)
            == seq![Ok::<Seq<u8>, (Seq<u8>, Seq<char>)>(path@)] + spec_file_paths(items),
{
    assert((seq![Ok(Entry::File { path })] + items).drop_first() =~= items);
}

} // verus!
