//! The decisions of a breadth-first walk of a directory tree.
//!
//! The walk itself reads directories, which the library leaves to its
//! driver: the `Walker` says what to read next (`request`), and takes what
//! was read (`on_open`, `on_entry`), answering with the walk's next item
//! where there is one. Directories are read in the order they are found.

use vstd::prelude::*;
use std::collections::VecDeque;
use crate::paths::vec_views;
use crate::text::{utf8_lossy, string_from_utf8_lossy};
use vstd::string::StringExecFns;

verus! {

/// An error met while walking: where, and what went wrong.
#[derive(Debug, PartialEq, Eq)]
pub struct Error {
    pub path: Vec<u8>,
    pub message: String,
}

impl Error {
    pub fn new(path: &[u8], message: &str) -> (e: Error)
        ensures
            e.path@ == path@,
            e.message@ == message@,
    {
        Error { path: vstd::slice::slice_to_vec(path), message: message.to_owned() }
    }

    /// The message the error is shown with: the message, then the path
    /// (decoded lossily).
    pub fn to_display_string(&self) -> (s: String)
        ensures
            s@ == self.message@ + " (path: "@ + utf8_lossy(self.path@) + ")"@,
    {
        let mut s = self.message.clone();
        s.append(" (path: ");
        let shown = string_from_utf8_lossy(self.path.as_slice());
        s.append(shown.as_str());
        s.append(")");
        s
    }
}

/// A file-system entry met by the walk, by kind.
#[derive(Debug, PartialEq, Eq)]
pub enum Entry {
    File { path: Vec<u8> },
    Directory { path: Vec<u8> },
    Symlink { path: Vec<u8> },
    Unknown { path: Vec<u8> },
}

/// The kind of an entry as its metadata tells it.
#[derive(Copy, Clone, Debug, PartialEq, Eq)]
pub struct Meta {
    pub is_dir: bool,
    pub is_file: bool,
    pub is_symlink: bool,
}

impl Entry {
    pub fn file(path: &[u8]) -> (e: Entry)
        ensures
            e matches Entry::File { path: p } && p@ == path@,
    {
        Entry::File { path: vstd::slice::slice_to_vec(path) }
    }

    pub fn directory(path: &[u8]) -> (e: Entry)
        ensures
            e matches Entry::Directory { path: p } && p@ == path@,
    {
        Entry::Directory { path: vstd::slice::slice_to_vec(path) }
    }

    pub fn symlink(path: &[u8]) -> (e: Entry)
        ensures
            e matches Entry::Symlink { path: p } && p@ == path@,
    {
        Entry::Symlink { path: vstd::slice::slice_to_vec(path) }
    }

    pub fn unknown(path: &[u8]) -> (e: Entry)
        ensures
            e matches Entry::Unknown { path: p } && p@ == path@,
    {
        Entry::Unknown { path: vstd::slice::slice_to_vec(path) }
    }

    /// The entry for a path with the given metadata: a directory, else a
    /// file, else a symbolic link, else of unknown kind.
    pub fn from_meta(path: Vec<u8>, meta: Meta) -> (e: Entry)
        ensures
            e@ == kind_of(path@, meta),
    {
        if meta.is_dir {
            Entry::Directory { path }
        } else if meta.is_file {
            Entry::File { path }
        } else if meta.is_symlink {
            Entry::Symlink { path }
        } else {
            Entry::Unknown { path }
        }
    }
}

/// An entry as a value: its kind and path.
pub enum EntryView {
    File(Seq<u8>),
    Directory(Seq<u8>),
    Symlink(Seq<u8>),
    Unknown(Seq<u8>),
}

impl View for Entry {
    type V = EntryView;

    open spec fn view(&self) -> EntryView {
        match self {
            Entry::File { path } => EntryView::File(path@),
            Entry::Directory { path } => EntryView::Directory(path@),
            Entry::Symlink { path } => EntryView::Symlink(path@),
            Entry::Unknown { path } => EntryView::Unknown(path@),
        }
    }
}

/// The entry for a path with the given metadata: a directory, else a file,
/// else a symbolic link, else of unknown kind.
pub open spec fn kind_of(path: Seq<u8>, meta: Meta) -> EntryView {
    if meta.is_dir {
        EntryView::Directory(path)
    } else if meta.is_file {
        EntryView::File(path)
    } else if meta.is_symlink {
        EntryView::Symlink(path)
    } else {
        EntryView::Unknown(path)
    }
}

/// One item of a walk.
pub type WalkItem = Result<Entry, Error>;

/// A walk item as a value: the entry, or the error's path and message.
pub open spec fn walk_item_view(item: WalkItem) -> Result<EntryView, (Seq<u8>, Seq<char>)> {
    match item {
        Ok(e) => Ok(e@),
        Err(e) => Err((e.path@, e.message@)),
    }
}

pub open spec fn option_item_view(item: Option<WalkItem>) -> Option<Result<EntryView, (Seq<u8>, Seq<char>)>> {
    match item {
        Some(i) => Some(walk_item_view(i)),
        None => None,
    }
}

/// What the walker needs done next.
#[derive(Debug, PartialEq, Eq)]
pub enum Request {
    /// Read the next entry of the directory being read.
    NextEntry,
    /// Open this directory for reading.
    Open(Vec<u8>),
    /// The walk is over.
    Done,
}

/// What reading the next entry of the directory being read gave.
#[derive(Debug, PartialEq, Eq)]
pub enum DirEvent {
    /// The directory has no more entries.
    End,
    /// Reading failed, with this message.
    Failed(String),
    /// An entry at this path, with its metadata or the message of the
    /// failure to read it.
    Found { path: Vec<u8>, meta: Result<Meta, String> },
}

impl View for DirEvent {
    type V = DirEventView;

    open spec fn view(&self) -> DirEventView {
        match self {
            DirEvent::End => DirEventView::End,
            DirEvent::Failed(m) => DirEventView::Failed(m@),
            DirEvent::Found { path, meta } => DirEventView::Found(
                path@,
                match meta {
                    Ok(m) => Ok(*m),
                    Err(m) => Err(m@),
                },
            ),
        }
    }
}

/// A `Request` as a value.
pub enum RequestView {
    NextEntry,
    Open(Seq<u8>),
    Done,
}

impl View for Request {
    type V = RequestView;

    open spec fn view(&self) -> RequestView {
        match self {
            Request::NextEntry => RequestView::NextEntry,
            Request::Open(p) => RequestView::Open(p@),
            Request::Done => RequestView::Done,
        }
    }
}

/// What a walk in state `s` needs done next: read on in the directory being
/// read; else open the oldest waiting directory; else nothing, it is over.
pub open spec fn spec_request(s: WalkState) -> RequestView {
    if s.active is Some {
        RequestView::NextEntry
    } else if s.queue.len() > 0 {
        RequestView::Open(s.queue[0])
    } else {
        RequestView::Done
    }
}

/// A `DirEvent` as a value.
pub enum DirEventView {
    End,
    Failed(Seq<char>),
    Found(Seq<u8>, Result<Meta, Seq<char>>),
}

/// The state of a walk as a value: the directory being read, if any, and
/// the directories found but not yet read, oldest first.
pub struct WalkState {
    pub active: Option<Seq<u8>>,
    pub queue: Seq<Seq<u8>>,
}

/// Taking what reading the next entry of the directory being read gave:
/// the new state and the item yielded, if any. At the end the directory is
/// done. A failure yields an error at the directory's path; an unreadable
/// entry yields an error at its own path. A directory entry is queued for
/// reading and yields nothing; any other entry is yielded.
pub open spec fn spec_on_entry(s: WalkState, event: DirEventView) -> (WalkState, Option<Result<EntryView, (Seq<u8>, Seq<char>)>>) {
    match event {
        DirEventView::End => (WalkState { active: None, queue: s.queue }, None),
        DirEventView::Failed(m) => (s, Some(Err((s.active.unwrap(), m)))),
        DirEventView::Found(p, Err(m)) => (s, Some(Err((p, m)))),
        DirEventView::Found(p, Ok(meta)) => if meta.is_dir {
            (WalkState { active: s.active, queue: s.queue.push(p) }, None)
        } else {
            (s, Some(Ok(kind_of(p, meta))))
        },
    }
}

/// Taking the outcome of opening the oldest waiting directory, which leaves
/// the queue: on success it becomes the directory being read and is yielded
/// as a directory entry; on failure the error is yielded, at its path.
pub open spec fn spec_on_open(s: WalkState, opened: Result<(), Seq<char>>) -> (WalkState, Result<EntryView, (Seq<u8>, Seq<char>)>) {
    let dir = s.queue[0];
    match opened {
        Ok(()) => (WalkState { active: Some(dir), queue: s.queue.drop_first() }, Ok(EntryView::Directory(dir))),
        Err(m) => (WalkState { active: None, queue: s.queue.drop_first() }, Err((dir, m))),
    }
}

/// The state of a walk: the directory being read, if any, and the
/// directories found but not yet read, oldest first.
pub struct Walker {
    active: Option<Vec<u8>>,
    queue: VecDeque<Vec<u8>>,
}

/// Starts a walk at `path`: nothing is being read, and `path` is the one
/// directory waiting to be read.
pub fn walk(path: &[u8]) -> (w: Walker)
    ensures
        w.active() is None,
        w.queue() == seq![path@],
{
    let mut queue: VecDeque<Vec<u8>> = VecDeque::new();
    queue.push_back(vstd::slice::slice_to_vec(path));
    let w = Walker { active: None, queue };
    assert(w.queue() =~= seq![path@]);
    w
}

impl Walker {
    /// The path of the directory being read, if any.
    pub closed spec fn active(&self) -> Option<Seq<u8>> {
        match self.active {
            Some(p) => Some(p@),
            None => None,
        }
    }

    /// The directories waiting to be read, oldest first.
    pub closed spec fn queue(&self) -> Seq<Seq<u8>> {
        vec_views(self.queue@)
    }

    pub open spec fn state(&self) -> WalkState {
        WalkState { active: self.active(), queue: self.queue() }
    }

    /// What to do next: read on in the directory being read; else open the
    /// oldest waiting directory; else stop.
    pub fn request(&self) -> (r: Request)
        ensures
            r@ == spec_request(self.state()),
            self.active() is Some ==> r == Request::NextEntry,
            self.active() is None && self.queue().len() > 0 ==> (r matches Request::Open(p) && p@ == self.queue()[0]),
            self.active() is None && self.queue().len() == 0 ==> r == Request::Done,
    {
        if self.active.is_some() {
            Request::NextEntry
        } else if self.queue.len() > 0 {
            let front = &self.queue[0];
            Request::Open(vstd::slice::slice_to_vec(front.as_slice()))
        } else {
            Request::Done
        }
    }

    /// Takes the outcome of opening the oldest waiting directory (see
    /// `spec_on_open`).
    pub fn on_open(&mut self, opened: Result<(), String>) -> (item: WalkItem)
        requires
            old(self).active() is None,
            old(self).queue().len() > 0,
        ensures
            (final(self).state(), walk_item_view(item)) == spec_on_open(
                old(self).state(),
                match opened {
                    Ok(()) => Ok(()),
                    Err(m) => Err(m@),
                },
            ),
    {
        let ghost q = self.queue@;
        let path = match self.queue.pop_front() {
            Some(p) => p,
            None => unreached(),
        };
        assert(self.queue() =~= vec_views(q).drop_first());
        match opened {
            Ok(()) => {
                let entry = Entry::directory(path.as_slice());
                self.active = Some(path);
                Ok(entry)
            },
            Err(message) => Err(Error { path, message }),
        }
    }

    /// Takes what reading the next entry of the directory being read gave
    /// (see `spec_on_entry`).
    pub fn on_entry(&mut self, event: DirEvent) -> (item: Option<WalkItem>)
        requires
            old(self).active() is Some,
        ensures
            (final(self).state(), option_item_view(item)) == spec_on_entry(old(self).state(), event@),
    {
        match event {
            DirEvent::End => {
                self.active = None;
                None
            },
            DirEvent::Failed(message) => {
                let path = match &self.active {
                    Some(p) => vstd::slice::slice_to_vec(p.as_slice()),
                    None => unreached(),
                };
                Some(Err(Error { path, message }))
            },
            DirEvent::Found { path, meta } => match meta {
                Err(message) => Some(Err(Error { path, message })),
                Ok(meta) => {
                    if meta.is_dir {
                        let ghost q = self.queue@;
                        let ghost pv = path@;
                        self.queue.push_back(path);
                        assert(self.queue() =~= vec_views(q).push(pv));
                        None
                    } else {
                        Some(Ok(Entry::from_meta(path, meta)))
                    }
                },
            },
        }
    }
}

/// The state and the items after reading `listing` to its end, each entry
/// readable, in the directory being read.
pub open spec fn read_listing(s: WalkState, listing: Seq<(Seq<u8>, Meta)>) -> (WalkState, Seq<Result<EntryView, (Seq<u8>, Seq<char>)>>)
    decreases listing.len(),
{
    if listing.len() == 0 {
        (spec_on_entry(s, DirEventView::End).0, seq![])
    } else {
        let (s1, item) = spec_on_entry(s, DirEventView::Found(listing[0].0, Ok(listing[0].1)));
        let (s2, rest) = read_listing(s1, listing.drop_first());
        (
            s2,
            match item {
                Some(i) => seq![i] + rest,
                None => rest,
            },
        )
    }
}

/// The subdirectories of a listing, in order.
pub open spec fn listed_dirs(listing: Seq<(Seq<u8>, Meta)>) -> Seq<Seq<u8>>
    decreases listing.len(),
{
    if listing.len() == 0 {
        seq![]
    } else if listing[0].1.is_dir {
        seq![listing[0].0] + listed_dirs(listing.drop_first())
    } else {
        listed_dirs(listing.drop_first())
    }
}

/// The entries of a listing other than directories, in order.
pub open spec fn listed_others(listing: Seq<(Seq<u8>, Meta)>) -> Seq<Result<EntryView, (Seq<u8>, Seq<char>)>>
    decreases listing.len(),
{
    if listing.len() == 0 {
        seq![]
    } else if listing[0].1.is_dir {
        listed_others(listing.drop_first())
    } else {
        seq![Ok(kind_of(listing[0].0, listing[0].1))] + listed_others(listing.drop_first())
    }
}

/// Reading a directory to its end loses nothing and keeps the order: its
/// entries other than directories are yielded in the order read, its
/// subdirectories join the end of the queue in the order read, and the
/// directory is then done.
pub proof fn law_reading_a_directory(s: WalkState, listing: Seq<(Seq<u8>, Meta)>)
    requires
        s.active is Some,
    ensures
        read_listing(s, listing) == (
            WalkState { active: None, queue: s.queue + listed_dirs(listing) },
            listed_others(listing),
        ),
    decreases listing.len(),
{
    if listing.len() == 0 {
        assert(s.queue + listed_dirs(listing) =~= s.queue);
    } else {
        let (s1, item) = spec_on_entry(s, DirEventView::Found(listing[0].0, Ok(listing[0].1)));
        law_reading_a_directory(s1, listing.drop_first());
        if listing[0].1.is_dir {
            assert(s.queue.push(listing[0].0) + listed_dirs(listing.drop_first()) =~= s.queue + listed_dirs(listing));
        }
    }
}

/// Failures do not stop a walk. A directory that cannot be opened yields one
/// error, at its path, and leaves the queue, and the walk goes on with the
/// next waiting directory; a failed read in the directory being read, or an
/// entry whose metadata cannot be read, yields one error and changes nothing
/// else, so reading goes on. The walk is over exactly when nothing is being
/// read and nothing waits, and then no step applies, so it stays over.
pub proof fn law_failures_do_not_stop_the_walk(s: WalkState, message: Seq<char>, path: Seq<u8>)
    ensures
        s.active is None && s.queue.len() > 0 ==> ({
            let (s1, item) = spec_on_open(s, Err(message));
            &&& item == Err::<EntryView, (Seq<u8>, Seq<char>)>((s.queue[0], message))
            &&& s1 == WalkState { active: None, queue: s.queue.drop_first() }
            &&& spec_request(s1) == if s.queue.len() > 1 {
                RequestView::Open(s.queue[1])
            } else {
                RequestView::Done
            }
        }),
        s.active is Some ==> spec_on_entry(s, DirEventView::Failed(message)) == (
            s,
            Some(Err::<EntryView, (Seq<u8>, Seq<char>)>((s.active.unwrap(), message))),
        ),
        s.active is Some ==> spec_on_entry(s, DirEventView::Found(path, Err(message))) == (
            s,
            Some(Err::<EntryView, (Seq<u8>, Seq<char>)>((path, message))),
        ),
        s.active is Some ==> spec_request(s) == RequestView::NextEntry,
        (spec_request(s) == RequestView::Done) == (s.active is None && s.queue.len() == 0),
{
    if s.active is None && s.queue.len() > 1 {
        assert(s.queue.drop_first()[0] == s.queue[1]);
    }
}

} // verus!
