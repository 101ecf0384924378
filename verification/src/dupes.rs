//! The tree of hashed files that duplicate detection builds from file-hash
//! lines, its printed form, and the duplicates found in it: files sharing a
//! hash, and directories with identical contents.
//!
//! The tree is held as its list of entries, each a key (the component names
//! from the top of the tree down to the entry) with what stands there, kept
//! in the lexicographic order of keys: the depth-first order in which the
//! tree is printed, with the entries of each directory sorted by name.

use vstd::prelude::*;
use vstd::string::StringExecFns;
use crate::hashes::{FileHash, ParseError, spec_parse_file_hash};
use crate::order::{key_lt, compare_keys, compare_bytes, Cmp, lemma_key_lt_irreflexive, lemma_key_lt_total, lemma_key_lt_transitive};
use crate::paths::{components, has_root, spec_file_name, file_name, path_components, vec_views, is_normal, spec_strip_root, law_strip_root_components};
pub use crate::paths::strip_root;
use crate::text::{utf8_lossy, string_from_utf8_lossy, string_push, trim_chars, str_trim};

verus! {

/// What stands at a place in the tree, as a value.
pub enum NodeView {
    File { hash: Seq<char>, path: Seq<u8> },
    Dir,
}

/// What stands at a place in the tree: a hashed file, or a directory.
#[derive(Debug)]
pub enum Node {
    File(FileHash),
    Dir,
}

impl View for Node {
    type V = NodeView;

    open spec fn view(&self) -> NodeView {
        match self {
            Node::File(fh) => NodeView::File { hash: fh.hash@, path: fh.path@ },
            Node::Dir => NodeView::Dir,
        }
    }
}

/// The keys of the entries strictly increase.
pub open spec fn sorted_keys(es: Seq<(Seq<Seq<u8>>, NodeView)>) -> bool {
    forall|i: int, j: int| 0 <= i < j < es.len() ==> #[trigger] key_lt(es[i].0, es[j].0)
}

pub open spec fn has_key(es: Seq<(Seq<Seq<u8>>, NodeView)>, k: Seq<Seq<u8>>) -> bool {
    exists|i: int| 0 <= i < es.len() && es[i].0 == k
}

/// The map from keys to what stands there.
pub open spec fn tree_map(es: Seq<(Seq<Seq<u8>>, NodeView)>) -> Map<Seq<Seq<u8>>, NodeView> {
    Map::new(
        |k: Seq<Seq<u8>>| has_key(es, k),
        |k: Seq<Seq<u8>>| es[key_index(es, k)].1,
    )
}

/// A position at which the key stands, where there is one.
pub open spec fn key_index(es: Seq<(Seq<Seq<u8>>, NodeView)>, k: Seq<Seq<u8>>) -> int {
    choose|i: int| 0 <= i < es.len() && es[i].0 == k
}

/// The map is a tree: keys are non-empty, and every proper prefix of a key
/// names a directory.
pub open spec fn tree_wf(m: Map<Seq<Seq<u8>>, NodeView>) -> bool {
    &&& forall|k: Seq<Seq<u8>>| #[trigger] m.contains_key(k) ==> k.len() >= 1
    &&& forall|k: Seq<Seq<u8>>, j: int|
        #![trigger m.contains_key(k), k.take(j)]
        m.contains_key(k) && 1 <= j < k.len() ==> m.contains_key(k.take(j)) && m[k.take(j)] is Dir
}

/// The directory tree built from file hashes.
pub struct Dir {
    entries: Vec<(Vec<Vec<u8>>, Node)>,
}

impl Dir {
    /// The entries of the tree, in key order.
    pub closed spec fn entries(&self) -> Seq<(Seq<Seq<u8>>, NodeView)> {
        self.entries@.map_values(|e: (Vec<Vec<u8>>, Node)| (vec_views(e.0@), e.1@))
    }

    /// The entries are in strictly increasing key order and form a tree.
    pub open spec fn wf(&self) -> bool {
        &&& sorted_keys(self.entries())
        &&& tree_wf(tree_map(self.entries()))
    }
}

impl View for Dir {
    type V = Map<Seq<Seq<u8>>, NodeView>;

    open spec fn view(&self) -> Map<Seq<Seq<u8>>, NodeView> {
        tree_map(self.entries())
    }
}

proof fn lemma_tree_map_at(es: Seq<(Seq<Seq<u8>>, NodeView)>, i: int)
    requires
        sorted_keys(es),
        0 <= i < es.len(),
    ensures
        tree_map(es).contains_key(es[i].0),
        tree_map(es)[es[i].0] == es[i].1,
{
    let k = es[i].0;
    assert(has_key(es, k));
    let j = key_index(es, k);
    if j != i {
        lemma_key_lt_irreflexive(k);
        if j < i {
            assert(key_lt(es[j].0, es[i].0));
        } else {
            assert(key_lt(es[i].0, es[j].0));
        }
    }
    assert(j == i);
    assert(tree_map(es)[k] == es[j].1);
}

proof fn lemma_sorted_insert(es: Seq<(Seq<Seq<u8>>, NodeView)>, pos: int, k: Seq<Seq<u8>>, v: NodeView)
    requires
        sorted_keys(es),
        0 <= pos <= es.len(),
        forall|j: int| 0 <= j < pos ==> #[trigger] key_lt(es[j].0, k),
        forall|j: int| pos <= j < es.len() ==> #[trigger] key_lt(k, es[j].0),
    ensures
        sorted_keys(es.insert(pos, (k, v))),
        !tree_map(es).contains_key(k),
        tree_map(es.insert(pos, (k, v))) == tree_map(es).insert(k, v),
{
    let es2 = es.insert(pos, (k, v));
    assert forall|i: int, j: int| 0 <= i < j < es2.len() implies #[trigger] key_lt(es2[i].0, es2[j].0) by {
        if i < pos && j == pos {
        } else if i == pos && j > pos {
        } else if i < pos && j > pos {
            assert(key_lt(es[i].0, es[j - 1].0));
        } else if j < pos {
            assert(key_lt(es[i].0, es[j].0));
        } else {
            assert(key_lt(es[i - 1].0, es[j - 1].0));
        }
    }
    lemma_key_lt_irreflexive(k);
    assert(!tree_map(es).contains_key(k)) by {
        if has_key(es, k) {
            let j = choose|j: int| 0 <= j < es.len() && es[j].0 == k;
            if j < pos {
                assert(key_lt(es[j].0, k));
            } else {
                assert(key_lt(k, es[j].0));
            }
        }
    }
    let m1 = tree_map(es2);
    let m2 = tree_map(es).insert(k, v);
    assert forall|q: Seq<Seq<u8>>| #[trigger] m1.contains_key(q) <==> m2.contains_key(q) by {
        if m1.contains_key(q) {
            let j = choose|j: int| 0 <= j < es2.len() && es2[j].0 == q;
            if j < pos {
                assert(es[j].0 == q);
            } else if j > pos {
                assert(es[j - 1].0 == q);
            }
        }
        if m2.contains_key(q) && q != k {
            let j = choose|j: int| 0 <= j < es.len() && es[j].0 == q;
            if j < pos {
                assert(es2[j].0 == q);
            } else {
                assert(es2[j + 1].0 == q);
            }
        }
        if q == k {
            assert(es2[pos].0 == q);
        }
    }
    assert forall|q: Seq<Seq<u8>>| m1.contains_key(q) implies #[trigger] m1[q] == m2[q] by {
        if q == k {
            lemma_tree_map_at(es2, pos);
        } else {
            let j = choose|j: int| 0 <= j < es.len() && es[j].0 == q;
            lemma_tree_map_at(es, j);
            if j < pos {
                lemma_tree_map_at(es2, j);
            } else {
                lemma_tree_map_at(es2, j + 1);
            }
        }
    }
    assert(m1 =~= m2);
}

proof fn lemma_wf_insert(m: Map<Seq<Seq<u8>>, NodeView>, k: Seq<Seq<u8>>, v: NodeView)
    requires
        tree_wf(m),
        k.len() >= 1,
        !m.contains_key(k),
        forall|j: int| 1 <= j < k.len() ==> m.contains_key(#[trigger] k.take(j)) && m[k.take(j)] is Dir,
    ensures
        tree_wf(m.insert(k, v)),
{
    let m2 = m.insert(k, v);
    assert forall|q: Seq<Seq<u8>>, j: int| m2.contains_key(q) && 1 <= j < q.len() implies
        #[trigger] m2.contains_key(q.take(j)) && m2[q.take(j)] is Dir by {
        if q == k {
            assert(q.take(j).len() == j);
        } else {
            assert(m.contains_key(q));
            assert(m.contains_key(q.take(j)));
            assert(q.take(j) != k);
        }
    }
}

/// Where a key stands among the entries, or where it would go.
enum Search {
    Found(usize),
    Absent(usize),
}

/// The key under which a path's file is filed: the components of the path
/// with its root stripped (see `law_strip_root_components`: the path's
/// components without the root).
pub open spec fn file_key(path: Seq<u8>) -> Seq<Seq<u8>> {
    components(spec_strip_root(path))
}

proof fn lemma_file_key(path: Seq<u8>)
    requires
        spec_file_name(path) is Some,
    ensures
        file_key(path).len() >= 1,
        file_key(path).last() == spec_file_name(path).unwrap(),
{
    law_strip_root_components(path);
    let c = components(path);
    if has_root(path) {
        assert(c[0] =~= seq![0x2fu8]);
        assert(!is_normal(c[0]));
        assert(c.len() >= 2);
    }
}

/// Inserting a file first makes sure that each proper prefix of its key is
/// a directory, from the top down: a missing one is added as a directory,
/// and a file there stops the insertion (its path is returned).
pub open spec fn add_parents(m: Map<Seq<Seq<u8>>, NodeView>, key: Seq<Seq<u8>>, i: nat) -> (Map<Seq<Seq<u8>>, NodeView>, Option<Seq<u8>>)
    decreases key.len() - i,
{
    if i + 1 >= key.len() {
        (m, None)
    } else {
        let p = key.take(i as int + 1);
        if m.contains_key(p) {
            match m[p] {
                NodeView::File { hash: _, path } => (m, Some(path)),
                NodeView::Dir => add_parents(m, key, i + 1),
            }
        } else {
            add_parents(m.insert(p, NodeView::Dir), key, i + 1)
        }
    }
}

/// How what already stands where a file was to be inserted is described:
/// `FILE` and its hash, or `DIR` and its name (decoded lossily) with `/`.
pub open spec fn existing_text(node: NodeView, name: Seq<u8>) -> Seq<char> {
    match node {
        NodeView::File { hash, path: _ } => "FILE "@ + hash,
        NodeView::Dir => "DIR "@ + utf8_lossy(name) + "/"@,
    }
}

/// Why a file could not be inserted.
#[derive(Debug, PartialEq, Eq)]
pub enum InsertError {
    /// The path has no file name.
    NoFileName,
    /// A file stands where a directory on the path was needed; its path.
    NotADir(Vec<u8>),
    /// Something already stands at the file's place (see `existing_text`).
    Conflict { path: Vec<u8>, new: String, existing: String },
}

pub enum InsertErrorView {
    NoFileName,
    NotADir(Seq<u8>),
    Conflict { path: Seq<u8>, new: Seq<char>, existing: Seq<char> },
}

impl View for InsertError {
    type V = InsertErrorView;

    open spec fn view(&self) -> InsertErrorView {
        match self {
            InsertError::NoFileName => InsertErrorView::NoFileName,
            InsertError::NotADir(p) => InsertErrorView::NotADir(p@),
            InsertError::Conflict { path, new, existing } => InsertErrorView::Conflict {
                path: path@,
                new: new@,
                existing: existing@,
            },
        }
    }
}

pub open spec fn insert_result_view(r: Result<(), InsertError>) -> Result<(), InsertErrorView> {
    match r {
        Ok(()) => Ok(()),
        Err(e) => Err(e@),
    }
}

/// Inserting the file at `path` with hash `hash`: the new tree and the
/// outcome.
pub open spec fn spec_insert(m: Map<Seq<Seq<u8>>, NodeView>, path: Seq<u8>, hash: Seq<char>) -> (Map<Seq<Seq<u8>>, NodeView>, Result<(), InsertErrorView>) {
    match spec_file_name(path) {
        None => (m, Err(InsertErrorView::NoFileName)),
        Some(name) => {
            let key = file_key(path);
            let (m1, blocked) = add_parents(m, key, 0);
            match blocked {
                Some(fp) => (m1, Err(InsertErrorView::NotADir(fp))),
                None => if m1.contains_key(key) {
                    (
                        m1,
                        Err(InsertErrorView::Conflict {
                            path,
                            new: hash,
                            existing: existing_text(m1[key], name),
                        }),
                    )
                } else {
                    (m1.insert(key, NodeView::File { hash, path }), Ok(()))
                },
            }
        },
    }
}

fn key_prefix(key: &Vec<Vec<u8>>, m: usize) -> (r: Vec<Vec<u8>>)
    requires
        m <= key@.len(),
    ensures
        vec_views(r@) == vec_views(key@).take(m as int),
{
    let mut r: Vec<Vec<u8>> = Vec::new();
    let mut j: usize = 0;
    while j < m
        invariant
            m <= key@.len(),
            j <= m,
            r@.len() == j,
            forall|t: int| 0 <= t < j ==> #[trigger] r@[t]@ == key@[t]@,
        decreases m - j,
    {
        let part = vstd::slice::slice_to_vec(key[j].as_slice());
        r.push(part);
        j = j + 1;
    }
    assert(vec_views(r@) =~= vec_views(key@).take(m as int));
    r
}

impl Dir {
    /// The empty tree.
    pub fn new() -> (d: Dir)
        ensures
            d.wf(),
            d@ == Map::<Seq<Seq<u8>>, NodeView>::empty(),
    {
        let d = Dir { entries: Vec::new() };
        assert(d.entries() =~= Seq::<(Seq<Seq<u8>>, NodeView)>::empty());
        assert(d@ =~= Map::<Seq<Seq<u8>>, NodeView>::empty());
        d
    }

    proof fn lemma_entry_view(&self, i: int)
        requires
            0 <= i < self.entries@.len(),
        ensures
            self.entries()[i].0 == vec_views(self.entries@[i].0@),
            self.entries()[i].1 == self.entries@[i].1@,
            self.entries().len() == self.entries@.len(),
    {
    }

    fn find(&self, key: &Vec<Vec<u8>>) -> (r: Search)
        requires
            sorted_keys(self.entries()),
        ensures
            match r {
                Search::Found(i) => i < self.entries().len() && self.entries()[i as int].0 == vec_views(key@),
                Search::Absent(p) => p <= self.entries().len()
                    && (forall|j: int| 0 <= j < p ==> #[trigger] key_lt(self.entries()[j].0, vec_views(key@)))
                    && (forall|j: int| p <= j < self.entries().len() ==> #[trigger] key_lt(vec_views(key@), self.entries()[j].0)),
            },
    {
        let ghost es = self.entries();
        let ghost k = vec_views(key@);
        let mut lo: usize = 0;
        let mut hi: usize = self.entries.len();
        while lo < hi
            invariant
                es == self.entries(),
                k == vec_views(key@),
                sorted_keys(es),
                lo <= hi <= es.len(),
                es.len() == self.entries@.len(),
                forall|j: int| 0 <= j < lo ==> #[trigger] key_lt(es[j].0, k),
                forall|j: int| hi <= j < es.len() ==> #[trigger] key_lt(k, es[j].0),
            decreases hi - lo,
        {
            let mid = lo + (hi - lo) / 2;
            proof { self.lemma_entry_view(mid as int); }
            match compare_keys(&self.entries[mid].0, key) {
                Cmp::Equal => {
                    return Search::Found(mid);
                },
                Cmp::Less => {
                    assert forall|j: int| 0 <= j < mid + 1 implies #[trigger] key_lt(es[j].0, k) by {
                        if j < mid {
                            assert(key_lt(es[j].0, es[mid as int].0));
                            lemma_key_lt_transitive(es[j].0, es[mid as int].0, k);
                        }
                    }
                    lo = mid + 1;
                },
                Cmp::Greater => {
                    assert forall|j: int| mid <= j < es.len() implies #[trigger] key_lt(k, es[j].0) by {
                        if j > mid {
                            assert(key_lt(es[mid as int].0, es[j].0));
                            lemma_key_lt_transitive(k, es[mid as int].0, es[j].0);
                        }
                    }
                    hi = mid;
                },
            }
        }
        Search::Absent(lo)
    }

    /// Puts an entry at position `pos`, where its key belongs.
    fn put(&mut self, pos: usize, key: Vec<Vec<u8>>, node: Node)
        requires
            old(self).wf(),
            pos <= old(self).entries().len(),
            forall|j: int| 0 <= j < pos ==> #[trigger] key_lt(old(self).entries()[j].0, vec_views(key@)),
            forall|j: int| pos <= j < old(self).entries().len() ==> #[trigger] key_lt(vec_views(key@), old(self).entries()[j].0),
            vec_views(key@).len() >= 1,
            forall|j: int| 1 <= j < vec_views(key@).len() ==>
                old(self)@.contains_key(#[trigger] vec_views(key@).take(j)) && old(self)@[vec_views(key@).take(j)] is Dir,
        ensures
            final(self).wf(),
            !old(self)@.contains_key(vec_views(key@)),
            final(self)@ == old(self)@.insert(vec_views(key@), node@),
    {
        let ghost es = self.entries();
        let ghost k = vec_views(key@);
        let ghost v = node@;
        proof {
            lemma_sorted_insert(es, pos as int, k, v);
            lemma_wf_insert(tree_map(es), k, v);
        }
        self.entries.insert(pos, (key, node));
        assert(self.entries() =~= es.insert(pos as int, (k, v)));
    }

    /// Files the hash of the file at `path` in the tree: the directories on
    /// the way are added where missing, and the file is put at its place
    /// (see `spec_insert`). On failure the tree is left as it was (see
    /// `law_insert_failure_changes_nothing`).
    pub fn insert(&mut self, path: &[u8], hash: &str) -> (r: Result<(), InsertError>)
        requires
            old(self).wf(),
        ensures
            final(self).wf(),
            (final(self)@, insert_result_view(r)) == spec_insert(old(self)@, path@, hash@),
    {
        let name = match file_name(path) {
            None => {
                return Err(InsertError::NoFileName);
            },
            Some(n) => n,
        };
        let ghost fk = file_key(path@);
        proof { lemma_file_key(path@); }
        let stripped = strip_root(path);
        proof { law_strip_root_components(path@); }
        let mut key = path_components(stripped);
        assert(vec_views(key@) == fk);
        let n = key.len();
        let ghost m0 = self@;
        let mut i: usize = 0;
        while i + 1 < n
            invariant
                self.wf(),
                n == key@.len(),
                n >= 1,
                i + 1 <= n,
                vec_views(key@) == fk,
                fk == file_key(path@),
                m0 == old(self)@,
                spec_file_name(path@) == Some(name@),
                add_parents(m0, fk, 0) == add_parents(self@, fk, i as nat),
                forall|j: int| 1 <= j <= i ==> self@.contains_key(#[trigger] fk.take(j)) && self@[fk.take(j)] is Dir,
            decreases n - i,
        {
            let prefix = key_prefix(&key, i + 1);
            let ghost p = fk.take(i + 1);
            assert(vec_views(prefix@) == p);
            match self.find(&prefix) {
                Search::Found(idx) => {
                    proof {
                        self.lemma_entry_view(idx as int);
                        lemma_tree_map_at(self.entries(), idx as int);
                    }
                    match &self.entries[idx].1 {
                        Node::File(fh) => {
                            assert(self@[p] == NodeView::File { hash: fh.hash@, path: fh.path@ });
                            assert(add_parents(self@, fk, i as nat) == (self@, Some(fh.path@)));
                            return Err(InsertError::NotADir(vstd::slice::slice_to_vec(fh.path.as_slice())));
                        },
                        Node::Dir => {},
                    }
                },
                Search::Absent(pos) => {
                    assert forall|j: int| 1 <= j < p.len() implies
                        self@.contains_key(#[trigger] p.take(j)) && self@[p.take(j)] is Dir by {
                        assert(p.take(j) =~= fk.take(j));
                    }
                    self.put(pos, prefix, Node::Dir);
                },
            }
            i = i + 1;
        }
        assert forall|j: int| 1 <= j < fk.len() implies
            self@.contains_key(#[trigger] fk.take(j)) && self@[fk.take(j)] is Dir by {
        }
        match self.find(&key) {
            Search::Found(idx) => {
                proof {
                    self.lemma_entry_view(idx as int);
                    lemma_tree_map_at(self.entries(), idx as int);
                }
                let existing = match &self.entries[idx].1 {
                    Node::File(fh) => {
                        let mut t = "FILE ".to_owned();
                        t.append(fh.hash.as_str());
                        t
                    },
                    Node::Dir => {
                        let mut t = "DIR ".to_owned();
                        let shown = string_from_utf8_lossy(name.as_slice());
                        t.append(shown.as_str());
                        t.append("/");
                        t
                    },
                };
                Err(InsertError::Conflict { path: vstd::slice::slice_to_vec(path), new: hash.to_owned(), existing })
            },
            Search::Absent(pos) => {
                let node = Node::File(FileHash { hash: hash.to_owned(), path: vstd::slice::slice_to_vec(path) });
                self.put(pos, key, node);
                Ok(())
            },
        }
    }
}

/// Two spaces per level of depth.
pub open spec fn indent(depth: nat) -> Seq<char>
    decreases depth,
{
    if depth == 0 {
        seq![]
    } else {
        indent((depth - 1) as nat) + seq![' ', ' ']
    }
}

/// The printed line of an entry: indented by its depth, its name, then `/`
/// for a directory or a space and the hash for a file.
pub open spec fn entry_line(key: Seq<Seq<u8>>, node: NodeView) -> Seq<char> {
    indent(key.len()) + utf8_lossy(key.last()) + match node {
        NodeView::Dir => seq!['/'],
        NodeView::File { hash, path: _ } => seq![' '] + hash,
    } + seq!['\n']
}

pub open spec fn entry_lines(es: Seq<(Seq<Seq<u8>>, NodeView)>) -> Seq<char>
    decreases es.len(),
{
    if es.len() == 0 {
        seq![]
    } else {
        entry_lines(es.drop_last()) + entry_line(es.last().0, es.last().1)
    }
}

/// The printed tree: a line `/` for the top, then one line per entry in key
/// order (depth first, the entries of each directory sorted by name).
pub open spec fn spec_render(es: Seq<(Seq<Seq<u8>>, NodeView)>) -> Seq<char> {
    seq!['/', '\n'] + entry_lines(es)
}

impl Dir {
    /// The tree as printed text (see `spec_render`).
    pub fn render(&self) -> (s: String)
        requires
            self.wf(),
        ensures
            s@ == spec_render(self.entries()),
    {
        let ghost es = self.entries();
        let mut s = String::new();
        string_push(&mut s, '/');
        string_push(&mut s, '\n');
        let n = self.entries.len();
        assert(es.take(0) =~= Seq::<(Seq<Seq<u8>>, NodeView)>::empty());
        for i in 0..n
            invariant
                es == self.entries(),
                n == es.len(),
                n == self.entries@.len(),
                self.wf(),
                s@ == spec_render(es.take(i as int)),
        {
            let ghost before = s@;
            proof {
                self.lemma_entry_view(i as int);
                lemma_tree_map_at(es, i as int);
            }
            let entry = &self.entries[i];
            let key = &entry.0;
            let depth = key.len();
            let ghost k = es[i as int].0;
            assert(k.len() >= 1);
            for _d in 0..depth
                invariant
                    s@ == before + indent(_d as nat),
            {
                string_push(&mut s, ' ');
                string_push(&mut s, ' ');
            }
            assert(k.last() == key@[depth - 1]@);
            let name = string_from_utf8_lossy(key[depth - 1].as_slice());
            s.append(name.as_str());
            match &entry.1 {
                Node::Dir => {
                    string_push(&mut s, '/');
                },
                Node::File(fh) => {
                    string_push(&mut s, ' ');
                    s.append(fh.hash.as_str());
                },
            }
            string_push(&mut s, '\n');
            assert(es.take(i + 1).drop_last() =~= es.take(i as int));
            assert(s@ =~= spec_render(es.take(i + 1)));
        }
        assert(es.take(n as int) =~= es);
        s
    }
}

/// Why a line of input stopped the building of the tree.
#[derive(Debug, PartialEq, Eq)]
pub enum DupesError {
    Parse(ParseError),
    Insert(InsertError),
}

pub enum DupesErrorView {
    Parse(Seq<char>),
    Insert(InsertErrorView),
}

/// Taking one line of input: blank lines are skipped, others are read as a
/// file hash (trimmed) and filed in the tree. `None` where the line names a
/// path that is not well-formed UTF-8.
pub open spec fn spec_add_line(m: Map<Seq<Seq<u8>>, NodeView>, line: Seq<char>) -> Option<(Map<Seq<Seq<u8>>, NodeView>, Result<(), DupesErrorView>)> {
    let t = trim_chars(line);
    if t.len() == 0 {
        Some((m, Ok(())))
    } else {
        match spec_parse_file_hash(t) {
            None => None,
            Some(Err(msg)) => Some((m, Err(DupesErrorView::Parse(msg)))),
            Some(Ok((hash, path))) => {
                let (m2, res) = spec_insert(m, path, hash);
                Some((
                    m2,
                    match res {
                        Ok(()) => Ok(()),
                        Err(e) => Err(DupesErrorView::Insert(e)),
                    },
                ))
            },
        }
    }
}

pub open spec fn dupes_result_view(r: Result<(), DupesError>) -> Result<(), DupesErrorView> {
    match r {
        Ok(()) => Ok(()),
        Err(DupesError::Parse(e)) => Err(DupesErrorView::Parse(e.0@)),
        Err(DupesError::Insert(e)) => Err(DupesErrorView::Insert(e@)),
    }
}

impl Dir {
    /// Takes one line of input (see `spec_add_line`); `None`, with the tree
    /// unchanged, where the line's path is not well-formed UTF-8.
    pub fn add_line(&mut self, line: &str) -> (r: Option<Result<(), DupesError>>)
        requires
            old(self).wf(),
        ensures
            final(self).wf(),
            match (r, spec_add_line(old(self)@, line@)) {
                (None, None) => final(self)@ == old(self)@,
                (Some(res), Some((m, expected))) => final(self)@ == m && dupes_result_view(res) == expected,
                _ => false,
            },
    {
        let t = str_trim(line);
        if t.is_empty() {
            return Some(Ok(()));
        }
        match FileHash::parse(t) {
            None => None,
            Some(Err(e)) => Some(Err(DupesError::Parse(e))),
            Some(Ok(fh)) => match self.insert(fh.path.as_slice(), fh.hash.as_str()) {
                Ok(()) => Some(Ok(())),
                Err(e) => Some(Err(DupesError::Insert(e))),
            },
        }
    }
}

proof fn lemma_add_parents(m: Map<Seq<Seq<u8>>, NodeView>, key: Seq<Seq<u8>>, i: nat)
    ensures
        ({
            let (m1, blocked) = add_parents(m, key, i);
            &&& forall|k: Seq<Seq<u8>>| #[trigger] m.contains_key(k) ==> m1.contains_key(k) && m1[k] == m[k]
            &&& blocked is None ==> forall|j: int| i + 1 <= j < key.len() ==> m1.contains_key(#[trigger] key.take(j)) && m1[key.take(j)] is Dir
            &&& (forall|j: int| i + 1 <= j < key.len() ==> m.contains_key(#[trigger] key.take(j)) && m[key.take(j)] is Dir)
                ==> add_parents(m, key, i) == (m, None::<Seq<u8>>)
        }),
    decreases key.len() - i,
{
    if i + 1 < key.len() {
        let p = key.take(i as int + 1);
        let (m1, blocked) = add_parents(m, key, i);
        if m.contains_key(p) {
            if m[p] is Dir {
                lemma_add_parents(m, key, i + 1);
                assert(add_parents(m, key, i) == add_parents(m, key, i + 1));
                if blocked is None {
                    assert forall|j: int| i + 1 <= j < key.len() implies
                        m1.contains_key(#[trigger] key.take(j)) && m1[key.take(j)] is Dir by {
                        if j == i + 1 {
                            assert(m.contains_key(key.take(j)));
                        }
                    }
                }
            }
        } else {
            let m2 = m.insert(p, NodeView::Dir);
            lemma_add_parents(m2, key, i + 1);
            assert(add_parents(m, key, i) == add_parents(m2, key, i + 1));
            assert forall|k: Seq<Seq<u8>>| #[trigger] m.contains_key(k) implies m1.contains_key(k) && m1[k] == m[k] by {
                assert(m2.contains_key(k));
            }
            if blocked is None {
                assert forall|j: int| i + 1 <= j < key.len() implies
                    m1.contains_key(#[trigger] key.take(j)) && m1[key.take(j)] is Dir by {
                    if j == i + 1 {
                        assert(m2.contains_key(key.take(j)));
                    }
                }
            }
            if forall|j: int| i + 1 <= j < key.len() ==> m.contains_key(#[trigger] key.take(j)) && m[key.take(j)] is Dir {
                assert(m.contains_key(key.take(i as int + 1)));
            }
        }
    }
}

/// Inserting never removes or changes what the tree already holds, whether
/// it succeeds or fails.
pub proof fn law_insert_keeps_entries(m: Map<Seq<Seq<u8>>, NodeView>, path: Seq<u8>, hash: Seq<char>, k: Seq<Seq<u8>>)
    requires
        m.contains_key(k),
    ensures
        spec_insert(m, path, hash).0.contains_key(k),
        spec_insert(m, path, hash).0[k] == m[k],
{
    lemma_add_parents(m, file_key(path), 0);
}

/// After a successful insertion the file stands at its key with its hash
/// and path, and every directory on its way is a directory.
pub proof fn law_insert_files_the_file(m: Map<Seq<Seq<u8>>, NodeView>, path: Seq<u8>, hash: Seq<char>)
    requires
        spec_insert(m, path, hash).1 is Ok,
    ensures
        spec_insert(m, path, hash).0.contains_key(file_key(path)),
        spec_insert(m, path, hash).0[file_key(path)] == (NodeView::File { hash, path }),
        forall|j: int| 1 <= j < file_key(path).len() ==>
            spec_insert(m, path, hash).0.contains_key(#[trigger] file_key(path).take(j))
            && spec_insert(m, path, hash).0[file_key(path).take(j)] is Dir,
{
    let key = file_key(path);
    lemma_add_parents(m, key, 0);
    let m1 = add_parents(m, key, 0).0;
    assert forall|j: int| 1 <= j < key.len() implies
        spec_insert(m, path, hash).0.contains_key(#[trigger] key.take(j))
        && spec_insert(m, path, hash).0[key.take(j)] is Dir by {
        assert(m1.contains_key(key.take(j)));
        assert(key.take(j).len() != key.len());
    }
}

/// Filing the same path a second time is refused: after a successful
/// insertion, inserting the same path again (with any hash) changes nothing
/// and reports a conflict with the file already there.
pub proof fn law_insert_twice_conflicts(m: Map<Seq<Seq<u8>>, NodeView>, path: Seq<u8>, h1: Seq<char>, h2: Seq<char>)
    requires
        spec_insert(m, path, h1).1 is Ok,
    ensures
        ({
            let m1 = spec_insert(m, path, h1).0;
            spec_insert(m1, path, h2) == (
                m1,
                Err::<(), InsertErrorView>(InsertErrorView::Conflict { path, new: h2, existing: "FILE "@ + h1 }),
            )
        }),
{
    let key = file_key(path);
    let m1 = spec_insert(m, path, h1).0;
    law_insert_files_the_file(m, path, h1);
    lemma_add_parents(m1, key, 0);
}

/// The message an insertion error is shown with (paths decoded lossily).
pub open spec fn insert_error_message(e: InsertError) -> Seq<char> {
    match e {
        InsertError::NoFileName => "path must contain a file name"@,
        InsertError::NotADir(p) => "path \""@ + utf8_lossy(p@) + "\" already exists and is not a directory"@,
        InsertError::Conflict { path, new, existing } => "conflict at \""@ + utf8_lossy(path@) + "\": new="@ + new@
            + ", existing="@ + existing@,
    }
}

impl InsertError {
    /// The message the error is shown with (see `insert_error_message`).
    pub fn to_display_string(&self) -> (s: String)
        ensures
            s@ == insert_error_message(*self),
    {
        match self {
            InsertError::NoFileName => "path must contain a file name".to_owned(),
            InsertError::NotADir(p) => {
                let mut s = "path \"".to_owned();
                let shown = string_from_utf8_lossy(p.as_slice());
                s.append(shown.as_str());
                s.append("\" already exists and is not a directory");
                s
            },
            InsertError::Conflict { path, new, existing } => {
                let mut s = "conflict at \"".to_owned();
                let shown = string_from_utf8_lossy(path.as_slice());
                s.append(shown.as_str());
                s.append("\": new=");
                s.append(new.as_str());
                s.append(", existing=");
                s.append(existing.as_str());
                s
            },
        }
    }
}

impl DupesError {
    /// The message the error is shown with.
    pub fn to_display_string(&self) -> (s: String)
        ensures
            match self {
                DupesError::Parse(e) => s@ == "error parsing file hash: "@ + e.0@,
                DupesError::Insert(e) => s@ == insert_error_message(*e),
            },
    {
        match self {
            DupesError::Parse(e) => e.to_display_string(),
            DupesError::Insert(e) => e.to_display_string(),
        }
    }
}

proof fn lemma_add_parents_all_absent(m: Map<Seq<Seq<u8>>, NodeView>, key: Seq<Seq<u8>>, i: nat)
    requires
        forall|j: int| i + 1 <= j < key.len() ==> !m.contains_key(#[trigger] key.take(j)),
        !m.contains_key(key),
    ensures
        add_parents(m, key, i).1 is None,
        !add_parents(m, key, i).0.contains_key(key),
    decreases key.len() - i,
{
    if i + 1 < key.len() {
        let p = key.take(i as int + 1);
        assert(!m.contains_key(p));
        let m2 = m.insert(p, NodeView::Dir);
        assert forall|j: int| i + 2 <= j < key.len() implies !m2.contains_key(#[trigger] key.take(j)) by {
            assert(key.take(j).len() != p.len());
        }
        assert(p.len() != key.len());
        lemma_add_parents_all_absent(m2, key, i + 1);
    }
}

proof fn lemma_add_parents_wf(m: Map<Seq<Seq<u8>>, NodeView>, key: Seq<Seq<u8>>, i: nat)
    requires
        tree_wf(m),
    ensures
        add_parents(m, key, i).0 == m || (add_parents(m, key, i).1 is None && !add_parents(m, key, i).0.contains_key(key)),
    decreases key.len() - i,
{
    if i + 1 < key.len() {
        let p = key.take(i as int + 1);
        if m.contains_key(p) {
            if m[p] is Dir {
                lemma_add_parents_wf(m, key, i + 1);
            }
        } else {
            assert forall|j: int| i + 1 <= j < key.len() implies !m.contains_key(#[trigger] key.take(j)) by {
                if m.contains_key(key.take(j)) {
                    assert(key.take(j).take(i as int + 1) =~= p);
                }
            }
            assert(!m.contains_key(key)) by {
                if m.contains_key(key) {
                    assert(key.take(i as int + 1) == p);
                }
            }
            lemma_add_parents_all_absent(m, key, i);
        }
    }
}

/// A refused insertion leaves the tree as it was: on a well-formed tree,
/// whenever inserting fails, no directory has been added on the way.
pub proof fn law_insert_failure_changes_nothing(m: Map<Seq<Seq<u8>>, NodeView>, path: Seq<u8>, hash: Seq<char>)
    requires
        tree_wf(m),
        spec_insert(m, path, hash).1 is Err,
    ensures
        spec_insert(m, path, hash).0 == m,
{
    lemma_add_parents_wf(m, file_key(path), 0);
}

/// What stands at a place, without the file's path: a file's hash, or a
/// directory.
pub enum ContentView {
    File(Seq<char>),
    Dir,
}

pub open spec fn content_of(node: NodeView) -> ContentView {
    match node {
        NodeView::File { hash, path: _ } => ContentView::File(hash),
        NodeView::Dir => ContentView::Dir,
    }
}

/// `k` lies strictly below the directory `d`.
pub open spec fn under(k: Seq<Seq<u8>>, d: Seq<Seq<u8>>) -> bool {
    k.len() > d.len() && k.take(d.len() as int) == d
}

/// The key `k`, below `from`, moved to the same place below `to`.
pub open spec fn rebased(k: Seq<Seq<u8>>, from: Seq<Seq<u8>>, to: Seq<Seq<u8>>) -> Seq<Seq<u8>> {
    to + k.skip(from.len() as int)
}

/// The contents of the directory at `d`: what stands at each place below it,
/// by its place relative to `d`.
pub open spec fn dir_contents(m: Map<Seq<Seq<u8>>, NodeView>, d: Seq<Seq<u8>>) -> Map<Seq<Seq<u8>>, ContentView> {
    Map::new(
        |r: Seq<Seq<u8>>| r.len() > 0 && m.contains_key(d + r),
        |r: Seq<Seq<u8>>| content_of(m[d + r]),
    )
}

/// Everything below `d1` stands, with the same content, at the same place
/// below `d2`.
pub open spec fn contents_included(m: Map<Seq<Seq<u8>>, NodeView>, d1: Seq<Seq<u8>>, d2: Seq<Seq<u8>>) -> bool {
    forall|k: Seq<Seq<u8>>|
        #[trigger] m.contains_key(k) && under(k, d1) ==> m.contains_key(rebased(k, d1, d2))
            && content_of(m[rebased(k, d1, d2)]) == content_of(m[k])
}

proof fn lemma_contents_eq(m: Map<Seq<Seq<u8>>, NodeView>, d1: Seq<Seq<u8>>, d2: Seq<Seq<u8>>)
    ensures
        (dir_contents(m, d1) == dir_contents(m, d2)) == (contents_included(m, d1, d2) && contents_included(m, d2, d1)),
{
    let c1 = dir_contents(m, d1);
    let c2 = dir_contents(m, d2);
    if contents_included(m, d1, d2) && contents_included(m, d2, d1) {
        assert forall|r: Seq<Seq<u8>>| #[trigger] c1.contains_key(r) implies c2.contains_key(r) && c1[r] == c2[r] by {
            let k = d1 + r;
            assert(k.take(d1.len() as int) =~= d1);
            assert(k.skip(d1.len() as int) =~= r);
            assert(m.contains_key(k) && under(k, d1));
        }
        assert forall|r: Seq<Seq<u8>>| #[trigger] c2.contains_key(r) implies c1.contains_key(r) by {
            let k = d2 + r;
            assert(k.take(d2.len() as int) =~= d2);
            assert(k.skip(d2.len() as int) =~= r);
            assert(m.contains_key(k) && under(k, d2));
        }
        assert(c1 =~= c2);
    }
    if c1 == c2 {
        assert forall|k: Seq<Seq<u8>>| #[trigger] m.contains_key(k) && under(k, d1) implies m.contains_key(rebased(k, d1, d2))
            && content_of(m[rebased(k, d1, d2)]) == content_of(m[k]) by {
            let r = k.skip(d1.len() as int);
            assert(d1 + r =~= k);
            assert(c1.contains_key(r));
            assert(c2.contains_key(r));
            assert(rebased(k, d1, d2) == d2 + r);
            assert(c1[r] == content_of(m[k]));
            assert(c2[r] == content_of(m[d2 + r]));
        }
        assert forall|k: Seq<Seq<u8>>| #[trigger] m.contains_key(k) && under(k, d2) implies m.contains_key(rebased(k, d2, d1))
            && content_of(m[rebased(k, d2, d1)]) == content_of(m[k]) by {
            let r = k.skip(d2.len() as int);
            assert(d2 + r =~= k);
            assert(c2.contains_key(r));
            assert(c1.contains_key(r));
            assert(rebased(k, d2, d1) == d1 + r);
            assert(c2[r] == content_of(m[k]));
            assert(c1[r] == content_of(m[d1 + r]));
        }
    }
}

fn is_under(k: &Vec<Vec<u8>>, d: &Vec<Vec<u8>>) -> (r: bool)
    ensures
        r == under(vec_views(k@), vec_views(d@)),
{
    let n = d.len();
    if k.len() <= n {
        return false;
    }
    let mut j: usize = 0;
    while j < n
        invariant
            n == d@.len(),
            n < k@.len(),
            j <= n,
            forall|t: int| 0 <= t < j ==> k@[t]@ == d@[t]@,
        decreases n - j,
    {
        match compare_bytes(k[j].as_slice(), d[j].as_slice()) {
            Cmp::Equal => {},
            _ => {
                assert(vec_views(k@).take(n as int)[j as int] != vec_views(d@)[j as int]);
                return false;
            },
        }
        j = j + 1;
    }
    assert(vec_views(k@).take(n as int) =~= vec_views(d@));
    true
}

fn rebase(k: &Vec<Vec<u8>>, from: &Vec<Vec<u8>>, to: &Vec<Vec<u8>>) -> (r: Vec<Vec<u8>>)
    requires
        from@.len() <= k@.len(),
    ensures
        vec_views(r@) == rebased(vec_views(k@), vec_views(from@), vec_views(to@)),
{
    let mut r = key_prefix(to, to.len());
    assert(vec_views(r@).len() == r@.len());
    assert(vec_views(to@).take(to@.len() as int) =~= vec_views(to@));
    assert forall|t: int| 0 <= t < to@.len() implies #[trigger] r@[t]@ == to@[t]@ by {
        assert(vec_views(r@)[t] == r@[t]@);
        assert(vec_views(to@)[t] == to@[t]@);
    }
    let n = k.len();
    let mut j = from.len();
    while j < n
        invariant
            from@.len() <= j <= n,
            n == k@.len(),
            r@.len() == to@.len() + j - from@.len(),
            forall|t: int| 0 <= t < to@.len() ==> #[trigger] r@[t]@ == to@[t]@,
            forall|t: int| to@.len() <= t < r@.len() ==> #[trigger] r@[t]@ == k@[t - to@.len() + from@.len()]@,
        decreases n - j,
    {
        let part = vstd::slice::slice_to_vec(k[j].as_slice());
        r.push(part);
        j = j + 1;
    }
    assert(vec_views(r@) =~= rebased(vec_views(k@), vec_views(from@), vec_views(to@)));
    r
}

fn same_content(a: &Node, b: &Node) -> (r: bool)
    ensures
        r == (content_of(a@) == content_of(b@)),
{
    match (a, b) {
        (Node::File(x), Node::File(y)) => x.hash == y.hash,
        (Node::Dir, Node::Dir) => true,
        _ => false,
    }
}

impl Dir {
    /// Whether everything below the entry at `a` stands, with the same
    /// content, at the same place below the entry at `b`.
    fn contained_in(&self, a: usize, b: usize) -> (r: bool)
        requires
            self.wf(),
            a < self.entries().len(),
            b < self.entries().len(),
        ensures
            r == contents_included(self@, self.entries()[a as int].0, self.entries()[b as int].0),
    {
        let ghost es = self.entries();
        let ghost m = self@;
        let ghost da = es[a as int].0;
        let ghost db = es[b as int].0;
        proof {
            self.lemma_entry_view(a as int);
            self.lemma_entry_view(b as int);
        }
        let n = self.entries.len();
        let mut j: usize = 0;
        while j < n
            invariant
                es == self.entries(),
                m == self@,
                self.wf(),
                n == es.len(),
                n == self.entries@.len(),
                j <= n,
                a < n,
                b < n,
                da == es[a as int].0,
                db == es[b as int].0,
                da == vec_views(self.entries@[a as int].0@),
                db == vec_views(self.entries@[b as int].0@),
                forall|t: int| 0 <= t < j && under(es[t].0, da) ==> m.contains_key(#[trigger] rebased(es[t].0, da, db))
                    && content_of(m[rebased(es[t].0, da, db)]) == content_of(es[t].1),
            decreases n - j,
        {
            proof {
                self.lemma_entry_view(j as int);
                lemma_tree_map_at(es, j as int);
            }
            if is_under(&self.entries[j].0, &self.entries[a].0) {
                let key = rebase(&self.entries[j].0, &self.entries[a].0, &self.entries[b].0);
                match self.find(&key) {
                    Search::Found(idx) => {
                        proof {
                            self.lemma_entry_view(idx as int);
                            lemma_tree_map_at(es, idx as int);
                        }
                        if !same_content(&self.entries[idx].1, &self.entries[j].1) {
                            assert(!contents_included(m, da, db)) by {
                                assert(m.contains_key(es[j as int].0));
                            }
                            return false;
                        }
                    },
                    Search::Absent(_) => {
                        assert(!contents_included(m, da, db)) by {
                            let q = rebased(es[j as int].0, da, db);
                            assert(m.contains_key(es[j as int].0));
                            if m.contains_key(q) {
                                let t = key_index(es, q);
                                lemma_key_lt_irreflexive(q);
                            }
                        }
                        return false;
                    },
                }
            }
            j = j + 1;
        }
        assert forall|k: Seq<Seq<u8>>| #[trigger] m.contains_key(k) && under(k, da) implies m.contains_key(rebased(k, da, db))
            && content_of(m[rebased(k, da, db)]) == content_of(m[k]) by {
            let t = key_index(es, k);
            lemma_tree_map_at(es, t);
        }
        true
    }

    /// Whether the directories at entries `a` and `b` have identical contents.
    fn same_contents(&self, a: usize, b: usize) -> (r: bool)
        requires
            self.wf(),
            a < self.entries().len(),
            b < self.entries().len(),
        ensures
            r == (dir_contents(self@, self.entries()[a as int].0) == dir_contents(self@, self.entries()[b as int].0)),
    {
        proof {
            lemma_contents_eq(self@, self.entries()[a as int].0, self.entries()[b as int].0);
        }
        self.contained_in(a, b) && self.contained_in(b, a)
    }
}

/// A file with hash `h` stands at `k`.
pub open spec fn is_file_with(m: Map<Seq<Seq<u8>>, NodeView>, k: Seq<Seq<u8>>, h: Seq<char>) -> bool {
    m.contains_key(k) && m[k] is File && m[k]->hash == h
}

/// A directory stands at `k`.
pub open spec fn is_dir_at(m: Map<Seq<Seq<u8>>, NodeView>, k: Seq<Seq<u8>>) -> bool {
    m.contains_key(k) && m[k] is Dir
}

pub open spec fn key_views(v: Seq<Vec<Vec<u8>>>) -> Seq<Seq<Seq<u8>>> {
    v.map_values(|k: Vec<Vec<u8>>| vec_views(k@))
}

pub open spec fn file_group_views(v: Seq<(String, Vec<Vec<Vec<u8>>>)>) -> Seq<(Seq<char>, Seq<Seq<Seq<u8>>>)> {
    v.map_values(|g: (String, Vec<Vec<Vec<u8>>>)| (g.0@, key_views(g.1@)))
}

pub open spec fn dir_group_views(v: Seq<Vec<Vec<Vec<u8>>>>) -> Seq<Seq<Seq<Seq<u8>>>> {
    v.map_values(|g: Vec<Vec<Vec<u8>>>| key_views(g@))
}

/// The duplicates in a tree: groups of files with one hash, each with that
/// hash, and groups of directories with identical contents. Members are
/// given by their keys.
pub struct Duplicates {
    pub files: Vec<(String, Vec<Vec<Vec<u8>>>)>,
    pub dirs: Vec<Vec<Vec<Vec<u8>>>>,
}

pub struct DuplicatesView {
    pub files: Seq<(Seq<char>, Seq<Seq<Seq<u8>>>)>,
    pub dirs: Seq<Seq<Seq<Seq<u8>>>>,
}

impl View for Duplicates {
    type V = DuplicatesView;

    open spec fn view(&self) -> DuplicatesView {
        DuplicatesView { files: file_group_views(self.files@), dirs: dir_group_views(self.dirs@) }
    }
}

/// Each group holds two or more keys, each once, and exactly the keys at which
/// a file with the group's hash stands; no two groups have one hash; and every
/// hash that two files share has a group.
pub open spec fn file_groups_exact(m: Map<Seq<Seq<u8>>, NodeView>, fs: Seq<(Seq<char>, Seq<Seq<Seq<u8>>>)>) -> bool {
    &&& forall|i: int| 0 <= i < fs.len() ==> #[trigger] fs[i].1.len() >= 2 && fs[i].1.no_duplicates()
    &&& forall|i: int, k: Seq<Seq<u8>>| 0 <= i < fs.len() ==> (#[trigger] fs[i].1.contains(k) <==> is_file_with(m, k, fs[i].0))
    &&& forall|i: int, j: int| 0 <= i < j < fs.len() ==> #[trigger] fs[i].0 != #[trigger] fs[j].0
    &&& forall|k1: Seq<Seq<u8>>, k2: Seq<Seq<u8>>, h: Seq<char>|
        k1 != k2 && #[trigger] is_file_with(m, k1, h) && #[trigger] is_file_with(m, k2, h)
            ==> exists|i: int| #![trigger fs[i]] 0 <= i < fs.len() && fs[i].0 == h
}

/// Each group holds two or more keys, each once, and exactly the keys at which
/// a directory stands whose contents are those of the group's first; no key
/// is in two groups; and every directory whose contents another directory
/// shares is in a group.
pub open spec fn dir_groups_exact(m: Map<Seq<Seq<u8>>, NodeView>, ds: Seq<Seq<Seq<Seq<u8>>>>) -> bool {
    &&& forall|i: int| 0 <= i < ds.len() ==> #[trigger] ds[i].len() >= 2 && ds[i].no_duplicates()
    &&& forall|i: int, k: Seq<Seq<u8>>| 0 <= i < ds.len() ==> (#[trigger] ds[i].contains(k) <==>
        is_dir_at(m, k) && dir_contents(m, k) == dir_contents(m, ds[i][0]))
    &&& forall|i: int, j: int| 0 <= i < ds.len() && 0 <= j < ds.len() && i != j ==> !(#[trigger] ds[j]).contains((#[trigger] ds[i])[0])
    &&& forall|k1: Seq<Seq<u8>>, k2: Seq<Seq<u8>>|
        k1 != k2 && #[trigger] is_dir_at(m, k1) && #[trigger] is_dir_at(m, k2) && dir_contents(m, k1) == dir_contents(m, k2)
            ==> exists|i: int| #![trigger ds[i]] 0 <= i < ds.len() && ds[i].contains(k1)
}

/// The entry at `t` is a file with hash `h`.
pub open spec fn file_at(es: Seq<(Seq<Seq<u8>>, NodeView)>, t: int, h: Seq<char>) -> bool {
    0 <= t < es.len() && es[t].1 is File && es[t].1->hash == h
}

/// The entry at `t` is a directory with contents `c`.
pub open spec fn dir_like(es: Seq<(Seq<Seq<u8>>, NodeView)>, t: int, c: Map<Seq<Seq<u8>>, ContentView>) -> bool {
    0 <= t < es.len() && es[t].1 is Dir && dir_contents(tree_map(es), es[t].0) == c
}

proof fn lemma_key_unique(es: Seq<(Seq<Seq<u8>>, NodeView)>, t: int, u: int)
    requires
        sorted_keys(es),
        0 <= t < es.len(),
        0 <= u < es.len(),
        es[t].0 == es[u].0,
    ensures
        t == u,
{
    lemma_key_lt_irreflexive(es[t].0);
    if t < u {
        assert(key_lt(es[t].0, es[u].0));
    } else if u < t {
        assert(key_lt(es[u].0, es[t].0));
    }
}

proof fn lemma_file_with(es: Seq<(Seq<Seq<u8>>, NodeView)>, k: Seq<Seq<u8>>, h: Seq<char>)
    requires
        sorted_keys(es),
    ensures
        is_file_with(tree_map(es), k, h) <==> exists|t: int| #[trigger] file_at(es, t, h) && es[t].0 == k,
{
    if is_file_with(tree_map(es), k, h) {
        let t = key_index(es, k);
        lemma_tree_map_at(es, t);
        assert(file_at(es, t, h));
    }
    if exists|t: int| #[trigger] file_at(es, t, h) && es[t].0 == k {
        let t = choose|t: int| #[trigger] file_at(es, t, h) && es[t].0 == k;
        lemma_tree_map_at(es, t);
    }
}

proof fn lemma_dir_at(es: Seq<(Seq<Seq<u8>>, NodeView)>, k: Seq<Seq<u8>>, c: Map<Seq<Seq<u8>>, ContentView>)
    requires
        sorted_keys(es),
    ensures
        (is_dir_at(tree_map(es), k) && dir_contents(tree_map(es), k) == c)
            <==> exists|t: int| #[trigger] dir_like(es, t, c) && es[t].0 == k,
{
    if is_dir_at(tree_map(es), k) && dir_contents(tree_map(es), k) == c {
        let t = key_index(es, k);
        lemma_tree_map_at(es, t);
        assert(dir_like(es, t, c));
    }
    if exists|t: int| #[trigger] dir_like(es, t, c) && es[t].0 == k {
        let t = choose|t: int| #[trigger] dir_like(es, t, c) && es[t].0 == k;
        lemma_tree_map_at(es, t);
    }
}

fn clone_key(k: &Vec<Vec<u8>>) -> (r: Vec<Vec<u8>>)
    ensures
        vec_views(r@) == vec_views(k@),
{
    let r = key_prefix(k, k.len());
    assert(vec_views(k@).take(k@.len() as int) =~= vec_views(k@));
    r
}

impl Dir {
    /// Whether a file with this hash stands before entry `i`.
    fn hash_seen_before(&self, i: usize, hash: &String) -> (r: bool)
        requires
            i <= self.entries().len(),
        ensures
            r == exists|t: int| 0 <= t < i && #[trigger] file_at(self.entries(), t, hash@),
    {
        let ghost es = self.entries();
        let mut t: usize = 0;
        while t < i
            invariant
                es == self.entries(),
                i <= es.len(),
                es.len() == self.entries@.len(),
                t <= i,
                forall|u: int| 0 <= u < t ==> !#[trigger] file_at(es, u, hash@),
            decreases i - t,
        {
            proof { self.lemma_entry_view(t as int); }
            if let Node::File(fh) = &self.entries[t].1 {
                if fh.hash == *hash {
                    assert(file_at(es, t as int, hash@));
                    return true;
                }
            }
            t = t + 1;
        }
        false
    }

    /// The keys, in order, of the files from entry `from` on whose hash is
    /// `hash`.
    fn files_with_hash(&self, from: usize, hash: &String) -> (ks: Vec<Vec<Vec<u8>>>)
        requires
            sorted_keys(self.entries()),
            from <= self.entries().len(),
        ensures
            key_views(ks@).no_duplicates(),
            forall|k: Seq<Seq<u8>>| key_views(ks@).contains(k) <==>
                exists|t: int| from <= t && #[trigger] file_at(self.entries(), t, hash@) && self.entries()[t].0 == k,
    {
        let ghost es = self.entries();
        let ghost h = hash@;
        let n = self.entries.len();
        let mut ks: Vec<Vec<Vec<u8>>> = Vec::new();
        let ghost mut idx: Seq<int> = Seq::empty();
        let mut j = from;
        while j < n
            invariant
                es == self.entries(),
                h == hash@,
                sorted_keys(es),
                n == es.len(),
                n == self.entries@.len(),
                from <= j <= n,
                idx.len() == ks@.len(),
                forall|a: int| 0 <= a < idx.len() ==> from <= #[trigger] idx[a] < j && file_at(es, idx[a], h)
                    && key_views(ks@)[a] == es[idx[a]].0,
                forall|a: int, b: int| 0 <= a < b < idx.len() ==> #[trigger] idx[a] < #[trigger] idx[b],
                forall|t: int| from <= t < j && #[trigger] file_at(es, t, h) ==> key_views(ks@).contains(es[t].0),
            decreases n - j,
        {
            proof { self.lemma_entry_view(j as int); }
            if let Node::File(fh) = &self.entries[j].1 {
                if fh.hash == *hash {
                    let ghost before = key_views(ks@);
                    let key = clone_key(&self.entries[j].0);
                    ks.push(key);
                    proof {
                        idx = idx.push(j as int);
                        assert(key_views(ks@) =~= before.push(es[j as int].0));
                        assert forall|t: int| from <= t < j + 1 && #[trigger] file_at(es, t, h) implies key_views(ks@).contains(es[t].0) by {
                            if t < j {
                                let a = choose|a: int| 0 <= a < before.len() && before[a] == es[t].0;
                                assert(key_views(ks@)[a] == es[t].0);
                            } else {
                                assert(key_views(ks@)[before.len() as int] == es[t].0);
                            }
                        }
                    }
                }
            }
            j = j + 1;
        }
        let ghost kv = key_views(ks@);
        assert forall|a: int, b: int| 0 <= a < kv.len() && 0 <= b < kv.len() && a != b implies kv[a] != kv[b] by {
            if kv[a] == kv[b] {
                lemma_key_unique(es, idx[a], idx[b]);
                if a < b {
                    assert(idx[a] < idx[b]);
                } else {
                    assert(idx[b] < idx[a]);
                }
            }
        }
        assert forall|k: Seq<Seq<u8>>| kv.contains(k) implies
            exists|t: int| from <= t && #[trigger] file_at(es, t, h) && es[t].0 == k by {
            let a = choose|a: int| 0 <= a < kv.len() && kv[a] == k;
            assert(file_at(es, idx[a], h));
        }
        ks
    }
}

/// The group `g` holds the files with its hash, the first of which is entry
/// `rep`.
pub open spec fn file_group_at(es: Seq<(Seq<Seq<u8>>, NodeView)>, rep: int, g: (Seq<char>, Seq<Seq<Seq<u8>>>)) -> bool {
    &&& file_at(es, rep, g.0)
    &&& forall|t: int| 0 <= t < rep ==> !#[trigger] file_at(es, t, g.0)
    &&& g.1.len() >= 2
    &&& g.1.no_duplicates()
    &&& forall|k: Seq<Seq<u8>>| g.1.contains(k) <==> exists|t: int| rep <= t && #[trigger] file_at(es, t, g.0) && es[t].0 == k
}

impl Dir {
    /// The groups of two or more files with one hash.
    fn file_duplicates(&self) -> (fs: Vec<(String, Vec<Vec<Vec<u8>>>)>)
        requires
            self.wf(),
        ensures
            file_groups_exact(self@, file_group_views(fs@)),
    {
        let ghost es = self.entries();
        let n = self.entries.len();
        let mut fs: Vec<(String, Vec<Vec<Vec<u8>>>)> = Vec::new();
        let ghost mut reps: Seq<int> = Seq::empty();
        let mut i: usize = 0;
        while i < n
            invariant
                es == self.entries(),
                self.wf(),
                i <= n,
                n == es.len(),
                n == self.entries@.len(),
                reps.len() == fs@.len(),
                forall|g: int| 0 <= g < reps.len() ==> 0 <= #[trigger] reps[g] < i
                    && file_group_at(es, reps[g], file_group_views(fs@)[g]),
                forall|a: int, b: int| 0 <= a < b < reps.len() ==> #[trigger] reps[a] < #[trigger] reps[b],
                forall|t: int, u: int, h: Seq<char>| 0 <= t < i && t != u && #[trigger] file_at(es, t, h) && #[trigger] file_at(es, u, h)
                    ==> exists|g: int| 0 <= g < reps.len() && (#[trigger] file_group_views(fs@)[g]).0 == h,
            decreases n - i,
        {
            proof { self.lemma_entry_view(i as int); }
            let ghost before = file_group_views(fs@);
            if let Node::File(fh) = &self.entries[i].1 {
                let ghost h = fh.hash@;
                assert(file_at(es, i as int, h));
                if !self.hash_seen_before(i, &fh.hash) {
                    let ks = self.files_with_hash(i, &fh.hash);
                    if ks.len() >= 2 {
                        let hash = fh.hash.clone();
                        fs.push((hash, ks));
                        proof {
                            let ghost old_reps = reps;
                            reps = reps.push(i as int);
                            let ghost fv = file_group_views(fs@);
                            assert(fv =~= before.push((h, key_views(ks@))));
                            assert(key_views(ks@).len() == ks@.len());
                            assert(file_group_at(es, i as int, fv[reps.len() - 1]));
                            assert forall|t: int, u: int, h2: Seq<char>| 0 <= t < i + 1 && t != u
                                && #[trigger] file_at(es, t, h2) && #[trigger] file_at(es, u, h2)
                                implies exists|g: int| 0 <= g < reps.len() && (#[trigger] fv[g]).0 == h2 by {
                                if t < i {
                                    let g = choose|g: int| 0 <= g < old_reps.len() && (#[trigger] before[g]).0 == h2;
                                    assert(fv[g] == before[g]);
                                } else {
                                    assert(reps[reps.len() - 1] == i);
                                    assert(fv[reps.len() - 1].0 == h2);
                                }
                            }
                        }
                    } else {
                        assert forall|u: int| u != i && #[trigger] file_at(es, u, h) implies false by {
                            assert(!(u < i));
                            assert(key_views(ks@).contains(es[u as int].0));
                            assert(key_views(ks@).contains(es[i as int].0));
                            if es[u as int].0 == es[i as int].0 {
                                lemma_key_unique(es, u, i as int);
                            }
                        }
                    }
                } else {
                    let ghost t0 = choose|t: int| 0 <= t < i && #[trigger] file_at(es, t, h);
                    assert(file_at(es, t0, h));
                }
            }
            i = i + 1;
        }
        let ghost fv = file_group_views(fs@);
        let ghost m = self@;
        assert forall|g: int| 0 <= g < fv.len() implies #[trigger] fv[g].1.len() >= 2 && fv[g].1.no_duplicates() by {
            assert(0 <= reps[g] < n);
        }
        assert forall|g: int, k: Seq<Seq<u8>>| 0 <= g < fv.len() implies (#[trigger] fv[g].1.contains(k) <==> is_file_with(m, k, fv[g].0)) by {
            assert(0 <= reps[g] < n);
            lemma_file_with(es, k, fv[g].0);
            if is_file_with(m, k, fv[g].0) {
                let t = choose|t: int| #[trigger] file_at(es, t, fv[g].0) && es[t].0 == k;
                assert(!(t < reps[g]));
            }
        }
        assert forall|a: int, b: int| 0 <= a < b < fv.len() implies #[trigger] fv[a].0 != #[trigger] fv[b].0 by {
            assert(reps[a] < reps[b]);
            assert(0 <= reps[b] < n);
            assert(file_group_at(es, reps[a], fv[a]));
            assert(file_group_at(es, reps[b], fv[b]));
        }
        assert forall|k1: Seq<Seq<u8>>, k2: Seq<Seq<u8>>, h: Seq<char>|
            k1 != k2 && #[trigger] is_file_with(m, k1, h) && #[trigger] is_file_with(m, k2, h)
            implies exists|g: int| #![trigger fv[g]] 0 <= g < fv.len() && fv[g].0 == h by {
            lemma_file_with(es, k1, h);
            lemma_file_with(es, k2, h);
            let t1 = choose|t: int| #[trigger] file_at(es, t, h) && es[t].0 == k1;
            let t2 = choose|t: int| #[trigger] file_at(es, t, h) && es[t].0 == k2;
            assert(file_at(es, t1, h) && file_at(es, t2, h) && t1 != t2);
            let g = choose|g: int| 0 <= g < reps.len() && (#[trigger] fv[g]).0 == h;
            assert(fv[g].0 == h);
        }
        fs
    }
}

/// The contents of the directory at entry `t`.
pub open spec fn contents_at(es: Seq<(Seq<Seq<u8>>, NodeView)>, t: int) -> Map<Seq<Seq<u8>>, ContentView> {
    dir_contents(tree_map(es), es[t].0)
}

/// The group `g` holds the directories whose contents are those of entry
/// `rep`, the first of them, which comes first in `g`.
pub open spec fn dir_group_at(es: Seq<(Seq<Seq<u8>>, NodeView)>, rep: int, g: Seq<Seq<Seq<u8>>>) -> bool {
    &&& dir_like(es, rep, contents_at(es, rep))
    &&& forall|t: int| 0 <= t < rep ==> !#[trigger] dir_like(es, t, contents_at(es, rep))
    &&& g.len() >= 2
    &&& g.no_duplicates()
    &&& g[0] == es[rep].0
    &&& forall|k: Seq<Seq<u8>>| g.contains(k) <==>
        exists|t: int| rep <= t && #[trigger] dir_like(es, t, contents_at(es, rep)) && es[t].0 == k
}

impl Dir {
    /// Whether a directory with the contents of entry `i` stands before it.
    fn contents_seen_before(&self, i: usize) -> (r: bool)
        requires
            self.wf(),
            i < self.entries().len(),
        ensures
            r == exists|t: int| 0 <= t < i && #[trigger] dir_like(self.entries(), t, contents_at(self.entries(), i as int)),
    {
        let ghost es = self.entries();
        let ghost c = contents_at(es, i as int);
        let mut t: usize = 0;
        while t < i
            invariant
                es == self.entries(),
                c == contents_at(es, i as int),
                self.wf(),
                i < es.len(),
                es.len() == self.entries@.len(),
                t <= i,
                forall|u: int| 0 <= u < t ==> !#[trigger] dir_like(es, u, c),
            decreases i - t,
        {
            proof { self.lemma_entry_view(t as int); }
            if let Node::Dir = &self.entries[t].1 {
                if self.same_contents(t, i) {
                    assert(dir_like(es, t as int, c));
                    return true;
                }
            }
            t = t + 1;
        }
        false
    }

    /// The keys, in order, of the directories from entry `from` on whose
    /// contents are those of entry `from`, itself a directory.
    fn dirs_like(&self, from: usize) -> (ks: Vec<Vec<Vec<u8>>>)
        requires
            self.wf(),
            from < self.entries().len(),
            self.entries()[from as int].1 is Dir,
        ensures
            key_views(ks@).no_duplicates(),
            key_views(ks@).len() >= 1,
            key_views(ks@)[0] == self.entries()[from as int].0,
            forall|k: Seq<Seq<u8>>| key_views(ks@).contains(k) <==>
                exists|t: int| from <= t && #[trigger] dir_like(self.entries(), t, contents_at(self.entries(), from as int))
                    && self.entries()[t].0 == k,
    {
        let ghost es = self.entries();
        let ghost c = contents_at(es, from as int);
        let n = self.entries.len();
        let mut ks: Vec<Vec<Vec<u8>>> = Vec::new();
        let ghost mut idx: Seq<int> = Seq::empty();
        let mut j = from;
        while j < n
            invariant
                es == self.entries(),
                c == contents_at(es, from as int),
                self.wf(),
                es[from as int].1 is Dir,
                n == es.len(),
                n == self.entries@.len(),
                from < n,
                from <= j <= n,
                idx.len() == ks@.len(),
                j > from ==> idx.len() >= 1 && idx[0] == from,
                forall|a: int| 0 <= a < idx.len() ==> from <= #[trigger] idx[a] < j && dir_like(es, idx[a], c)
                    && key_views(ks@)[a] == es[idx[a]].0,
                forall|a: int, b: int| 0 <= a < b < idx.len() ==> #[trigger] idx[a] < #[trigger] idx[b],
                forall|t: int| from <= t < j && #[trigger] dir_like(es, t, c) ==> key_views(ks@).contains(es[t].0),
            decreases n - j,
        {
            proof { self.lemma_entry_view(j as int); }
            let is_dir = match &self.entries[j].1 {
                Node::Dir => true,
                Node::File(_) => false,
            };
            if is_dir && self.same_contents(from, j) {
                let ghost before = key_views(ks@);
                let key = clone_key(&self.entries[j].0);
                ks.push(key);
                proof {
                    idx = idx.push(j as int);
                    assert(key_views(ks@) =~= before.push(es[j as int].0));
                    assert forall|t: int| from <= t < j + 1 && #[trigger] dir_like(es, t, c) implies key_views(ks@).contains(es[t].0) by {
                        if t < j {
                            let a = choose|a: int| 0 <= a < before.len() && before[a] == es[t].0;
                            assert(key_views(ks@)[a] == es[t].0);
                        } else {
                            assert(key_views(ks@)[before.len() as int] == es[t].0);
                        }
                    }
                }
            } else {
                assert(!dir_like(es, j as int, c));
            }
            j = j + 1;
        }
        let ghost kv = key_views(ks@);
        assert(dir_like(es, from as int, c));
        assert(kv.contains(es[from as int].0));
        assert forall|a: int, b: int| 0 <= a < kv.len() && 0 <= b < kv.len() && a != b implies kv[a] != kv[b] by {
            if kv[a] == kv[b] {
                lemma_key_unique(es, idx[a], idx[b]);
                if a < b {
                    assert(idx[a] < idx[b]);
                } else {
                    assert(idx[b] < idx[a]);
                }
            }
        }
        assert forall|k: Seq<Seq<u8>>| kv.contains(k) implies
            exists|t: int| from <= t && #[trigger] dir_like(es, t, c) && es[t].0 == k by {
            let a = choose|a: int| 0 <= a < kv.len() && kv[a] == k;
            assert(dir_like(es, idx[a], c));
        }
        ks
    }
}

impl Dir {
    /// The groups of two or more directories with identical contents.
    fn dir_duplicates(&self) -> (ds: Vec<Vec<Vec<Vec<u8>>>>)
        requires
            self.wf(),
        ensures
            dir_groups_exact(self@, dir_group_views(ds@)),
    {
        let ghost es = self.entries();
        let n = self.entries.len();
        let mut ds: Vec<Vec<Vec<Vec<u8>>>> = Vec::new();
        let ghost mut reps: Seq<int> = Seq::empty();
        let mut i: usize = 0;
        while i < n
            invariant
                es == self.entries(),
                self.wf(),
                i <= n,
                n == es.len(),
                n == self.entries@.len(),
                reps.len() == ds@.len(),
                forall|g: int| 0 <= g < reps.len() ==> 0 <= #[trigger] reps[g] < i
                    && dir_group_at(es, reps[g], dir_group_views(ds@)[g]),
                forall|a: int, b: int| 0 <= a < b < reps.len() ==> #[trigger] reps[a] < #[trigger] reps[b],
                forall|t: int, u: int, c: Map<Seq<Seq<u8>>, ContentView>|
                    0 <= t < i && t != u && #[trigger] dir_like(es, t, c) && #[trigger] dir_like(es, u, c)
                    ==> exists|g: int| 0 <= g < reps.len() && (#[trigger] dir_group_views(ds@)[g]).contains(es[t].0),
            decreases n - i,
        {
            proof { self.lemma_entry_view(i as int); }
            let ghost before = dir_group_views(ds@);
            let ghost c = contents_at(es, i as int);
            let is_dir = match &self.entries[i].1 {
                Node::Dir => true,
                Node::File(_) => false,
            };
            if is_dir {
                assert(dir_like(es, i as int, c));
                if !self.contents_seen_before(i) {
                    let ks = self.dirs_like(i);
                    if ks.len() >= 2 {
                        ds.push(ks);
                        proof {
                            let ghost old_reps = reps;
                            reps = reps.push(i as int);
                            let ghost dv = dir_group_views(ds@);
                            assert(dv =~= before.push(key_views(ks@)));
                            assert(key_views(ks@).len() == ks@.len());
                            assert(dir_group_at(es, i as int, dv[reps.len() - 1]));
                            assert forall|t: int, u: int, c2: Map<Seq<Seq<u8>>, ContentView>| 0 <= t < i + 1 && t != u
                                && #[trigger] dir_like(es, t, c2) && #[trigger] dir_like(es, u, c2)
                                implies exists|g: int| 0 <= g < reps.len() && (#[trigger] dv[g]).contains(es[t].0) by {
                                if t < i {
                                    let g = choose|g: int| 0 <= g < old_reps.len() && (#[trigger] before[g]).contains(es[t].0);
                                    assert(dv[g] == before[g]);
                                } else {
                                    assert(dv[reps.len() - 1][0] == es[t].0);
                                }
                            }
                        }
                    } else {
                        assert forall|u: int| u != i && #[trigger] dir_like(es, u, c) implies false by {
                            assert(!(u < i));
                            assert(key_views(ks@).contains(es[u as int].0));
                            assert(key_views(ks@).contains(es[i as int].0));
                            if es[u as int].0 == es[i as int].0 {
                                lemma_key_unique(es, u, i as int);
                            }
                        }
                    }
                } else {
                    proof {
                        let t0 = choose|t: int| 0 <= t < i && #[trigger] dir_like(es, t, c);
                        assert(dir_like(es, t0, c));
                        let g = choose|g: int| 0 <= g < reps.len() && (#[trigger] before[g]).contains(es[t0].0);
                        assert(0 <= reps[g] < i);
                        let rg = reps[g];
                        assert(dir_group_at(es, rg, before[g]));
                        let t1 = choose|t: int| rg <= t && #[trigger] dir_like(es, t, contents_at(es, rg)) && es[t].0 == es[t0].0;
                        lemma_key_unique(es, t1, t0);
                        assert(dir_like(es, i as int, contents_at(es, rg)));
                        assert(before[g].contains(es[i as int].0));
                    }
                }
            } else {
                assert forall|c2: Map<Seq<Seq<u8>>, ContentView>| !#[trigger] dir_like(es, i as int, c2) by {}
            }
            i = i + 1;
        }
        let ghost dv = dir_group_views(ds@);
        let ghost m = self@;
        assert forall|g: int| 0 <= g < dv.len() implies #[trigger] dv[g].len() >= 2 && dv[g].no_duplicates() by {
            assert(0 <= reps[g] < n);
        }
        assert forall|g: int, k: Seq<Seq<u8>>| 0 <= g < dv.len() implies (#[trigger] dv[g].contains(k) <==>
            is_dir_at(m, k) && dir_contents(m, k) == dir_contents(m, dv[g][0])) by {
            assert(0 <= reps[g] < n);
            let rg = reps[g];
            assert(dir_group_at(es, rg, dv[g]));
            lemma_dir_at(es, k, contents_at(es, rg));
            if is_dir_at(m, k) && dir_contents(m, k) == dir_contents(m, dv[g][0]) {
                let t = choose|t: int| #[trigger] dir_like(es, t, contents_at(es, rg)) && es[t].0 == k;
                assert(!(t < rg));
            }
        }
        assert forall|a: int, b: int| 0 <= a < dv.len() && 0 <= b < dv.len() && a != b implies !(#[trigger] dv[b]).contains((#[trigger] dv[a])[0]) by {
            let ra = reps[a];
            let rb = reps[b];
            assert(0 <= ra < n && 0 <= rb < n);
            assert(dir_group_at(es, ra, dv[a]));
            assert(dir_group_at(es, rb, dv[b]));
            if dv[b].contains(dv[a][0]) {
                let t = choose|t: int| rb <= t && #[trigger] dir_like(es, t, contents_at(es, rb)) && es[t].0 == dv[a][0];
                lemma_key_unique(es, t, ra);
                if ra < rb {
                } else {
                    assert(rb != ra);
                    assert(dir_like(es, rb, contents_at(es, ra)));
                }
            }
        }
        assert forall|k1: Seq<Seq<u8>>, k2: Seq<Seq<u8>>|
            k1 != k2 && #[trigger] is_dir_at(m, k1) && #[trigger] is_dir_at(m, k2) && dir_contents(m, k1) == dir_contents(m, k2)
            implies exists|g: int| #![trigger dv[g]] 0 <= g < dv.len() && dv[g].contains(k1) by {
            let c = dir_contents(m, k1);
            lemma_dir_at(es, k1, c);
            lemma_dir_at(es, k2, c);
            let t1 = choose|t: int| #[trigger] dir_like(es, t, c) && es[t].0 == k1;
            let t2 = choose|t: int| #[trigger] dir_like(es, t, c) && es[t].0 == k2;
            assert(dir_like(es, t1, c) && dir_like(es, t2, c) && t1 != t2);
            let g = choose|g: int| 0 <= g < reps.len() && (#[trigger] dv[g]).contains(es[t1].0);
            assert(dv[g].contains(k1));
        }
        ds
    }

    /// The duplicates in the tree: every group of two or more files with one
    /// hash, and every group of two or more directories with identical
    /// contents (see `file_groups_exact` and `dir_groups_exact`).
    pub fn duplicates(&self) -> (d: Duplicates)
        requires
            self.wf(),
        ensures
            file_groups_exact(self@, d@.files),
            dir_groups_exact(self@, d@.dirs),
    {
        Duplicates { files: self.file_duplicates(), dirs: self.dir_duplicates() }
    }
}

/// No file stands at a proper prefix of `key`, from position `i` on.
pub open spec fn no_file_above(m: Map<Seq<Seq<u8>>, NodeView>, key: Seq<Seq<u8>>, i: nat) -> bool {
    forall|j: int| i + 1 <= j < key.len() && m.contains_key(#[trigger] key.take(j)) ==> m[key.take(j)] is Dir
}

/// The proper prefixes of `key` of length more than `i`.
pub open spec fn is_prefix_dir(key: Seq<Seq<u8>>, i: nat, k: Seq<Seq<u8>>) -> bool {
    exists|j: int| i + 1 <= j < key.len() && k == #[trigger] key.take(j)
}

/// `m` with a directory added at each proper prefix of `key` (of length
/// more than `i`) where nothing stands.
pub open spec fn with_dirs(m: Map<Seq<Seq<u8>>, NodeView>, key: Seq<Seq<u8>>, i: nat) -> Map<Seq<Seq<u8>>, NodeView> {
    Map::new(
        |k: Seq<Seq<u8>>| m.contains_key(k) || is_prefix_dir(key, i, k),
        |k: Seq<Seq<u8>>| if m.contains_key(k) { m[k] } else { NodeView::Dir },
    )
}

proof fn lemma_add_parents_shape(m: Map<Seq<Seq<u8>>, NodeView>, key: Seq<Seq<u8>>, i: nat)
    ensures
        (add_parents(m, key, i).1 is None) == no_file_above(m, key, i),
        add_parents(m, key, i).1 is None ==> add_parents(m, key, i).0 == with_dirs(m, key, i),
    decreases key.len() - i,
{
    if i + 1 >= key.len() {
        assert(with_dirs(m, key, i) =~= m);
    } else {
        let p = key.take(i as int + 1);
        if m.contains_key(p) {
            if m[p] is Dir {
                lemma_add_parents_shape(m, key, i + 1);
                assert forall|k: Seq<Seq<u8>>| is_prefix_dir(key, i, k) implies m.contains_key(k) || is_prefix_dir(key, i + 1, k) by {
                    let j = choose|j: int| i + 1 <= j < key.len() && k == #[trigger] key.take(j);
                    if j > i + 1 {
                        assert(is_prefix_dir(key, i + 1, k));
                    }
                }
                assert forall|k: Seq<Seq<u8>>| is_prefix_dir(key, i + 1, k) implies is_prefix_dir(key, i, k) by {
                    let j = choose|j: int| i + 2 <= j < key.len() && k == #[trigger] key.take(j);
                    assert(i + 1 <= j);
                }
                assert(with_dirs(m, key, i) =~= with_dirs(m, key, i + 1));
            } else {
                assert(!no_file_above(m, key, i));
            }
        } else {
            let m2 = m.insert(p, NodeView::Dir);
            lemma_add_parents_shape(m2, key, i + 1);
            assert(no_file_above(m2, key, i + 1) == no_file_above(m, key, i)) by {
                if no_file_above(m, key, i) {
                    assert forall|j: int| i + 2 <= j < key.len() && m2.contains_key(#[trigger] key.take(j)) implies m2[key.take(j)] is Dir by {
                        assert(key.take(j).len() != p.len());
                    }
                }
                if no_file_above(m2, key, i + 1) {
                    assert forall|j: int| i + 1 <= j < key.len() && m.contains_key(#[trigger] key.take(j)) implies m[key.take(j)] is Dir by {
                        assert(j != i + 1);
                        assert(key.take(j).len() != p.len());
                    }
                }
            }
            assert forall|k: Seq<Seq<u8>>| is_prefix_dir(key, i, k) implies m2.contains_key(k) || is_prefix_dir(key, i + 1, k) by {
                let j = choose|j: int| i + 1 <= j < key.len() && k == #[trigger] key.take(j);
                if j > i + 1 {
                    assert(is_prefix_dir(key, i + 1, k));
                }
            }
            assert forall|k: Seq<Seq<u8>>| is_prefix_dir(key, i + 1, k) implies is_prefix_dir(key, i, k) by {
                let j = choose|j: int| i + 2 <= j < key.len() && k == #[trigger] key.take(j);
                assert(i + 1 <= j);
            }
            assert(is_prefix_dir(key, i, p));
            assert(with_dirs(m, key, i) =~= with_dirs(m2, key, i + 1));
        }
    }
}

/// A prefix of `key` shorter than it is not `key`.
proof fn lemma_prefix_not_key(key: Seq<Seq<u8>>, i: nat)
    ensures
        !is_prefix_dir(key, i, key),
{
    if is_prefix_dir(key, i, key) {
        let j = choose|j: int| i + 1 <= j < key.len() && key == #[trigger] key.take(j);
        assert(key.take(j).len() != key.len());
    }
}

/// When an insertion succeeds, and what it makes of the tree.
proof fn lemma_insert_shape(m: Map<Seq<Seq<u8>>, NodeView>, path: Seq<u8>, hash: Seq<char>)
    ensures
        (spec_insert(m, path, hash).1 is Ok) == (spec_file_name(path) is Some && no_file_above(m, file_key(path), 0)
            && !m.contains_key(file_key(path))),
        spec_insert(m, path, hash).1 is Ok ==> spec_insert(m, path, hash).0
            == with_dirs(m, file_key(path), 0).insert(file_key(path), NodeView::File { hash, path }),
{
    let key = file_key(path);
    lemma_add_parents_shape(m, key, 0);
    lemma_prefix_not_key(key, 0);
}

/// The order of insertions does not matter: if filing `p` and then `q`
/// succeeds, filing `q` and then `p` succeeds too and gives the same tree.
pub proof fn law_insert_order_irrelevant(
    m: Map<Seq<Seq<u8>>, NodeView>,
    p: Seq<u8>,
    hp: Seq<char>,
    q: Seq<u8>,
    hq: Seq<char>,
)
    requires
        spec_insert(m, p, hp).1 is Ok,
        spec_insert(spec_insert(m, p, hp).0, q, hq).1 is Ok,
    ensures
        spec_insert(m, q, hq).1 is Ok,
        spec_insert(spec_insert(m, q, hq).0, p, hp).1 is Ok,
        spec_insert(spec_insert(m, q, hq).0, p, hp).0 == spec_insert(spec_insert(m, p, hp).0, q, hq).0,
{
    let kp = file_key(p);
    let kq = file_key(q);
    let fp = NodeView::File { hash: hp, path: p };
    let fq = NodeView::File { hash: hq, path: q };
    lemma_insert_shape(m, p, hp);
    let m1 = spec_insert(m, p, hp).0;
    lemma_insert_shape(m1, q, hq);
    let m2 = spec_insert(m1, q, hq).0;
    assert(m1 == with_dirs(m, kp, 0).insert(kp, fp));
    assert(m2 == with_dirs(m1, kq, 0).insert(kq, fq));
    // What the tree held stays as it was.
    assert forall|k: Seq<Seq<u8>>| #[trigger] m.contains_key(k) implies m1.contains_key(k) && m1[k] == m[k] by {
        assert(k != kp);
    }
    // Neither key is a proper prefix of the other.
    assert(!is_prefix_dir(kp, 0, kq)) by {
        if is_prefix_dir(kp, 0, kq) {
            assert(m1.contains_key(kq));
        }
    }
    assert(!is_prefix_dir(kq, 0, kp)) by {
        if is_prefix_dir(kq, 0, kp) {
            let j = choose|j: int| 1 <= j < kq.len() && kp == #[trigger] kq.take(j);
            assert(m1.contains_key(kq.take(j)));
        }
    }
    assert(kp != kq);
    // Filing `q` first succeeds.
    assert(no_file_above(m, kq, 0)) by {
        assert forall|j: int| 1 <= j < kq.len() && m.contains_key(#[trigger] kq.take(j)) implies m[kq.take(j)] is Dir by {
            assert(m1.contains_key(kq.take(j)));
        }
    }
    lemma_insert_shape(m, q, hq);
    let n1 = spec_insert(m, q, hq).0;
    assert(n1 == with_dirs(m, kq, 0).insert(kq, fq));
    // Then filing `p` succeeds.
    assert(no_file_above(n1, kp, 0)) by {
        assert forall|j: int| 1 <= j < kp.len() && n1.contains_key(#[trigger] kp.take(j)) implies n1[kp.take(j)] is Dir by {
            if kp.take(j) == kq {
                assert(is_prefix_dir(kp, 0, kq));
            }
        }
    }
    assert(!n1.contains_key(kp));
    lemma_insert_shape(n1, p, hp);
    let n2 = spec_insert(n1, p, hp).0;
    assert(n2 == with_dirs(n1, kp, 0).insert(kp, fp));
    assert(n2 =~= m2);
}

/// `n` spaces.
pub open spec fn spaces(n: nat) -> Seq<char> {
    Seq::new(n, |i: int| ' ')
}

proof fn lemma_indent_spaces(depth: nat)
    ensures
        indent(depth) == spaces(2 * depth),
    decreases depth,
{
    if depth > 0 {
        lemma_indent_spaces((depth - 1) as nat);
        assert(indent(depth) =~= spaces(2 * depth));
    }
}

/// The printed tree is the line `/`, then one line per entry, in entry
/// order: two spaces per level of depth, the entry's last name (decoded
/// lossily), and then `/` for a directory, or a space and the file's whole
/// hash for a file. So printing one entry more adds exactly its line at the
/// end.
pub proof fn law_render_lines(es: Seq<(Seq<Seq<u8>>, NodeView)>, e: (Seq<Seq<u8>>, NodeView))
    ensures
        spec_render(Seq::empty()) == seq!['/', '\n'],
        spec_render(es.push(e)) == spec_render(es) + spaces(2 * e.0.len()) + utf8_lossy(e.0.last())
            + match e.1 {
                NodeView::Dir => seq!['/', '\n'],
                NodeView::File { hash, path: _ } => seq![' '] + hash + seq!['\n'],
            },
{
    lemma_indent_spaces(e.0.len());
    assert(es.push(e).drop_last() =~= es);
    assert(spec_render(Seq::<(Seq<Seq<u8>>, NodeView)>::empty()) =~= seq!['/', '\n']);
    match e.1 {
        NodeView::Dir => {
            assert(spec_render(es.push(e)) =~= spec_render(es) + spaces(2 * e.0.len()) + utf8_lossy(e.0.last())
                + seq!['/', '\n']);
        },
        NodeView::File { hash, path: _ } => {
            assert(spec_render(es.push(e)) =~= spec_render(es) + spaces(2 * e.0.len()) + utf8_lossy(e.0.last())
                + seq![' '] + hash + seq!['\n']);
        },
    }
}

proof fn lemma_entry_lines_prefix(es: Seq<(Seq<Seq<u8>>, NodeView)>, i: int)
    requires
        0 <= i <= es.len(),
    ensures
        entry_lines(es.take(i)).len() <= entry_lines(es).len(),
        entry_lines(es).take(entry_lines(es.take(i)).len() as int) == entry_lines(es.take(i)),
    decreases es.len() - i,
{
    if i == es.len() {
        assert(es.take(i) =~= es);
        assert(entry_lines(es).take(entry_lines(es).len() as int) =~= entry_lines(es));
    } else {
        lemma_entry_lines_prefix(es, i + 1);
        let a = entry_lines(es.take(i));
        let b = entry_lines(es.take(i + 1));
        assert(es.take(i + 1).drop_last() =~= es.take(i));
        assert(b == a + entry_line(es[i].0, es[i].1));
        assert(entry_lines(es).take(a.len() as int) =~= b.take(a.len() as int));
        assert(b.take(a.len() as int) =~= a);
    }
}

/// Every file of the tree is shown with its whole hash: the printed tree
/// holds, as a line of its own, the file's indent, its name and then a space
/// and exactly the hash stored for it.
pub proof fn law_render_shows_every_file(d: Dir, k: Seq<Seq<u8>>, hash: Seq<char>, path: Seq<u8>)
    requires
        d.wf(),
        d@.contains_key(k),
        d@[k] == (NodeView::File { hash, path }),
    ensures
        ({
            let line = spaces(2 * k.len()) + utf8_lossy(k.last()) + seq![' '] + hash + seq!['\n'];
            exists|a: int| 0 <= a && a + line.len() <= spec_render(d.entries()).len()
                && #[trigger] spec_render(d.entries()).subrange(a, a + line.len()) == line
                && spec_render(d.entries())[a - 1] == '\n'
        }),
{
    let es = d.entries();
    let i = key_index(es, k);
    lemma_tree_map_at(es, i);
    lemma_indent_spaces(k.len());
    let line = spaces(2 * k.len()) + utf8_lossy(k.last()) + seq![' '] + hash + seq!['\n'];
    lemma_entry_lines_prefix(es, i + 1);
    let a0 = entry_lines(es.take(i));
    let b = entry_lines(es.take(i + 1));
    assert(es.take(i + 1).drop_last() =~= es.take(i));
    assert(b =~= a0 + line);
    let r = spec_render(es);
    let a: int = 2 + a0.len() as int;
    assert(r.subrange(a, a + line.len()) =~= line) by {
        assert forall|j: int| 0 <= j < line.len() implies r.subrange(a, a + line.len())[j] == line[j] by {
            assert(r[a + j] == entry_lines(es)[a0.len() + j]);
            assert(entry_lines(es)[a0.len() + j] == entry_lines(es).take(b.len() as int)[a0.len() + j]);
            assert(b[a0.len() + j] == line[j]);
        }
    }
    if a0.len() == 0 {
        assert(r[a - 1] == '\n');
    } else {
        lemma_entry_lines_prefix(es, i);
        assert(a0 =~= entry_lines(es.take(i - 1)) + entry_line(es[i - 1].0, es[i - 1].1)) by {
            assert(es.take(i).drop_last() =~= es.take(i - 1));
        }
        assert(a0[a0.len() - 1] == '\n');
        assert(r[a - 1] == entry_lines(es)[a0.len() - 1]);
        assert(entry_lines(es)[a0.len() - 1] == entry_lines(es).take(a0.len() as int)[a0.len() - 1]);
    }
}

/// Only blank lines are skipped. A line that is blank once trimmed leaves
/// the tree as it was; any other line is read as a file hash: if it reads
/// as the hash `h` of the file at `p`, the tree becomes what inserting `p`
/// with `h` makes of it, and the line succeeds exactly when that insertion
/// does; if it does not read, the tree is left as it was and the reading
/// error is reported.
pub proof fn law_add_line_files_each_line(m: Map<Seq<Seq<u8>>, NodeView>, line: Seq<char>)
    ensures
        trim_chars(line).len() == 0 ==> spec_add_line(m, line) == Some((m, Ok::<(), DupesErrorView>(()))),
        trim_chars(line).len() > 0 ==> match spec_parse_file_hash(trim_chars(line)) {
            Some(Ok((h, p))) => spec_add_line(m, line) matches Some((m2, r))
                && m2 == spec_insert(m, p, h).0
                && (r is Ok <==> spec_insert(m, p, h).1 is Ok),
            Some(Err(msg)) => spec_add_line(m, line) == Some((m, Err::<(), DupesErrorView>(DupesErrorView::Parse(msg)))),
            None => spec_add_line(m, line) is None,
        },
{
}

} // verus!
