//! The summary of a listing: the escaped paths of the files grouped by
//! extension, groups in order of extension and paths sorted within each
//! group.

use vstd::prelude::*;
use vstd::utf8::*;
use vstd::multiset::Multiset;
use crate::ascii::{escape, spec_escape};
use crate::files;
use crate::order::{bytes_lt, compare_bytes, Cmp, lemma_bytes_lt_irreflexive, lemma_bytes_lt_total, lemma_bytes_lt_transitive};
use crate::paths::{spec_extension, extension};
use crate::text::{ascii_chars, utf8_lossy, string_from_utf8_lossy};

verus! {

broadcast use vstd::seq_lib::group_seq_properties;

/// `a` comes strictly before `b` in the order of `String`: byte-wise on
/// their UTF-8 encodings.
pub open spec fn string_lt(a: Seq<char>, b: Seq<char>) -> bool {
    bytes_lt(encode_utf8(a), encode_utf8(b))
}

proof fn lemma_string_lt_total(a: Seq<char>, b: Seq<char>)
    ensures
        a != b ==> string_lt(a, b) || string_lt(b, a),
        string_lt(a, b) ==> !string_lt(b, a) && a != b,
        !string_lt(a, a),
{
    lemma_bytes_lt_total(encode_utf8(a), encode_utf8(b));
    lemma_bytes_lt_irreflexive(encode_utf8(a));
    encode_utf8_decode_utf8(a);
    encode_utf8_decode_utf8(b);
}

proof fn lemma_string_lt_transitive(a: Seq<char>, b: Seq<char>, c: Seq<char>)
    requires
        string_lt(a, b),
        string_lt(b, c),
    ensures
        string_lt(a, c),
{
    lemma_bytes_lt_transitive(encode_utf8(a), encode_utf8(b), encode_utf8(c));
}

fn compare_strings(a: &String, b: &String) -> (r: Cmp)
    ensures
        r == Cmp::Less <==> string_lt(a@, b@),
        r == Cmp::Equal <==> a@ == b@,
        r == Cmp::Greater <==> string_lt(b@, a@),
{
    proof {
        encode_utf8_decode_utf8(a@);
        encode_utf8_decode_utf8(b@);
    }
    compare_bytes(a.as_str().as_bytes(), b.as_str().as_bytes())
}

/// The group a path's file belongs to: its extension, decoded lossily, or
/// the empty text where it has none.
pub open spec fn extension_key(p: Seq<u8>) -> Seq<char> {
    match spec_extension(p) {
        Some(e) => utf8_lossy(e),
        None => seq![],
    }
}

/// How a path is listed: escaped.
pub open spec fn listed_path(p: Seq<u8>) -> Seq<char> {
    ascii_chars(spec_escape(p))
}

/// The values are in non-decreasing order.
pub open spec fn sorted_values(v: Seq<Seq<char>>) -> bool {
    forall|i: int, j: int| 0 <= i < j < v.len() ==> !(#[trigger] string_lt(v[j], v[i]))
}

/// Keys strictly increase; each group is non-empty and sorted.
pub open spec fn sorted_groups(gs: Seq<(Seq<char>, Seq<Seq<char>>)>) -> bool {
    &&& forall|i: int, j: int| 0 <= i < j < gs.len() ==> #[trigger] string_lt(gs[i].0, gs[j].0)
    &&& forall|i: int| 0 <= i < gs.len() ==> #[trigger] gs[i].1.len() > 0 && sorted_values(gs[i].1)
}

pub open spec fn group_index(gs: Seq<(Seq<char>, Seq<Seq<char>>)>, k: Seq<char>) -> int {
    choose|i: int| 0 <= i < gs.len() && gs[i].0 == k
}

/// The groups as a map from extension to the multiset of listed paths.
pub open spec fn groups_map(gs: Seq<(Seq<char>, Seq<Seq<char>>)>) -> Map<Seq<char>, Multiset<Seq<char>>> {
    Map::new(
        |k: Seq<char>| exists|i: int| 0 <= i < gs.len() && gs[i].0 == k,
        |k: Seq<char>| gs[group_index(gs, k)].1.to_multiset(),
    )
}

pub open spec fn group_views(g: Seq<(String, Vec<String>)>) -> Seq<(Seq<char>, Seq<Seq<char>>)> {
    g.map_values(|e: (String, Vec<String>)| (e.0@, e.1@.map_values(|s: String| s@)))
}

proof fn lemma_groups_map_at(gs: Seq<(Seq<char>, Seq<Seq<char>>)>, i: int)
    requires
        sorted_groups(gs),
        0 <= i < gs.len(),
    ensures
        groups_map(gs).contains_key(gs[i].0),
        groups_map(gs)[gs[i].0] == gs[i].1.to_multiset(),
{
    let k = gs[i].0;
    let j = group_index(gs, k);
    assert(0 <= j < gs.len() && gs[j].0 == k);
    lemma_string_lt_total(k, k);
    if j < i {
        assert(string_lt(gs[j].0, gs[i].0));
    } else if j > i {
        assert(string_lt(gs[i].0, gs[j].0));
    }
}

/// The multiset of listed paths of a group, empty where there is none.
pub open spec fn group_of(m: Map<Seq<char>, Multiset<Seq<char>>>, k: Seq<char>) -> Multiset<Seq<char>> {
    if m.contains_key(k) {
        m[k]
    } else {
        Multiset::empty()
    }
}

/// The files of a listing, grouped by extension.
pub struct Summary {
    groups: Vec<(String, Vec<String>)>,
}

impl Summary {
    /// The groups, in order of extension.
    pub closed spec fn groups(&self) -> Seq<(Seq<char>, Seq<Seq<char>>)> {
        group_views(self.groups@)
    }

    pub open spec fn wf(&self) -> bool {
        sorted_groups(self.groups())
    }
}

impl View for Summary {
    type V = Map<Seq<char>, Multiset<Seq<char>>>;

    open spec fn view(&self) -> Map<Seq<char>, Multiset<Seq<char>>> {
        groups_map(self.groups())
    }
}

/// Puts `x` into sorted `v` after the values that do not come after it.
fn insert_sorted(v: &mut Vec<String>, x: String)
    requires
        sorted_values(old(v)@.map_values(|s: String| s@)),
    ensures
        sorted_values(final(v)@.map_values(|s: String| s@)),
        final(v)@.map_values(|s: String| s@).to_multiset() == old(v)@.map_values(|s: String| s@).to_multiset().insert(x@),
        final(v)@.len() == old(v)@.len() + 1,
{
    let ghost vs = v@.map_values(|s: String| s@);
    let n = v.len();
    let mut i: usize = 0;
    while i < n && compare_strings(&x, &v[i]) != Cmp::Less
        invariant
            n == v@.len(),
            vs == v@.map_values(|s: String| s@),
            sorted_values(vs),
            i <= n,
            forall|j: int| 0 <= j < i ==> !(#[trigger] string_lt(x@, vs[j])),
        decreases n - i,
    {
        assert(vs[i as int] == v@[i as int]@);
        i = i + 1;
    }
    proof {
        if i < n {
            assert(vs[i as int] == v@[i as int]@);
            assert(string_lt(x@, vs[i as int]));
            assert forall|j: int| i < j < n implies #[trigger] string_lt(x@, vs[j]) by {
                assert(!string_lt(vs[j], vs[i as int]));
                lemma_string_lt_total(vs[j], vs[i as int]);
                if vs[j] != vs[i as int] {
                    lemma_string_lt_transitive(x@, vs[i as int], vs[j]);
                }
            }
        }
    }
    let ghost xv = x@;
    v.insert(i, x);
    let ghost nv = v@.map_values(|s: String| s@);
    assert(nv =~= vs.insert(i as int, xv));
    assert forall|a: int, b: int| 0 <= a < b < nv.len() implies !(#[trigger] string_lt(nv[b], nv[a])) by {
        if a < i && b == i {
        } else if a == i && b > i {
            lemma_string_lt_total(xv, nv[b]);
        } else if a < i && b > i {
            assert(!string_lt(vs[b - 1], vs[a]));
        } else if b < i {
            assert(!string_lt(vs[b], vs[a]));
        } else {
            assert(!string_lt(vs[b - 1], vs[a - 1]));
        }
    }
    proof {
        vstd::seq_lib::to_multiset_insert(vs, i as int, xv);
    }
}

impl Summary {
    pub fn new() -> (s: Summary)
        ensures
            s.wf(),
            s@ == Map::<Seq<char>, Multiset<Seq<char>>>::empty(),
    {
        let s = Summary { groups: Vec::new() };
        assert(s.groups() =~= Seq::<(Seq<char>, Seq<Seq<char>>)>::empty());
        assert(s@ =~= Map::<Seq<char>, Multiset<Seq<char>>>::empty());
        s
    }

    /// Where a key stands among the groups, or where it would go.
    fn find_group(&self, key: &String) -> (r: (usize, bool))
        requires
            self.wf(),
        ensures
            r.0 <= self.groups().len(),
            r.1 ==> r.0 < self.groups().len() && self.groups()[r.0 as int].0 == key@,
            !r.1 ==> (forall|j: int| 0 <= j < r.0 ==> #[trigger] string_lt(self.groups()[j].0, key@))
                && (forall|j: int| r.0 <= j < self.groups().len() ==> #[trigger] string_lt(key@, self.groups()[j].0)),
    {
        let ghost gs = self.groups();
        let ghost k = key@;
        let n = self.groups.len();
        let mut i: usize = 0;
        while i < n && compare_strings(&self.groups[i].0, key) == Cmp::Less
            invariant
                n == self.groups@.len(),
                gs == self.groups(),
                sorted_groups(gs),
                i <= n,
                k == key@,
                forall|j: int| 0 <= j < i ==> #[trigger] string_lt(gs[j].0, k),
            decreases n - i,
        {
            assert(gs[i as int].0 == self.groups@[i as int].0@);
            i = i + 1;
        }
        if i < n {
            assert(gs[i as int].0 == self.groups@[i as int].0@);
            if compare_strings(&self.groups[i].0, key) == Cmp::Equal {
                return (i, true);
            }
            proof {
                assert(string_lt(k, gs[i as int].0)) by {
                    lemma_string_lt_total(k, gs[i as int].0);
                }
                assert forall|j: int| i < j < n implies #[trigger] string_lt(k, gs[j].0) by {
                    assert(string_lt(gs[i as int].0, gs[j].0));
                    lemma_string_lt_transitive(k, gs[i as int].0, gs[j].0);
                }
            }
        }
        (i, false)
    }

    /// Adds a listed path to the group at position `i`, whose key is `k`.
    fn add_to_group(&mut self, i: usize, listed: String, k: Ghost<Seq<char>>)
        requires
            old(self).wf(),
            i < old(self).groups().len(),
            old(self).groups()[i as int].0 == k@,
        ensures
            final(self).wf(),
            final(self)@ == old(self)@.insert(k@, group_of(old(self)@, k@).insert(listed@)),
    {
        let ghost gs = self.groups();
        let ghost m0 = self@;
        let ghost x = listed@;
        let ghost k = k@;
        proof { lemma_groups_map_at(gs, i as int); }
        let ghost old_vals = gs[i as int].1;
        let mut vals = Vec::new();
        std::mem::swap(&mut vals, &mut self.groups[i].1);
        assert(vals@.map_values(|s: String| s@) == old_vals);
        insert_sorted(&mut vals, listed);
        let ghost newvals = vals@.map_values(|s: String| s@);
        assert(newvals.to_multiset() == old_vals.to_multiset().insert(x));
        std::mem::swap(&mut vals, &mut self.groups[i].1);
        let ghost gs2 = self.groups();
        let ghost nv = gs2[i as int].1;
        assert(nv == newvals);
        assert(gs2 =~= gs.update(i as int, (k, nv)));
        assert(sorted_groups(gs2)) by {
            assert forall|a: int, b: int| 0 <= a < b < gs2.len() implies #[trigger] string_lt(gs2[a].0, gs2[b].0) by {
                assert(string_lt(gs[a].0, gs[b].0));
            }
        }
        assert forall|q: Seq<char>| #[trigger] self@.contains_key(q) <==> m0.insert(k, group_of(m0, k).insert(x)).contains_key(q) by {
            if self@.contains_key(q) {
                let j = choose|j: int| 0 <= j < gs2.len() && gs2[j].0 == q;
                assert(gs[j].0 == q);
            }
            if m0.contains_key(q) {
                let j = choose|j: int| 0 <= j < gs.len() && gs[j].0 == q;
                assert(gs2[j].0 == q);
            }
            if q == k {
                assert(gs2[i as int].0 == q);
            }
        }
        assert forall|q: Seq<char>| self@.contains_key(q) implies #[trigger] self@[q] == m0.insert(k, group_of(m0, k).insert(x))[q] by {
            let j = choose|j: int| 0 <= j < gs2.len() && gs2[j].0 == q;
            lemma_groups_map_at(gs2, j);
            lemma_groups_map_at(gs, j);
            if j == i {
                assert(q == k);
                assert(group_of(m0, k) == old_vals.to_multiset());
                assert(self@[q] == nv.to_multiset());
            } else {
                assert(gs2[j] == gs[j]);
                assert(q != k) by {
                    lemma_string_lt_total(k, k);
                    if j < i {
                        assert(string_lt(gs2[j].0, gs2[i as int].0));
                    } else {
                        assert(string_lt(gs2[i as int].0, gs2[j].0));
                    }
                }
            }
        }
        assert(self@ =~= m0.insert(k, group_of(m0, k).insert(x)));
    }

    /// Adds a new group for `key`, holding one listed path, at position `i`.
    fn add_group(&mut self, i: usize, key: String, listed: String)
        requires
            old(self).wf(),
            i <= old(self).groups().len(),
            forall|j: int| 0 <= j < i ==> #[trigger] string_lt(old(self).groups()[j].0, key@),
            forall|j: int| i <= j < old(self).groups().len() ==> #[trigger] string_lt(key@, old(self).groups()[j].0),
        ensures
            final(self).wf(),
            final(self)@ == old(self)@.insert(key@, group_of(old(self)@, key@).insert(listed@)),
    {
        let ghost gs = self.groups();
        let ghost m0 = self@;
        let ghost x = listed@;
        let ghost k = key@;
        assert(!m0.contains_key(k)) by {
            if m0.contains_key(k) {
                let j = choose|j: int| 0 <= j < gs.len() && gs[j].0 == k;
                lemma_string_lt_total(k, k);
                if j < i {
                    assert(string_lt(gs[j].0, k));
                } else {
                    assert(string_lt(k, gs[j].0));
                }
            }
        }
        let mut vals: Vec<String> = Vec::new();
        vals.push(listed);
        let ghost nv = vals@.map_values(|s: String| s@);
        assert(nv =~= seq![x]);
        assert(nv.to_multiset() =~= Multiset::<Seq<char>>::empty().insert(x)) by {
            assert(nv =~= Seq::<Seq<char>>::empty().push(x));
        }
        assert(sorted_values(nv));
        self.groups.insert(i, (key, vals));
        let ghost gs2 = self.groups();
        assert(gs2 =~= gs.insert(i as int, (k, nv)));
        assert(sorted_groups(gs2)) by {
            assert forall|a: int, b: int| 0 <= a < b < gs2.len() implies #[trigger] string_lt(gs2[a].0, gs2[b].0) by {
                if a < i && b == i {
                } else if a == i && b > i {
                } else if a < i && b > i {
                    assert(string_lt(gs[a].0, gs[b - 1].0));
                } else if b < i {
                    assert(string_lt(gs[a].0, gs[b].0));
                } else {
                    assert(string_lt(gs[a - 1].0, gs[b - 1].0));
                }
            }
        }
        assert forall|q: Seq<char>| #[trigger] self@.contains_key(q) <==> m0.insert(k, group_of(m0, k).insert(x)).contains_key(q) by {
            if self@.contains_key(q) {
                let j = choose|j: int| 0 <= j < gs2.len() && gs2[j].0 == q;
                if j < i {
                    assert(gs[j].0 == q);
                } else if j > i {
                    assert(gs[j - 1].0 == q);
                }
            }
            if m0.contains_key(q) {
                let j = choose|j: int| 0 <= j < gs.len() && gs[j].0 == q;
                if j < i {
                    assert(gs2[j].0 == q);
                } else {
                    assert(gs2[j + 1].0 == q);
                }
            }
            if q == k {
                assert(gs2[i as int].0 == q);
            }
        }
        assert forall|q: Seq<char>| self@.contains_key(q) implies #[trigger] self@[q] == m0.insert(k, group_of(m0, k).insert(x))[q] by {
            let j = choose|j: int| 0 <= j < gs2.len() && gs2[j].0 == q;
            lemma_groups_map_at(gs2, j);
            if j < i {
                lemma_groups_map_at(gs, j);
            } else if j > i {
                lemma_groups_map_at(gs, j - 1);
            }
        }
        assert(self@ =~= m0.insert(k, group_of(m0, k).insert(x)));
    }

    /// Lists the file at `path` in the group of its extension.
    pub fn add_path(&mut self, path: &[u8])
        requires
            old(self).wf(),
        ensures
            final(self).wf(),
            final(self)@ == old(self)@.insert(
                extension_key(path@),
                group_of(old(self)@, extension_key(path@)).insert(listed_path(path@)),
            ),
    {
        let key = match extension(path) {
            Some(e) => string_from_utf8_lossy(e.as_slice()),
            None => String::new(),
        };
        let listed = escape(path);
        assert(key@ == extension_key(path@));
        assert(listed@ == listed_path(path@));
        let (i, found) = self.find_group(&key);
        if found {
            self.add_to_group(i, listed, Ghost(key@));
        } else {
            self.add_group(i, key, listed);
        }
    }

    /// Takes one item of a listing: a file is listed; an error stops the
    /// summary and is returned, the summary unchanged.
    pub fn add_item(&mut self, item: files::FilePathItem) -> (r: Result<(), files::Error>)
        requires
            old(self).wf(),
        ensures
            final(self).wf(),
            match item {
                Ok(path) => r is Ok && final(self)@ == old(self)@.insert(
                    extension_key(path@),
                    group_of(old(self)@, extension_key(path@)).insert(listed_path(path@)),
                ),
                Err(e) => r == Err::<(), files::Error>(e) && final(self)@ == old(self)@,
            },
    {
        match item {
            Ok(path) => {
                self.add_path(path.as_slice());
                Ok(())
            },
            Err(e) => Err(e),
        }
    }

    /// The groups, in order of extension, each sorted: the one such list
    /// whose groups hold what the summary holds.
    pub fn into_groups(self) -> (g: Vec<(String, Vec<String>)>)
        requires
            self.wf(),
        ensures
            sorted_groups(group_views(g@)),
            groups_map(group_views(g@)) == self@,
    {
        self.groups
    }
}

/// The summary does not depend on the order in which files are listed:
/// listing two paths in either order gives the same groups.
pub proof fn law_summary_order_independent(m: Map<Seq<char>, Multiset<Seq<char>>>, p1: Seq<u8>, p2: Seq<u8>)
    ensures
        ({
            let k1 = extension_key(p1);
            let k2 = extension_key(p2);
            let x1 = listed_path(p1);
            let x2 = listed_path(p2);
            let a = m.insert(k1, group_of(m, k1).insert(x1));
            let b = m.insert(k2, group_of(m, k2).insert(x2));
            a.insert(k2, group_of(a, k2).insert(x2)) == b.insert(k1, group_of(b, k1).insert(x1))
        }),
{
    let k1 = extension_key(p1);
    let k2 = extension_key(p2);
    let x1 = listed_path(p1);
    let x2 = listed_path(p2);
    let a = m.insert(k1, group_of(m, k1).insert(x1));
    let b = m.insert(k2, group_of(m, k2).insert(x2));
    let l = a.insert(k2, group_of(a, k2).insert(x2));
    let r = b.insert(k1, group_of(b, k1).insert(x1));
    if k1 == k2 {
        assert(group_of(m, k1).insert(x1).insert(x2) =~= group_of(m, k1).insert(x2).insert(x1));
    }
    assert(l =~= r);
}

} // verus!
