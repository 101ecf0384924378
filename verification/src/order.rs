//! Lexicographic order on byte strings (the order of `OsStr` on Unix) and on
//! sequences of them (the order in which a tree of sorted directories is
//! visited depth first).

use vstd::prelude::*;
use crate::paths::vec_views;

verus! {

/// `a` comes strictly before `b` in byte-wise lexicographic order.
pub open spec fn bytes_lt(a: Seq<u8>, b: Seq<u8>) -> bool
    decreases a.len(),
{
    if b.len() == 0 {
        false
    } else if a.len() == 0 {
        true
    } else if a[0] != b[0] {
        a[0] < b[0]
    } else {
        bytes_lt(a.drop_first(), b.drop_first())
    }
}

/// `a` comes strictly before `b` in lexicographic order of component
/// sequences, components compared by `bytes_lt`: a sequence comes before
/// its extensions, so this is the depth-first order of a tree.
pub open spec fn key_lt(a: Seq<Seq<u8>>, b: Seq<Seq<u8>>) -> bool
    decreases a.len(),
{
    if b.len() == 0 {
        false
    } else if a.len() == 0 {
        true
    } else if a[0] != b[0] {
        bytes_lt(a[0], b[0])
    } else {
        key_lt(a.drop_first(), b.drop_first())
    }
}

pub proof fn lemma_bytes_lt_irreflexive(a: Seq<u8>)
    ensures
        !bytes_lt(a, a),
    decreases a.len(),
{
    if a.len() > 0 {
        lemma_bytes_lt_irreflexive(a.drop_first());
    }
}

pub proof fn lemma_bytes_lt_total(a: Seq<u8>, b: Seq<u8>)
    ensures
        a != b ==> bytes_lt(a, b) || bytes_lt(b, a),
        bytes_lt(a, b) ==> !bytes_lt(b, a) && a != b,
    decreases a.len(),
{
    lemma_bytes_lt_irreflexive(a);
    if a.len() > 0 && b.len() > 0 && a[0] == b[0] {
        lemma_bytes_lt_total(a.drop_first(), b.drop_first());
        if a.drop_first() == b.drop_first() {
            assert(a =~= seq![a[0]] + a.drop_first());
            assert(b =~= seq![b[0]] + b.drop_first());
        }
    } else if a.len() == 0 && b.len() == 0 {
        assert(a =~= b);
    }
}

pub proof fn lemma_bytes_lt_transitive(a: Seq<u8>, b: Seq<u8>, c: Seq<u8>)
    requires
        bytes_lt(a, b),
        bytes_lt(b, c),
    ensures
        bytes_lt(a, c),
    decreases a.len(),
{
    if a.len() > 0 && b.len() > 0 && c.len() > 0 && a[0] == b[0] && b[0] == c[0] {
        lemma_bytes_lt_transitive(a.drop_first(), b.drop_first(), c.drop_first());
    }
}

pub proof fn lemma_key_lt_irreflexive(a: Seq<Seq<u8>>)
    ensures
        !key_lt(a, a),
    decreases a.len(),
{
    if a.len() > 0 {
        lemma_key_lt_irreflexive(a.drop_first());
    }
}

pub proof fn lemma_key_lt_total(a: Seq<Seq<u8>>, b: Seq<Seq<u8>>)
    ensures
        a != b ==> key_lt(a, b) || key_lt(b, a),
        key_lt(a, b) ==> !key_lt(b, a) && a != b,
    decreases a.len(),
{
    lemma_key_lt_irreflexive(a);
    if a.len() > 0 && b.len() > 0 {
        if a[0] == b[0] {
            lemma_key_lt_total(a.drop_first(), b.drop_first());
            if a.drop_first() == b.drop_first() {
                assert(a =~= seq![a[0]] + a.drop_first());
                assert(b =~= seq![b[0]] + b.drop_first());
            }
        } else {
            lemma_bytes_lt_total(a[0], b[0]);
        }
    } else if a.len() == 0 && b.len() == 0 {
        assert(a =~= b);
    }
}

pub proof fn lemma_key_lt_transitive(a: Seq<Seq<u8>>, b: Seq<Seq<u8>>, c: Seq<Seq<u8>>)
    requires
        key_lt(a, b),
        key_lt(b, c),
    ensures
        key_lt(a, c),
    decreases a.len(),
{
    if a.len() > 0 && b.len() > 0 && c.len() > 0 {
        if a[0] == b[0] && b[0] == c[0] {
            lemma_key_lt_transitive(a.drop_first(), b.drop_first(), c.drop_first());
        } else if a[0] == b[0] {
            lemma_bytes_lt_total(b[0], c[0]);
        } else if b[0] == c[0] {
            lemma_bytes_lt_total(a[0], b[0]);
        } else {
            lemma_bytes_lt_total(a[0], b[0]);
            lemma_bytes_lt_total(b[0], c[0]);
            lemma_bytes_lt_transitive(a[0], b[0], c[0]);
            lemma_bytes_lt_total(a[0], c[0]);
        }
    }
}

/// The outcome of comparing two values.
#[derive(Copy, Clone, Debug, PartialEq, Eq, Structural)]
pub enum Cmp {
    Less,
    Equal,
    Greater,
}

/// Compares byte strings lexicographically.
pub fn compare_bytes(a: &[u8], b: &[u8]) -> (r: Cmp)
    ensures
        r == Cmp::Less <==> bytes_lt(a@, b@),
        r == Cmp::Equal <==> a@ == b@,
        r == Cmp::Greater <==> bytes_lt(b@, a@),
{
    proof {
        lemma_bytes_lt_total(a@, b@);
    }
    let la = a.len();
    let lb = b.len();
    let mut i: usize = 0;
    assert(a@.skip(0) =~= a@);
    assert(b@.skip(0) =~= b@);
    while i < la && i < lb
        invariant
            la == a@.len(),
            lb == b@.len(),
            i <= la,
            i <= lb,
            forall|j: int| 0 <= j < i ==> a@[j] == b@[j],
            bytes_lt(a@, b@) == bytes_lt(a@.skip(i as int), b@.skip(i as int)),
            bytes_lt(b@, a@) == bytes_lt(b@.skip(i as int), a@.skip(i as int)),
        decreases la - i,
    {
        let x = a[i];
        let y = b[i];
        if x < y {
            return Cmp::Less;
        } else if x > y {
            return Cmp::Greater;
        }
        assert(a@.skip(i as int).drop_first() =~= a@.skip(i + 1));
        assert(b@.skip(i as int).drop_first() =~= b@.skip(i + 1));
        i = i + 1;
    }
    if la == lb {
        assert(a@ =~= b@);
        Cmp::Equal
    } else if la < lb {
        Cmp::Less
    } else {
        Cmp::Greater
    }
}

/// Compares component sequences lexicographically (see `key_lt`).
pub fn compare_keys(a: &Vec<Vec<u8>>, b: &Vec<Vec<u8>>) -> (r: Cmp)
    ensures
        r == Cmp::Less <==> key_lt(vec_views(a@), vec_views(b@)),
        r == Cmp::Equal <==> vec_views(a@) == vec_views(b@),
        r == Cmp::Greater <==> key_lt(vec_views(b@), vec_views(a@)),
{
    let ghost va = vec_views(a@);
    let ghost vb = vec_views(b@);
    proof {
        lemma_key_lt_total(va, vb);
    }
    let la = a.len();
    let lb = b.len();
    let mut i: usize = 0;
    assert(va.skip(0) =~= va);
    assert(vb.skip(0) =~= vb);
    while i < la && i < lb
        invariant
            la == a@.len(),
            lb == b@.len(),
            va == vec_views(a@),
            vb == vec_views(b@),
            i <= la,
            i <= lb,
            forall|j: int| 0 <= j < i ==> va[j] == vb[j],
            key_lt(va, vb) == key_lt(va.skip(i as int), vb.skip(i as int)),
            key_lt(vb, va) == key_lt(vb.skip(i as int), va.skip(i as int)),
        decreases la - i,
    {
        let c = compare_bytes(a[i].as_slice(), b[i].as_slice());
        assert(va.skip(i as int)[0] == a@[i as int]@);
        assert(vb.skip(i as int)[0] == b@[i as int]@);
        match c {
            Cmp::Less => {
                return Cmp::Less;
            },
            Cmp::Greater => {
                return Cmp::Greater;
            },
            Cmp::Equal => {},
        }
        assert(va.skip(i as int).drop_first() =~= va.skip(i + 1));
        assert(vb.skip(i as int).drop_first() =~= vb.skip(i + 1));
        i = i + 1;
    }
    if la == lb {
        assert(va =~= vb);
        Cmp::Equal
    } else if la < lb {
        Cmp::Less
    } else {
        Cmp::Greater
    }
}

} // verus!
