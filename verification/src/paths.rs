//! Unix path components: the byte-level reading of a path into its parts
//! that `std::path` gives on Unix, modelled on byte strings.
//!
//! A component is named by its bytes: `/` for the root, `.` for a leading
//! current-directory marker, `..` for a parent reference, and any other
//! name for a normal component.

use vstd::prelude::*;

verus! {

pub open spec fn is_sep(b: u8) -> bool {
    b == 0x2f
}

/// A segment between separators that names no component: empty, or `.`.
pub open spec fn is_skipped_segment(seg: Seq<u8>) -> bool {
    seg.len() == 0 || seg =~= seq![0x2eu8]
}

/// The component, if any, that a finished segment contributes.
pub open spec fn keep(seg: Seq<u8>) -> Seq<Seq<u8>> {
    if is_skipped_segment(seg) {
        seq![]
    } else {
        seq![seg]
    }
}

/// The components of `s`, read byte by byte with `cur` the part of the
/// current segment already read.
pub open spec fn names_from(s: Seq<u8>, cur: Seq<u8>) -> Seq<Seq<u8>>
    decreases s.len(),
{
    if s.len() == 0 {
        keep(cur)
    } else if is_sep(s[0]) {
        keep(cur) + names_from(s.drop_first(), seq![])
    } else {
        names_from(s.drop_first(), cur.push(s[0]))
    }
}

/// The components of a path body: its maximal runs of non-separator bytes,
/// leaving out empty runs and `.`.
pub open spec fn body_names(s: Seq<u8>) -> Seq<Seq<u8>> {
    names_from(s, seq![])
}

pub open spec fn has_root(p: Seq<u8>) -> bool {
    p.len() > 0 && is_sep(p[0])
}

/// The path starts with a `.` that is a component of its own.
pub open spec fn has_leading_cur_dir(p: Seq<u8>) -> bool {
    p.len() > 0 && p[0] == 0x2e && (p.len() == 1 || is_sep(p[1]))
}

/// The components of a path, as `Path::components` yields them on Unix,
/// each named by its bytes.
pub open spec fn components(p: Seq<u8>) -> Seq<Seq<u8>> {
    if has_root(p) {
        seq![seq![0x2fu8]] + body_names(p.drop_first())
    } else if has_leading_cur_dir(p) {
        seq![seq![0x2eu8]] + body_names(p.drop_first())
    } else {
        body_names(p)
    }
}

/// A component name that is neither the root, `.` nor `..`.
pub open spec fn is_normal(name: Seq<u8>) -> bool {
    !(name =~= seq![0x2fu8]) && !(name =~= seq![0x2eu8]) && !(name =~= seq![0x2eu8, 0x2eu8])
}

/// The file name of a path: its last component, where that is a normal one.
pub open spec fn spec_file_name(p: Seq<u8>) -> Option<Seq<u8>> {
    let c = components(p);
    if c.len() > 0 && is_normal(c.last()) {
        Some(c.last())
    } else {
        None
    }
}

pub open spec fn vec_views(v: Seq<Vec<u8>>) -> Seq<Seq<u8>> {
    v.map_values(|x: Vec<u8>| x@)
}

fn keep_into(names: &mut Vec<Vec<u8>>, cur: Vec<u8>)
    ensures
        vec_views(final(names)@) == vec_views(old(names)@) + keep(cur@),
{
    let ghost before = names@;
    if cur.len() == 0 || (cur.len() == 1 && cur[0] == 0x2e) {
        assert(vec_views(names@) =~= vec_views(before) + keep(cur@));
    } else {
        names.push(cur);
        assert(vec_views(names@) =~= vec_views(before) + keep(cur@));
    }
}

/// The components of `p[start..]` read as a path body.
fn body_names_from(p: &[u8], start: usize) -> (names: Vec<Vec<u8>>)
    requires
        start <= p@.len(),
    ensures
        vec_views(names@) == body_names(p@.subrange(start as int, p@.len() as int)),
{
    let n = p.len();
    let mut names: Vec<Vec<u8>> = Vec::new();
    let mut cur: Vec<u8> = Vec::new();
    let mut i = start;
    assert(vec_views(names@) =~= Seq::<Seq<u8>>::empty());
    assert(cur@ =~= Seq::<u8>::empty());
    while i < n
        invariant
            n == p@.len(),
            start <= i <= n,
            body_names(p@.subrange(start as int, n as int))
                == vec_views(names@) + names_from(p@.subrange(i as int, n as int), cur@),
        decreases n - i,
    {
        let ghost t = p@.subrange(i as int, n as int);
        assert(t.drop_first() =~= p@.subrange(i + 1, n as int));
        let b = p[i];
        if b == 0x2f {
            let ghost before = vec_views(names@);
            let ghost cur_before = cur@;
            let mut done: Vec<u8> = Vec::new();
            std::mem::swap(&mut done, &mut cur);
            keep_into(&mut names, done);
            assert(cur@ =~= Seq::<u8>::empty());
            assert(before + (keep(cur_before) + names_from(t.drop_first(), seq![]))
                =~= vec_views(names@) + names_from(t.drop_first(), cur@));
        } else {
            cur.push(b);
        }
        i = i + 1;
    }
    assert(p@.subrange(n as int, n as int) =~= Seq::<u8>::empty());
    let ghost before = vec_views(names@);
    let ghost cur_last = cur@;
    keep_into(&mut names, cur);
    assert(before + keep(cur_last) =~= vec_views(names@));
    names
}

/// The components of a path, as `Path::components` yields them on Unix,
/// each named by its bytes (see `components`).
pub fn path_components(p: &[u8]) -> (names: Vec<Vec<u8>>)
    ensures
        vec_views(names@) == components(p@),
{
    let n = p.len();
    if n > 0 && p[0] == 0x2f {
        let mut first: Vec<u8> = Vec::new();
        first.push(0x2f);
        let mut names: Vec<Vec<u8>> = Vec::new();
        names.push(first);
        let mut rest = body_names_from(p, 1);
        let ghost head = vec_views(names@);
        assert(names@[0]@ =~= seq![0x2fu8]);
        assert(head =~= seq![seq![0x2fu8]]);
        names.append(&mut rest);
        assert(p@.drop_first() =~= p@.subrange(1, n as int));
        assert(vec_views(names@) =~= components(p@));
        names
    } else if n > 0 && p[0] == 0x2e && (n == 1 || p[1] == 0x2f) {
        let mut first: Vec<u8> = Vec::new();
        first.push(0x2e);
        let mut names: Vec<Vec<u8>> = Vec::new();
        names.push(first);
        let mut rest = body_names_from(p, 1);
        let ghost head = vec_views(names@);
        assert(names@[0]@ =~= seq![0x2eu8]);
        assert(head =~= seq![seq![0x2eu8]]);
        names.append(&mut rest);
        assert(p@.drop_first() =~= p@.subrange(1, n as int));
        assert(vec_views(names@) =~= components(p@));
        names
    } else {
        assert(p@.subrange(0, n as int) =~= p@);
        body_names_from(p, 0)
    }
}

fn is_normal_name(name: &Vec<u8>) -> (r: bool)
    ensures
        r == is_normal(name@),
{
    let n = name.len();
    if n == 1 && (name[0] == 0x2f || name[0] == 0x2e) {
        assert(name@ =~= seq![name[0]]);
        false
    } else if n == 2 && name[0] == 0x2e && name[1] == 0x2e {
        assert(name@ =~= seq![0x2eu8, 0x2eu8]);
        false
    } else {
        assert(!(name@ =~= seq![0x2fu8]) ==> !(name@ == seq![0x2fu8]));
        true
    }
}

/// The file name of a path (its last component, where that is a normal
/// one), as `Path::file_name` gives it.
pub fn file_name(p: &[u8]) -> (r: Option<Vec<u8>>)
    ensures
        r matches Some(v) ==> spec_file_name(p@) == Some(v@),
        r is None ==> spec_file_name(p@) is None,
{
    let mut names = path_components(p);
    let k = names.len();
    if k == 0 {
        return None;
    }
    let ghost all = vec_views(names@);
    assert(all.last() == names@[k - 1]@);
    let last = names.pop().unwrap();
    if is_normal_name(&last) {
        Some(last)
    } else {
        None
    }
}

/// The position of the last `.` in a name.
pub open spec fn last_dot(name: Seq<u8>) -> Option<int>
    decreases name.len(),
{
    if name.len() == 0 {
        None
    } else if name.last() == 0x2e {
        Some(name.len() - 1)
    } else {
        last_dot(name.drop_last())
    }
}

/// The extension of a path, as `Path::extension` gives it: the part of the
/// file name after its last `.`, unless there is no `.` or the only one
/// starts the name.
pub open spec fn spec_extension(p: Seq<u8>) -> Option<Seq<u8>> {
    match spec_file_name(p) {
        None => None,
        Some(name) => match last_dot(name) {
            None => None,
            Some(i) => if i == 0 {
                None
            } else {
                Some(name.skip(i + 1))
            },
        },
    }
}

/// The extension of a path (see `spec_extension`).
pub fn extension(p: &[u8]) -> (r: Option<Vec<u8>>)
    ensures
        r matches Some(v) ==> spec_extension(p@) == Some(v@),
        r is None ==> spec_extension(p@) is None,
{
    let name = match file_name(p) {
        None => {
            return None;
        },
        Some(n) => n,
    };
    let n = name.len();
    let mut i = n;
    assert(name@.take(n as int) =~= name@);
    while i > 0 && name[i - 1] != 0x2e
        invariant
            i <= n,
            n == name@.len(),
            last_dot(name@) == last_dot(name@.take(i as int)),
        decreases i,
    {
        assert(name@.take(i as int).drop_last() =~= name@.take(i - 1));
        i = i - 1;
    }
    if i == 0 {
        assert(name@.take(0) =~= Seq::<u8>::empty());
        return None;
    }
    assert(name@.take(i as int).last() == 0x2e);
    if i == 1 {
        return None;
    }
    let ext = vstd::slice::slice_to_vec(&name.as_slice()[i..n]);
    assert(ext@ =~= name@.skip(i as int));
    Some(ext)
}

/// The length of the leading run of non-separator bytes.
pub open spec fn seg_len(t: Seq<u8>) -> nat
    decreases t.len(),
{
    if t.len() == 0 || is_sep(t[0]) {
        0
    } else {
        1 + seg_len(t.drop_first())
    }
}

/// The length of the trailing run of non-separator bytes.
pub open spec fn rseg_len(t: Seq<u8>) -> nat
    decreases t.len(),
{
    if t.len() == 0 || is_sep(t.last()) {
        0
    } else {
        1 + rseg_len(t.drop_last())
    }
}

/// Drops leading segments that name no component, with the separator after
/// each.
pub open spec fn trim_left(t: Seq<u8>) -> Seq<u8>
    decreases t.len(),
{
    if t.len() == 0 {
        t
    } else if is_skipped_segment(t.take(seg_len(t) as int)) {
        if seg_len(t) < t.len() {
            trim_left(t.skip(seg_len(t) as int + 1))
        } else {
            t.skip(seg_len(t) as int)
        }
    } else {
        t
    }
}

/// Drops trailing segments that name no component, with the separator
/// before each.
pub open spec fn trim_right(t: Seq<u8>) -> Seq<u8>
    decreases t.len(),
{
    if t.len() == 0 {
        t
    } else if is_skipped_segment(t.skip(t.len() - rseg_len(t))) {
        if rseg_len(t) < t.len() {
            trim_right(t.take(t.len() - rseg_len(t) - 1))
        } else {
            t.take(0)
        }
    } else {
        t
    }
}

/// A path without its root: what follows the root component, without the
/// separators and `.` segments that would name no component at either end;
/// a path without a root is kept as it is.
pub open spec fn spec_strip_root(p: Seq<u8>) -> Seq<u8> {
    if has_root(p) {
        trim_right(trim_left(p.drop_first()))
    } else {
        p
    }
}

proof fn lemma_seg_len_at(t: Seq<u8>, k: int)
    requires
        0 <= k <= t.len(),
        forall|j: int| 0 <= j < k ==> !is_sep(#[trigger] t[j]),
        k == t.len() || is_sep(t[k]),
    ensures
        seg_len(t) == k,
    decreases k,
{
    if k > 0 {
        lemma_seg_len_at(t.drop_first(), k - 1);
    }
}

proof fn lemma_seg_len_props(t: Seq<u8>)
    ensures
        seg_len(t) <= t.len(),
        forall|j: int| 0 <= j < seg_len(t) ==> !is_sep(#[trigger] t[j]),
        seg_len(t) < t.len() ==> is_sep(t[seg_len(t) as int]),
    decreases t.len(),
{
    if t.len() > 0 && !is_sep(t[0]) {
        lemma_seg_len_props(t.drop_first());
        assert forall|j: int| 0 <= j < seg_len(t) implies !is_sep(#[trigger] t[j]) by {
            if j > 0 {
                assert(t[j] == t.drop_first()[j - 1]);
            }
        }
    }
}

proof fn lemma_rseg_len_props(t: Seq<u8>)
    ensures
        rseg_len(t) <= t.len(),
        forall|j: int| t.len() - rseg_len(t) <= j < t.len() ==> !is_sep(#[trigger] t[j]),
        rseg_len(t) < t.len() ==> is_sep(t[t.len() - rseg_len(t) - 1]),
    decreases t.len(),
{
    if t.len() > 0 && !is_sep(t.last()) {
        lemma_rseg_len_props(t.drop_last());
        assert forall|j: int| t.len() - rseg_len(t) <= j < t.len() implies !is_sep(#[trigger] t[j]) by {
            if j < t.len() - 1 {
                assert(t[j] == t.drop_last()[j]);
            }
        }
    }
}

proof fn lemma_names_no_sep(s: Seq<u8>, cur: Seq<u8>)
    requires
        forall|j: int| 0 <= j < s.len() ==> !is_sep(#[trigger] s[j]),
    ensures
        names_from(s, cur) == keep(cur + s),
    decreases s.len(),
{
    if s.len() == 0 {
        assert(cur + s =~= cur);
    } else {
        assert(!is_sep(s[0]));
        lemma_names_no_sep(s.drop_first(), cur.push(s[0]));
        assert(cur.push(s[0]) + s.drop_first() =~= cur + s);
    }
}

proof fn lemma_names_split(a: Seq<u8>, b: Seq<u8>, cur: Seq<u8>)
    requires
        forall|j: int| 0 <= j < a.len() ==> !is_sep(#[trigger] a[j]),
    ensures
        names_from(a + seq![0x2fu8] + b, cur) == keep(cur + a) + names_from(b, seq![]),
    decreases a.len(),
{
    let s = a + seq![0x2fu8] + b;
    if a.len() == 0 {
        assert(s.drop_first() =~= b);
        assert(cur + a =~= cur);
    } else {
        assert(!is_sep(a[0]));
        assert(s.drop_first() =~= a.drop_first() + seq![0x2fu8] + b);
        lemma_names_split(a.drop_first(), b, cur.push(a[0]));
        assert(cur.push(a[0]) + a.drop_first() =~= cur + a);
    }
}

/// The components of a body split at a separator: those before it, then
/// those after it.
proof fn lemma_body_at_sep(t: Seq<u8>, i: int)
    requires
        0 <= i < t.len(),
        is_sep(t[i]),
        forall|j: int| 0 <= j < i ==> !is_sep(#[trigger] t[j]),
    ensures
        body_names(t) == keep(t.take(i)) + body_names(t.skip(i + 1)),
{
    lemma_names_split(t.take(i), t.skip(i + 1), seq![]);
    assert(t.take(i) + seq![0x2fu8] + t.skip(i + 1) =~= t);
    assert(Seq::<u8>::empty() + t.take(i) =~= t.take(i));
}

proof fn lemma_body_at_last_sep(t: Seq<u8>, i: int)
    requires
        0 <= i < t.len(),
        is_sep(t[i]),
        forall|j: int| i < j < t.len() ==> !is_sep(#[trigger] t[j]),
    ensures
        body_names(t) == body_names(t.take(i)) + keep(t.skip(i + 1)),
    decreases i,
{
    // Split at the first separator and go on with the rest.
    lemma_seg_len_props(t);
    let k = seg_len(t) as int;
    if k == i {
        lemma_body_at_sep(t, i);
        lemma_names_no_sep(t.skip(i + 1), seq![]);
        assert(Seq::<u8>::empty() + t.skip(i + 1) =~= t.skip(i + 1));
        lemma_names_no_sep(t.take(i), seq![]);
        assert(Seq::<u8>::empty() + t.take(i) =~= t.take(i));
    } else {
        assert(k < i);
        lemma_body_at_sep(t, k);
        let r = t.skip(k + 1);
        lemma_body_at_last_sep(r, i - k - 1);
        assert(r.skip(i - k) =~= t.skip(i + 1));
        let u = t.take(i);
        lemma_body_at_sep(u, k);
        assert(u.take(k) =~= t.take(k));
        assert(u.skip(k + 1) =~= r.take(i - k - 1));
    }
}

proof fn lemma_body_trim_left(t: Seq<u8>)
    ensures
        body_names(trim_left(t)) == body_names(t),
        trim_left(t).len() == 0 || !is_skipped_segment(trim_left(t).take(seg_len(trim_left(t)) as int)),
    decreases t.len(),
{
    if t.len() > 0 {
        lemma_seg_len_props(t);
        let k = seg_len(t) as int;
        if is_skipped_segment(t.take(k)) {
            if k < t.len() {
                lemma_body_at_sep(t, k);
                lemma_body_trim_left(t.skip(k + 1));
            } else {
                lemma_names_no_sep(t, seq![]);
                assert(Seq::<u8>::empty() + t =~= t);
                assert(t.take(k) =~= t);
                assert(t.skip(k) =~= Seq::<u8>::empty());
            }
        }
    }
}

proof fn lemma_seg_len_prefix(t: Seq<u8>, m: int)
    requires
        seg_len(t) <= m <= t.len(),
    ensures
        seg_len(t.take(m)) == seg_len(t),
        t.take(m).take(seg_len(t) as int) == t.take(seg_len(t) as int),
{
    lemma_seg_len_props(t);
    let k = seg_len(t) as int;
    let u = t.take(m);
    assert forall|j: int| 0 <= j < k implies !is_sep(#[trigger] u[j]) by {
        assert(u[j] == t[j]);
    }
    if k < m {
        assert(u[k] == t[k]);
    }
    lemma_seg_len_at(u, k);
    assert(u.take(k) =~= t.take(k));
}

proof fn lemma_trim_right(t: Seq<u8>)
    ensures
        body_names(trim_right(t)) == body_names(t),
        t.len() > 0 && !is_skipped_segment(t.take(seg_len(t) as int)) ==> {
            &&& trim_right(t).len() > 0
            &&& seg_len(trim_right(t)) == seg_len(t)
            &&& trim_right(t).take(seg_len(t) as int) == t.take(seg_len(t) as int)
        },
    decreases t.len(),
{
    if t.len() > 0 {
        lemma_rseg_len_props(t);
        lemma_seg_len_props(t);
        let k = rseg_len(t) as int;
        let seg = t.skip(t.len() - k);
        if is_skipped_segment(seg) {
            if k < t.len() {
                let i = t.len() - k - 1;
                lemma_body_at_last_sep(t, i);
                assert(t.skip(i + 1) =~= seg);
                let u = t.take(i);
                lemma_trim_right(u);
                if !is_skipped_segment(t.take(seg_len(t) as int)) {
                    assert(seg_len(t) <= i) by {
                        if seg_len(t) > i {
                            assert(!is_sep(t[i]));
                        }
                    }
                    lemma_seg_len_prefix(t, i);
                    if seg_len(t) == 0 {
                        assert(t.take(0) =~= Seq::<u8>::empty());
                    }
                }
            } else {
                assert(seg =~= t);
                lemma_names_no_sep(t, seq![]);
                assert(Seq::<u8>::empty() + t =~= t);
                assert(t.take(0) =~= Seq::<u8>::empty());
                if !is_skipped_segment(t.take(seg_len(t) as int)) {
                    lemma_seg_len_at(t, t.len() as int);
                    assert(t.take(t.len() as int) =~= t);
                }
            }
        }
    }
}

/// Without a root, a path whose first segment names a component has the
/// components of its body.
proof fn lemma_components_plain(r: Seq<u8>)
    requires
        r.len() == 0 || !is_skipped_segment(r.take(seg_len(r) as int)),
    ensures
        components(r) == body_names(r),
{
    if r.len() > 0 {
        lemma_seg_len_props(r);
        if is_sep(r[0]) {
            assert(seg_len(r) == 0);
            assert(r.take(0) =~= Seq::<u8>::empty());
        }
        if has_leading_cur_dir(r) {
            if r.len() == 1 {
                lemma_seg_len_at(r, 1);
            } else {
                lemma_seg_len_at(r, 1);
            }
            assert(r.take(1) =~= seq![0x2eu8]);
        }
    }
}

/// Stripping the root removes exactly the root component: the stripped path
/// has the components of the path without its first one (the root), and a
/// path without a root keeps all of them.
pub proof fn law_strip_root_components(p: Seq<u8>)
    ensures
        components(spec_strip_root(p)) == if has_root(p) {
            components(p).drop_first()
        } else {
            components(p)
        },
{
    if has_root(p) {
        let x = p.drop_first();
        lemma_body_trim_left(x);
        let l = trim_left(x);
        lemma_trim_right(l);
        let r = trim_right(l);
        if l.len() == 0 {
            assert(r =~= l);
        }
        lemma_components_plain(r);
        assert(components(p).drop_first() =~= body_names(x));
    }
}

fn segment_end(p: &[u8], from: usize, to: usize) -> (k: usize)
    requires
        from <= to <= p@.len(),
    ensures
        from <= k <= to,
        seg_len(p@.subrange(from as int, to as int)) == k - from,
{
    let mut k = from;
    while k < to && p[k] != 0x2f
        invariant
            from <= k <= to,
            to <= p@.len(),
            forall|j: int| from <= j < k ==> !is_sep(#[trigger] p@[j]),
        decreases to - k,
    {
        k = k + 1;
    }
    let ghost t = p@.subrange(from as int, to as int);
    assert forall|j: int| 0 <= j < k - from implies !is_sep(#[trigger] t[j]) by {
        assert(t[j] == p@[from + j]);
    }
    proof {
        lemma_seg_len_at(t, k - from);
    }
    k
}

fn segment_start(p: &[u8], from: usize, to: usize) -> (k: usize)
    requires
        from <= to <= p@.len(),
    ensures
        from <= k <= to,
        rseg_len(p@.subrange(from as int, to as int)) == to - k,
{
    let mut k = to;
    while k > from && p[k - 1] != 0x2f
        invariant
            from <= k <= to,
            to <= p@.len(),
            forall|j: int| k <= j < to ==> !is_sep(#[trigger] p@[j]),
        decreases k - from,
    {
        k = k - 1;
    }
    let ghost t = p@.subrange(from as int, to as int);
    proof {
        lemma_rseg_len_props(t);
        let r = rseg_len(t) as int;
        let n = t.len();
        if r < to - k {
            assert(is_sep(t[n - r - 1]));
            assert(t[n - r - 1] == p@[to - r - 1]);
        } else if r > to - k {
            assert(k > from);
            assert(t[k - 1 - from] == p@[k - 1]);
            assert(!is_sep(t[k - 1 - from]));
        }
    }
    k
}

fn is_skipped(p: &[u8], from: usize, to: usize) -> (b: bool)
    requires
        from <= to <= p@.len(),
    ensures
        b == is_skipped_segment(p@.subrange(from as int, to as int)),
{
    if to == from {
        true
    } else if to == from + 1 && p[from] == 0x2e {
        assert(p@.subrange(from as int, to as int) =~= seq![0x2eu8]);
        true
    } else {
        let ghost s = p@.subrange(from as int, to as int);
        assert(s.len() != 0);
        assert(!(s =~= seq![0x2eu8]) ==> !(s == seq![0x2eu8]));
        if to == from + 1 {
            assert(s[0] != 0x2e);
        }
        false
    }
}

/// Removes the root from a path (see `spec_strip_root`); a path without a
/// root is returned unmodified.
pub fn strip_root(path: &[u8]) -> (r: &[u8])
    ensures
        r@ == spec_strip_root(path@),
{
    let n = path.len();
    if n == 0 || path[0] != 0x2f {
        return path;
    }
    let mut start: usize = 1;
    assert(path@.subrange(1, n as int) =~= path@.drop_first());
    while start < n
        invariant
            1 <= start <= n,
            n == path@.len(),
            trim_left(path@.drop_first()) == trim_left(path@.subrange(start as int, n as int)),
        ensures
            1 <= start <= n,
            trim_left(path@.drop_first()) == trim_left(path@.subrange(start as int, n as int)),
            start == n || !is_skipped_segment(
                path@.subrange(start as int, n as int).take(seg_len(path@.subrange(start as int, n as int)) as int),
            ),
        decreases n - start,
    {
        let ghost t = path@.subrange(start as int, n as int);
        let k = segment_end(path, start, n);
        assert(t.take(k - start) =~= path@.subrange(start as int, k as int));
        if !is_skipped(path, start, k) {
            break;
        }
        if k < n {
            assert(t.skip(k - start + 1) =~= path@.subrange(k + 1, n as int));
            start = k + 1;
        } else {
            assert(t.skip(k - start) =~= path@.subrange(n as int, n as int));
            start = n;
            assert(trim_left(path@.subrange(n as int, n as int)) =~= Seq::<u8>::empty());
        }
    }
    let ghost l = path@.subrange(start as int, n as int);
    assert(trim_left(path@.drop_first()) == l) by {
        if start < n {
        } else {
            assert(l =~= Seq::<u8>::empty());
        }
    }
    let mut end: usize = n;
    while end > start
        invariant
            1 <= start <= end <= n,
            n == path@.len(),
            trim_right(l) == trim_right(path@.subrange(start as int, end as int)),
        ensures
            1 <= start <= end <= n,
            trim_right(l) == trim_right(path@.subrange(start as int, end as int)),
            end == start || !is_skipped_segment({
                let t = path@.subrange(start as int, end as int);
                t.skip(t.len() - rseg_len(t))
            }),
        decreases end - start,
    {
        let ghost t = path@.subrange(start as int, end as int);
        let k = segment_start(path, start, end);
        assert(t.skip(t.len() - (end - k)) =~= path@.subrange(k as int, end as int));
        if !is_skipped(path, k, end) {
            break;
        }
        if k > start {
            assert(t.take(t.len() - (end - k) - 1) =~= path@.subrange(start as int, k - 1));
            end = k - 1;
        } else {
            assert(t.take(0) =~= path@.subrange(start as int, start as int));
            end = start;
            assert(trim_right(path@.subrange(start as int, start as int)) =~= Seq::<u8>::empty());
        }
    }
    let r = &path[start..end];
    assert(trim_right(l) == r@) by {
        if end == start {
            assert(r@ =~= Seq::<u8>::empty());
        }
    }
    r
}

proof fn lemma_last_dot(name: Seq<u8>)
    ensures
        match last_dot(name) {
            Some(i) => 0 <= i < name.len() && name[i] == 0x2e
                && forall|j: int| i < j < name.len() ==> name[j] != 0x2e,
            None => forall|j: int| 0 <= j < name.len() ==> name[j] != 0x2e,
        },
    decreases name.len(),
{
    if name.len() > 0 && name.last() != 0x2e {
        lemma_last_dot(name.drop_last());
        assert forall|j: int| 0 <= j < name.len() - 1 implies name.drop_last()[j] == name[j] by {}
    }
}

/// The extension of a file name is the text after its last `.`: when there
/// is one, the name is a non-empty stem, a `.` and the extension, and the
/// extension holds no `.`; there is none exactly when the path has no file
/// name or its name has no `.` after its first byte.
pub proof fn law_extension_after_last_dot(p: Seq<u8>)
    ensures
        spec_extension(p) matches Some(e) ==> spec_file_name(p) matches Some(name)
            && name.len() >= e.len() + 2
            && name[name.len() - e.len() - 1] == 0x2e
            && name.skip(name.len() - e.len()) == e
            && !e.contains(0x2e),
        spec_extension(p) is None <==> match spec_file_name(p) {
            None => true,
            Some(name) => forall|j: int| 1 <= j < name.len() ==> name[j] != 0x2e,
        },
{
    if let Some(name) = spec_file_name(p) {
        lemma_last_dot(name);
        if let Some(i) = last_dot(name) {
            let e = name.skip(i + 1);
            assert(e.len() == name.len() - i - 1);
            assert(name.skip(name.len() - e.len()) =~= e);
            if e.contains(0x2e) {
                let k = choose|k: int| 0 <= k < e.len() && e[k] == 0x2e;
                assert(name[i + 1 + k] == 0x2e);
            }
            if i == 0 {
                assert forall|j: int| 1 <= j < name.len() implies name[j] != 0x2e by {}
            } else {
                assert(!(forall|j: int| 1 <= j < name.len() ==> name[j] != 0x2e));
            }
        }
    }
}

} // verus!
