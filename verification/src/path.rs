//! Normal forms, file names, stems and extensions of `/`-separated paths.
//!
//! A path in normal form has no empty or `.` components, and a `..` only
//! where it cannot be resolved: leading a relative path.  The file name is
//! the text after the last `/`; a path whose file name is empty, `.` or `..`
//! has none.  The extension is the text after the last `.` of the file
//! name, unless that `.` starts the name.

use vstd::prelude::*;
use crate::text::{
    extend_chars, lemma_split_after, lemma_split_parts_lack, lemma_split_single, split_char,
    split_chars, sub_chars, vecs_view,
};

verus! {

/// The position just after the last `/` of `p` (0 when there is none).
pub open spec fn name_start(p: Seq<char>) -> int
    decreases p.len(),
{
    if p.len() == 0 {
        0
    } else if p.last() == '/' {
        p.len() as int
    } else {
        name_start(p.drop_last())
    }
}

/// The last position of `c` in `s`, if it occurs.
pub open spec fn last_index_of(s: Seq<char>, c: char) -> Option<int>
    decreases s.len(),
{
    if s.len() == 0 {
        None
    } else if s.last() == c {
        Some(s.len() - 1)
    } else {
        last_index_of(s.drop_last(), c)
    }
}

/// The file name of `p`.
pub open spec fn file_name(p: Seq<char>) -> Option<Seq<char>> {
    let name = p.skip(name_start(p));
    if name.len() == 0 || name == seq!['.'] || name == seq!['.', '.'] {
        None
    } else {
        Some(name)
    }
}

/// The extension of a file name.
pub open spec fn name_extension(name: Seq<char>) -> Option<Seq<char>> {
    match last_index_of(name, '.') {
        Some(i) => if i == 0 {
            None
        } else {
            Some(name.skip(i + 1))
        },
        None => None,
    }
}

/// The stem of a file name: the name without its extension and its dot.
pub open spec fn name_stem(name: Seq<char>) -> Seq<char> {
    match last_index_of(name, '.') {
        Some(i) => if i == 0 {
            name
        } else {
            name.take(i)
        },
        None => name,
    }
}

/// The extension of the file name of `p`.
pub open spec fn extension(p: Seq<char>) -> Option<Seq<char>> {
    match file_name(p) {
        Some(n) => name_extension(n),
        None => None,
    }
}

/// The stem of the file name of `p`.
pub open spec fn file_stem(p: Seq<char>) -> Option<Seq<char>> {
    match file_name(p) {
        Some(n) => Some(name_stem(n)),
        None => None,
    }
}

/// A file name with its extension replaced by `ext` (removed when `ext` is
/// empty, added when the name has none).
pub open spec fn name_with_extension(name: Seq<char>, ext: Seq<char>) -> Seq<char> {
    let stem = name_stem(name);
    if ext.len() == 0 {
        stem
    } else {
        stem + seq!['.'] + ext
    }
}

/// `p` with the extension of its file name replaced by `ext`; unchanged
/// when `p` has no file name.
pub open spec fn with_extension(p: Seq<char>, ext: Seq<char>) -> Seq<char> {
    match file_name(p) {
        Some(n) => p.take(name_start(p)) + name_with_extension(n, ext),
        None => p,
    }
}

/// The component `..`.
pub open spec fn dot_dot() -> Seq<char> {
    seq!['.', '.']
}

/// The components kept so far after one more component `c`: an empty or
/// `.` component is dropped; `..` removes the last kept component, unless
/// there is none or it is a `..` itself, in which case it is kept in a
/// relative path and dropped at the root of an absolute one; any other
/// component is kept.
pub open spec fn norm_step(kept: Seq<Seq<char>>, c: Seq<char>, abs: bool) -> Seq<Seq<char>> {
    if c.len() == 0 || c == seq!['.'] {
        kept
    } else if c == dot_dot() {
        if kept.len() > 0 && kept.last() != dot_dot() {
            kept.drop_last()
        } else if abs {
            kept
        } else {
            kept.push(c)
        }
    } else {
        kept.push(c)
    }
}

/// The components kept from `comps`, taken from first to last.
pub open spec fn norm_parts(comps: Seq<Seq<char>>, abs: bool) -> Seq<Seq<char>>
    decreases comps.len(),
{
    if comps.len() == 0 {
        Seq::empty()
    } else {
        norm_step(norm_parts(comps.drop_last(), abs), comps.last(), abs)
    }
}

/// Components joined by `/`.
pub open spec fn join_parts(parts: Seq<Seq<char>>) -> Seq<char>
    decreases parts.len(),
{
    if parts.len() == 0 {
        Seq::empty()
    } else if parts.len() == 1 {
        parts[0]
    } else {
        join_parts(parts.drop_last()) + seq!['/'] + parts.last()
    }
}

/// Whether `p` starts at the root.
pub open spec fn is_absolute(p: Seq<char>) -> bool {
    p.len() > 0 && p[0] == '/'
}

/// The normal form of `p`: its kept components joined by `/`, after a `/`
/// for an absolute path; `.` for a relative path that keeps none.
pub open spec fn normalize(p: Seq<char>) -> Seq<char> {
    let abs = is_absolute(p);
    let kept = norm_parts(split_char(p, '/'), abs);
    if abs {
        seq!['/'] + join_parts(kept)
    } else if kept.len() == 0 {
        seq!['.']
    } else {
        join_parts(kept)
    }
}

/// Components as normal form keeps them: none is empty, `.` or holds a
/// `/`, and a `..` is preceded by `..`s only, in a relative path.
pub open spec fn kept_parts(s: Seq<Seq<char>>, abs: bool) -> bool {
    forall|i: int|
        0 <= i < s.len() ==> {
            &&& #[trigger] s[i].len() > 0
            &&& s[i] != seq!['.']
            &&& forall|k: int| 0 <= k < s[i].len() ==> s[i][k] != '/'
            &&& s[i] == dot_dot() ==> !abs && forall|j: int| 0 <= j < i ==> s[j] == dot_dot()
        }
}

/// Everything from the start of the file name on is free of `/`, and the
/// character before it is a `/`.
pub proof fn lemma_name_start_bounds(p: Seq<char>)
    ensures
        0 <= name_start(p) <= p.len(),
        forall|k: int| name_start(p) <= k < p.len() ==> p[k] != '/',
        name_start(p) > 0 ==> p[name_start(p) - 1] == '/',
    decreases p.len(),
{
    if p.len() > 0 && p.last() != '/' {
        lemma_name_start_bounds(p.drop_last());
        let q = p.drop_last();
        assert forall|k: int| name_start(p) <= k < p.len() implies p[k] != '/' by {
            if k < q.len() {
                assert(q[k] == p[k]);
            }
        }
        if name_start(p) > 0 {
            assert(q[name_start(p) - 1] == p[name_start(p) - 1]);
        }
    }
}

/// The last occurrence is the one with no occurrence after it.
pub proof fn lemma_last_index(s: Seq<char>, c: char, i: int)
    requires
        -1 <= i < s.len(),
        forall|k: int| i < k < s.len() ==> s[k] != c,
        i >= 0 ==> s[i] == c,
    ensures
        last_index_of(s, c) == (if i >= 0 {
            Some(i)
        } else {
            None
        }),
    decreases s.len(),
{
    if s.len() > 0 && i < s.len() - 1 {
        let q = s.drop_last();
        assert forall|k: int| i < k < q.len() implies q[k] != c by {
            assert(q[k] == s[k]);
        }
        if i >= 0 {
            assert(q[i] == s[i]);
        }
        lemma_last_index(q, c, i);
    }
}

/// What the last position of `c` in `s` is.
pub proof fn lemma_last_index_props(s: Seq<char>, c: char)
    ensures
        last_index_of(s, c) matches Some(i) ==> 0 <= i < s.len() && s[i] == c && forall|k: int|
            i < k < s.len() ==> s[k] != c,
        last_index_of(s, c) is None ==> forall|k: int| 0 <= k < s.len() ==> s[k] != c,
    decreases s.len(),
{
    if s.len() > 0 && s.last() != c {
        let q = s.drop_last();
        lemma_last_index_props(q, c);
        assert forall|k: int| 0 <= k < q.len() implies q[k] == s[k] by {}
    }
}

/// The file name starts just after the `/` at `k - 1` when no `/` follows.
pub proof fn lemma_name_start_is(s: Seq<char>, k: int)
    requires
        0 < k <= s.len(),
        s[k - 1] == '/',
        forall|j: int| k <= j < s.len() ==> s[j] != '/',
    ensures
        name_start(s) == k,
{
    lemma_name_start_bounds(s);
    let m = name_start(s);
    if m < k {
        assert(s[k - 1] != '/');
    }
    if m > k {
        assert(s[m - 1] == '/');
    }
}

/// An extension holds no `/` and no `.`.
pub proof fn lemma_extension_chars(p: Seq<char>)
    ensures
        extension(p) matches Some(ext) ==> forall|k: int|
            0 <= k < ext.len() ==> ext[k] != '/' && ext[k] != '.',
        extension(p) matches Some(ext) ==> ext.len() <= p.len() && ext == p.skip(
            p.len() - ext.len(),
        ),
{
    if let Some(n) = file_name(p) {
        lemma_name_start_bounds(p);
        let ns = name_start(p);
        assert(n == p.skip(ns));
        lemma_last_index_props(n, '.');
        if let Some(ext) = name_extension(n) {
            let i = last_index_of(n, '.')->Some_0;
            assert forall|k: int| 0 <= k < ext.len() implies ext[k] != '/' && ext[k] != '.' by {
                assert(ext[k] == n[i + 1 + k]);
                assert(n[i + 1 + k] == p[ns + i + 1 + k]);
            }
            assert(ext =~= p.skip(p.len() - ext.len()));
        }
    }
}

/// Giving a path its own non-empty extension leaves it unchanged.
pub proof fn lemma_with_own_extension(p: Seq<char>, ext: Seq<char>)
    requires
        extension(p) == Some(ext),
        ext.len() > 0,
    ensures
        with_extension(p, ext) == p,
{
    let n = file_name(p)->Some_0;
    let ns = name_start(p);
    lemma_name_start_bounds(p);
    lemma_last_index_props(n, '.');
    let i = last_index_of(n, '.')->Some_0;
    assert(name_stem(n) == n.take(i));
    assert(n.take(i) + seq!['.'] + n.skip(i + 1) =~= n);
    assert(p.take(ns) + n =~= p);
}

/// Removing the extension of a path that has none leaves it unchanged.
pub proof fn lemma_with_no_extension(p: Seq<char>)
    requires
        extension(p) is None,
    ensures
        with_extension(p, Seq::empty()) == p,
{
    if let Some(n) = file_name(p) {
        let ns = name_start(p);
        lemma_name_start_bounds(p);
        assert(name_stem(n) == n);
        assert(p.take(ns) + n =~= p);
    }
}

/// The kept components are kept components.
proof fn lemma_norm_parts_kept(comps: Seq<Seq<char>>, abs: bool)
    requires
        forall|i: int, k: int|
            0 <= i < comps.len() && 0 <= k < comps[i].len() ==> comps[i][k] != '/',
    ensures
        kept_parts(norm_parts(comps, abs), abs),
    decreases comps.len(),
{
    if comps.len() > 0 {
        let q = comps.drop_last();
        assert forall|i: int, k: int| 0 <= i < q.len() && 0 <= k < q[i].len() implies q[i][k]
            != '/' by {
            assert(q[i] == comps[i]);
        }
        lemma_norm_parts_kept(q, abs);
        let prev = norm_parts(q, abs);
        let c = comps.last();
        assert(c == comps[comps.len() - 1]);
        let next = norm_parts(comps, abs);
        if c.len() == 0 || c == seq!['.'] {
        } else if c == dot_dot() {
            if prev.len() > 0 && prev.last() != dot_dot() {
                assert forall|i: int| 0 <= i < next.len() implies #[trigger] next[i].len() > 0 && {
                    &&& next[i] != seq!['.']
                    &&& forall|k: int| 0 <= k < next[i].len() ==> next[i][k] != '/'
                    &&& next[i] == dot_dot() ==> !abs && forall|j: int|
                        0 <= j < i ==> next[j] == dot_dot()
                } by {
                    assert(next[i] == prev[i]);
                    assert(prev[i].len() > 0);
                    assert forall|j: int| 0 <= j < i implies next[j] == prev[j] by {}
                }
            } else if !abs {
                assert forall|i: int| 0 <= i < next.len() implies #[trigger] next[i].len() > 0 && {
                    &&& next[i] != seq!['.']
                    &&& forall|k: int| 0 <= k < next[i].len() ==> next[i][k] != '/'
                    &&& next[i] == dot_dot() ==> !abs && forall|j: int|
                        0 <= j < i ==> next[j] == dot_dot()
                } by {
                    if i < prev.len() {
                        assert(next[i] == prev[i]);
                        assert(prev[i].len() > 0);
                        assert forall|j: int| 0 <= j < i implies next[j] == prev[j] by {}
                    } else {
                        assert(next[i] == c);
                        assert(c[0] == '.' && c[1] == '.');
                        if prev.len() > 0 {
                            let t = prev.len() - 1;
                            assert(prev[t] == dot_dot());
                            assert(prev[t].len() > 0);
                            assert forall|j: int| 0 <= j < i implies next[j] == dot_dot() by {
                                assert(next[j] == prev[j]);
                                if j < t {
                                    assert(prev[j] == dot_dot());
                                }
                            }
                        }
                    }
                }
            }
        } else {
            assert forall|i: int| 0 <= i < next.len() implies #[trigger] next[i].len() > 0 && {
                &&& next[i] != seq!['.']
                &&& forall|k: int| 0 <= k < next[i].len() ==> next[i][k] != '/'
                &&& next[i] == dot_dot() ==> !abs && forall|j: int|
                    0 <= j < i ==> next[j] == dot_dot()
            } by {
                if i < prev.len() {
                    assert(next[i] == prev[i]);
                    assert(prev[i].len() > 0);
                    assert forall|j: int| 0 <= j < i implies next[j] == prev[j] by {}
                } else {
                    assert(next[i] == c);
                }
            }
        }
    }
}

/// Kept components are kept again, after anything that keeps nothing.
proof fn lemma_norm_parts_keeps(pre: Seq<Seq<char>>, s: Seq<Seq<char>>, abs: bool)
    requires
        kept_parts(s, abs),
        norm_parts(pre, abs) == Seq::<Seq<char>>::empty(),
    ensures
        norm_parts(pre + s, abs) == s,
    decreases s.len(),
{
    if s.len() == 0 {
        assert(pre + s =~= pre);
    } else {
        let q = s.drop_last();
        assert(kept_parts(q, abs)) by {
            assert forall|i: int| 0 <= i < q.len() implies #[trigger] q[i].len() > 0 && {
                &&& q[i] != seq!['.']
                &&& forall|k: int| 0 <= k < q[i].len() ==> q[i][k] != '/'
                &&& q[i] == dot_dot() ==> !abs && forall|j: int| 0 <= j < i ==> q[j] == dot_dot()
            } by {
                assert(q[i] == s[i]);
                assert(s[i].len() > 0);
                assert forall|j: int| 0 <= j < i implies q[j] == s[j] by {}
            }
        }
        lemma_norm_parts_keeps(pre, q, abs);
        assert((pre + s).drop_last() =~= pre + q);
        assert((pre + s).last() == s.last());
        let c = s.last();
        let t = s.len() - 1;
        assert(s[t].len() > 0);
        if c == dot_dot() {
            if q.len() > 0 {
                assert(q.last() == s[t - 1]);
                assert(s[t - 1] == dot_dot());
            }
        }
        assert(q.push(c) =~= s);
    }
}

/// The first component starts the joined text.
proof fn lemma_join_first(s: Seq<Seq<char>>)
    requires
        s.len() > 0,
    ensures
        join_parts(s).len() >= s[0].len(),
        forall|k: int| 0 <= k < s[0].len() ==> join_parts(s)[k] == s[0][k],
    decreases s.len(),
{
    if s.len() > 1 {
        let q = s.drop_last();
        lemma_join_first(q);
        assert(q[0] == s[0]);
    }
}

/// Splitting `/`-joined components after a `/` gives them back.
proof fn lemma_split_join(a: Seq<char>, s: Seq<Seq<char>>)
    requires
        s.len() > 0,
        forall|i: int, k: int| 0 <= i < s.len() && 0 <= k < s[i].len() ==> s[i][k] != '/',
    ensures
        split_char(a + seq!['/'] + join_parts(s), '/') == split_char(a, '/') + s,
    decreases s.len(),
{
    if s.len() == 1 {
        assert(s[0] == s[0]);
        lemma_split_after(a, s[0], '/');
        assert(split_char(a, '/').push(s[0]) =~= split_char(a, '/') + s);
    } else {
        let q = s.drop_last();
        assert forall|i: int, k: int| 0 <= i < q.len() && 0 <= k < q[i].len() implies q[i][k]
            != '/' by {
            assert(q[i] == s[i]);
        }
        lemma_split_join(a, q);
        let t = s.len() - 1;
        assert forall|k: int| 0 <= k < s.last().len() implies s.last()[k] != '/' by {
            assert(s.last() == s[t]);
        }
        let front = a + seq!['/'] + join_parts(q);
        lemma_split_after(front, s.last(), '/');
        assert(a + seq!['/'] + join_parts(s) =~= front + seq!['/'] + s.last());
        assert((split_char(a, '/') + q).push(s.last()) =~= split_char(a, '/') + s);
    }
}

/// Splitting `/`-joined components gives them back.
proof fn lemma_split_join_relative(s: Seq<Seq<char>>)
    requires
        s.len() > 0,
        forall|i: int, k: int| 0 <= i < s.len() && 0 <= k < s[i].len() ==> s[i][k] != '/',
    ensures
        split_char(join_parts(s), '/') == s,
    decreases s.len(),
{
    if s.len() == 1 {
        assert(s[0] == s[0]);
        lemma_split_single(s[0], '/');
        assert(seq![s[0]] =~= s);
    } else {
        let q = s.drop_last();
        assert forall|i: int, k: int| 0 <= i < q.len() && 0 <= k < q[i].len() implies q[i][k]
            != '/' by {
            assert(q[i] == s[i]);
        }
        lemma_split_join_relative(q);
        let t = s.len() - 1;
        assert forall|k: int| 0 <= k < s.last().len() implies s.last()[k] != '/' by {
            assert(s.last() == s[t]);
        }
        lemma_split_after(join_parts(q), s.last(), '/');
        assert(q.push(s.last()) =~= s);
    }
}

/// An absolute path made of kept components is in normal form.
pub proof fn lemma_normalize_kept_absolute(s: Seq<Seq<char>>)
    requires
        kept_parts(s, true),
    ensures
        normalize(seq!['/'] + join_parts(s)) == seq!['/'] + join_parts(s),
{
    let q = seq!['/'] + join_parts(s);
    assert(is_absolute(q));
    let e = Seq::<char>::empty();
    assert(norm_parts(seq![e], true) == Seq::<Seq<char>>::empty()) by {
        assert(seq![e].drop_last() =~= Seq::<Seq<char>>::empty());
        assert(seq![e].last() == e);
        assert(norm_parts(Seq::<Seq<char>>::empty(), true) == Seq::<Seq<char>>::empty());
    }
    if s.len() == 0 {
        assert(q =~= e + seq!['/'] + e);
        lemma_split_after(e, e, '/');
        assert(split_char(e, '/') == seq![e]);
        let comps = seq![e].push(e);
        assert(comps.drop_last() =~= seq![e]);
        assert(norm_parts(comps, true) == Seq::<Seq<char>>::empty());
    } else {
        assert forall|i: int, k: int| 0 <= i < s.len() && 0 <= k < s[i].len() implies s[i][k]
            != '/' by {
            assert(s[i].len() > 0);
        }
        lemma_split_join(e, s);
        assert(q =~= e + seq!['/'] + join_parts(s));
        assert(split_char(e, '/') == seq![e]);
        lemma_norm_parts_keeps(seq![e], s, true);
    }
}

/// Normal form is its own normal form.
pub proof fn lemma_normalize_idempotent(p: Seq<char>)
    ensures
        normalize(normalize(p)) == normalize(p),
{
    let abs = is_absolute(p);
    let comps = split_char(p, '/');
    lemma_split_parts_lack(p, '/', '/');
    lemma_norm_parts_kept(comps, abs);
    let s = norm_parts(comps, abs);
    if abs {
        lemma_normalize_kept_absolute(s);
    } else if s.len() == 0 {
        let d = seq!['.'];
        assert(!is_absolute(d));
        lemma_split_single(d, '/');
        assert(seq![d].drop_last() =~= Seq::<Seq<char>>::empty());
        assert(seq![d].last() == d);
        assert(norm_parts(Seq::<Seq<char>>::empty(), false) == Seq::<Seq<char>>::empty());
        assert(norm_parts(seq![d], false) == Seq::<Seq<char>>::empty());
    } else {
        let q = join_parts(s);
        assert(s[0].len() > 0);
        lemma_join_first(s);
        assert(q[0] == s[0][0]);
        assert(!is_absolute(q));
        assert forall|i: int, k: int| 0 <= i < s.len() && 0 <= k < s[i].len() implies s[i][k]
            != '/' by {
            assert(s[i].len() > 0);
        }
        lemma_split_join_relative(s);
        assert(norm_parts(Seq::<Seq<char>>::empty(), false) == Seq::<Seq<char>>::empty());
        lemma_norm_parts_keeps(Seq::empty(), s, false);
        assert(Seq::<Seq<char>>::empty() + s =~= s);
    }
}

/// Components without `x` join to text without `x`.
proof fn lemma_join_lacks(s: Seq<Seq<char>>, x: char)
    requires
        x != '/',
        forall|i: int, k: int| 0 <= i < s.len() && 0 <= k < s[i].len() ==> s[i][k] != x,
    ensures
        forall|k: int| 0 <= k < join_parts(s).len() ==> join_parts(s)[k] != x,
    decreases s.len(),
{
    if s.len() == 1 {
        assert(s[0] == s[0]);
    } else if s.len() > 1 {
        let q = s.drop_last();
        assert forall|i: int, k: int| 0 <= i < q.len() && 0 <= k < q[i].len() implies q[i][k]
            != x by {
            assert(q[i] == s[i]);
        }
        lemma_join_lacks(q, x);
        let t = s.len() - 1;
        let j = join_parts(s);
        let jq = join_parts(q);
        assert forall|k: int| 0 <= k < j.len() implies j[k] != x by {
            if k < jq.len() {
                assert(j[k] == jq[k]);
            } else if k > jq.len() {
                assert(j[k] == s[t][k - jq.len() - 1]);
            }
        }
    }
}

/// Kept components hold no `x` when the components they come from hold
/// none.
proof fn lemma_norm_parts_lack(comps: Seq<Seq<char>>, abs: bool, x: char)
    requires
        x != '.',
        forall|i: int, k: int|
            0 <= i < comps.len() && 0 <= k < comps[i].len() ==> comps[i][k] != x,
    ensures
        forall|i: int, k: int|
            0 <= i < norm_parts(comps, abs).len() && 0 <= k < norm_parts(comps, abs)[i].len()
                ==> norm_parts(comps, abs)[i][k] != x,
    decreases comps.len(),
{
    if comps.len() > 0 {
        let q = comps.drop_last();
        assert forall|i: int, k: int| 0 <= i < q.len() && 0 <= k < q[i].len() implies q[i][k]
            != x by {
            assert(q[i] == comps[i]);
        }
        lemma_norm_parts_lack(q, abs, x);
        let prev = norm_parts(q, abs);
        let next = norm_parts(comps, abs);
        let c = comps.last();
        let t = comps.len() - 1;
        assert forall|i: int, k: int| 0 <= i < next.len() && 0 <= k < next[i].len() implies next[i][k]
            != x by {
            if i < prev.len() && next[i] == prev[i] {
            } else {
                assert(next[i] == c);
                assert(c == comps[t]);
                if c == dot_dot() {
                    assert(c[k] == '.');
                }
            }
        }
    }
}

/// Normal form brings in no character other than `/` and `.`.
pub proof fn lemma_normalize_lacks(p: Seq<char>, x: char)
    requires
        x != '/',
        x != '.',
        forall|k: int| 0 <= k < p.len() ==> p[k] != x,
    ensures
        forall|k: int| 0 <= k < normalize(p).len() ==> normalize(p)[k] != x,
{
    let abs = is_absolute(p);
    let comps = split_char(p, '/');
    lemma_split_parts_lack(p, '/', x);
    lemma_norm_parts_lack(comps, abs, x);
    let s = norm_parts(comps, abs);
    lemma_join_lacks(s, x);
    let n = normalize(p);
    if abs {
        assert forall|k: int| 0 <= k < n.len() implies n[k] != x by {
            if k > 0 {
                assert(n[k] == join_parts(s)[k - 1]);
            }
        }
    }
}

/// The position just after the last `/` of `p`.
pub fn find_name_start(p: &[char]) -> (r: usize)
    ensures
        r as int == name_start(p@),
        r <= p@.len(),
{
    let mut i: usize = p.len();
    while i > 0 && p[i - 1] != '/'
        invariant
            i <= p@.len(),
            forall|k: int| i <= k < p@.len() ==> p@[k] != '/',
        decreases i,
    {
        i = i - 1;
    }
    proof {
        lemma_name_start_bounds(p@);
        let s = name_start(p@);
        if s < i {
            assert(p@[s - 1] == '/');
            assert(i - 1 >= s);
        }
        if i < s {
            assert(p@[i - 1] == '/');
        }
    }
    i
}

/// The last position of `c` in `s`.
pub fn find_last(s: &[char], c: char) -> (r: Option<usize>)
    ensures
        match r {
            Some(i) => last_index_of(s@, c) == Some(i as int) && i < s@.len(),
            None => last_index_of(s@, c) is None,
        },
{
    let mut i: usize = s.len();
    while i > 0
        invariant
            i <= s@.len(),
            forall|k: int| i <= k < s@.len() ==> s@[k] != c,
        decreases i,
    {
        if s[i - 1] == c {
            proof {
                lemma_last_index(s@, c, i - 1);
            }
            return Some(i - 1);
        }
        i = i - 1;
    }
    proof {
        lemma_last_index(s@, c, -1);
    }
    None
}

/// The file name of `p`.
pub fn get_file_name(p: &[char]) -> (r: Option<Vec<char>>)
    ensures
        match r {
            Some(n) => file_name(p@) == Some(n@),
            None => file_name(p@) is None,
        },
{
    let start = find_name_start(p);
    let name = sub_chars(p, start, p.len());
    assert(name@ == p@.skip(start as int));
    let is_dot = name.len() == 1 && name[0] == '.';
    let is_dotdot = name.len() == 2 && name[0] == '.' && name[1] == '.';
    if name.len() == 0 || is_dot || is_dotdot {
        proof {
            if is_dot {
                assert(name@ =~= seq!['.']);
            }
            if is_dotdot {
                assert(name@ =~= seq!['.', '.']);
            }
        }
        None
    } else {
        proof {
            if name@ == seq!['.'] {
                assert(name@[0] == '.');
            }
            if name@ == seq!['.', '.'] {
                assert(name@[0] == '.' && name@[1] == '.');
            }
        }
        Some(name)
    }
}

/// The extension of a file name.
pub fn get_name_extension(name: &[char]) -> (r: Option<Vec<char>>)
    ensures
        match r {
            Some(e) => name_extension(name@) == Some(e@),
            None => name_extension(name@) is None,
        },
{
    let nl = name.len();
    match find_last(name, '.') {
        Some(i) => if i == 0 {
            None
        } else {
            Some(sub_chars(name, i + 1, nl))
        },
        None => None,
    }
}

/// The stem of a file name.
pub fn get_name_stem(name: &[char]) -> (r: Vec<char>)
    ensures
        r@ == name_stem(name@),
{
    match find_last(name, '.') {
        Some(i) => if i == 0 {
            sub_chars(name, 0, name.len())
        } else {
            sub_chars(name, 0, i)
        },
        None => sub_chars(name, 0, name.len()),
    }
}

/// `p` with the extension of its file name replaced by `ext`.
pub fn replace_extension(p: &[char], ext: &[char]) -> (r: Vec<char>)
    ensures
        r@ == with_extension(p@, ext@),
{
    match get_file_name(p) {
        None => sub_chars(p, 0, p.len()),
        Some(name) => {
            let start = find_name_start(p);
            let mut out = sub_chars(p, 0, start);
            let stem = get_name_stem(name.as_slice());
            extend_chars(&mut out, stem.as_slice());
            if ext.len() > 0 {
                out.push('.');
                extend_chars(&mut out, ext);
                assert(out@ =~= p@.take(start as int) + (stem@ + seq!['.'] + ext@));
            } else {
                assert(out@ =~= p@.take(start as int) + stem@);
            }
            out
        },
    }
}

/// The normal form of `p`.
pub fn normalize_path(p: &[char]) -> (r: Vec<char>)
    ensures
        r@ == normalize(p@),
{
    let abs = p.len() > 0 && p[0] == '/';
    let parts = split_chars(p, '/');
    let ghost comps = vecs_view(parts@);
    let mut kept: Vec<Vec<char>> = Vec::new();
    let mut i: usize = 0;
    assert(comps.take(0) =~= Seq::<Seq<char>>::empty());
    assert(vecs_view(kept@) =~= Seq::<Seq<char>>::empty());
    while i < parts.len()
        invariant
            i <= parts@.len(),
            comps == vecs_view(parts@),
            abs == is_absolute(p@),
            vecs_view(kept@) == norm_parts(comps.take(i as int), abs),
        decreases parts.len() - i,
    {
        let c = &parts[i];
        let ghost prev = vecs_view(kept@);
        assert(comps.take(i + 1).drop_last() =~= comps.take(i as int));
        assert(comps.take(i + 1).last() == c@);
        let n = c.len();
        let is_dot = n == 1 && c[0] == '.';
        let is_up = n == 2 && c[0] == '.' && c[1] == '.';
        proof {
            if is_dot {
                assert(c@ =~= seq!['.']);
            }
            if c@ == seq!['.'] {
                assert(c@[0] == '.');
            }
            if is_up {
                assert(c@ =~= dot_dot());
            }
            if c@ == dot_dot() {
                assert(c@[0] == '.' && c@[1] == '.');
            }
        }
        if n == 0 || is_dot {
        } else if is_up {
            let kl = kept.len();
            let mut top_up = false;
            if kl > 0 {
                let t = &kept[kl - 1];
                top_up = t.len() == 2 && t[0] == '.' && t[1] == '.';
                proof {
                    assert(prev.last() == t@);
                    if top_up {
                        assert(t@ =~= dot_dot());
                    }
                    if t@ == dot_dot() {
                        assert(t@[0] == '.' && t@[1] == '.');
                    }
                }
            }
            if kl > 0 && !top_up {
                kept.pop();
                assert(vecs_view(kept@) =~= prev.drop_last());
            } else if !abs {
                let up = sub_chars(c.as_slice(), 0, n);
                assert(up@ =~= c@);
                kept.push(up);
                assert(vecs_view(kept@) =~= prev.push(c@));
            }
        } else {
            let part = sub_chars(c.as_slice(), 0, n);
            assert(part@ =~= c@);
            kept.push(part);
            assert(vecs_view(kept@) =~= prev.push(c@));
        }
        i = i + 1;
    }
    assert(comps.take(parts@.len() as int) =~= comps);
    assert(comps == split_char(p@, '/'));
    let ghost s = vecs_view(kept@);
    let mut out: Vec<char> = Vec::new();
    if abs {
        out.push('/');
    }
    let ghost lead: Seq<char> = if abs {
        seq!['/']
    } else {
        Seq::empty()
    };
    let mut j: usize = 0;
    assert(s.take(0) =~= Seq::<Seq<char>>::empty());
    assert(out@ =~= lead + join_parts(s.take(0)));
    while j < kept.len()
        invariant
            j <= kept@.len(),
            s == vecs_view(kept@),
            out@ == lead + join_parts(s.take(j as int)),
        decreases kept.len() - j,
    {
        let ghost before = out@;
        let ghost next = s.take(j + 1);
        assert(next.drop_last() =~= s.take(j as int));
        assert(next.last() == kept[j as int]@);
        if j > 0 {
            out.push('/');
        }
        extend_chars(&mut out, kept[j].as_slice());
        proof {
            if j == 0 {
                assert(next[0] == kept[0]@);
                assert(out@ =~= lead + join_parts(next));
            } else {
                assert(out@ =~= lead + join_parts(next));
            }
        }
        j = j + 1;
    }
    assert(s.take(kept@.len() as int) =~= s);
    if !abs && kept.len() == 0 {
        out.push('.');
        assert(out@ =~= seq!['.']);
    } else {
        assert(out@ == lead + join_parts(s));
        if !abs {
            assert(out@ =~= join_parts(s));
        }
    }
    out
}

} // verus!
