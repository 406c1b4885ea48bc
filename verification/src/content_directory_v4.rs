//! The ContentDirectory service: the media library, lookups of media items
//! by URL, and `Browse` responses in DIDL-Lite.

use vstd::prelude::*;
use vstd::string::StringSliceAdditionalSpecFns;
use crate::library::{Library, LibraryError, RowView, children_spec, row_with_id};
use crate::path::{
    extension, file_stem, get_file_name, get_name_extension, get_name_stem, normalize,
    normalize_path, replace_extension, with_extension,
};
use crate::result_item::{DidlError, ItemView, ResultItem, ResultItemIterator, RowError, didl_spec, items_of_rows, items_view};
use crate::soap::{
    BrowseAction, SoapError, XmlElement, bracket_runs_short, browse_spec, check_bracket_runs,
    parse_xml, parsed_xml,
};
use crate::template::{Template, TemplateError, render_spec, scan_spec};
use crate::text::{chars_of, extend_chars, extend_str, find_char, nat_text, parse_i64, parse_i64_spec, push_decimal, string_of};

verus! {

/// Why the content directory refused a request.
#[derive(Debug, Clone, Copy, PartialEq, Eq, Structural)]
pub enum ContentError {
    /// The library directory's path holds a NUL character.
    BadLibraryPath,
    /// The library table refused a row.
    Library(LibraryError),
    /// The SOAP request holds no valid `Browse` action.
    Soap(SoapError),
    /// A library row does not give a result item.
    Row(RowError),
    /// A result item has no DIDL-Lite entry.
    Didl(DidlError),
    /// The response template is not valid.
    Template(TemplateError),
    /// A `Browse` request without a body.
    NoBody,
    /// A `Browse` request body that is not an XML document.
    BadXml,
    /// A `Browse` request body with 256 or more `]` in a row, more than
    /// the XML parser can count.
    LongBracketRun,
}

/// `s` with every `c` replaced by `rep`.
pub open spec fn replace_char(s: Seq<char>, c: char, rep: Seq<char>) -> Seq<char>
    decreases s.len(),
{
    if s.len() == 0 {
        Seq::empty()
    } else {
        replace_char(s.drop_last(), c, rep) + if s.last() == c {
            rep
        } else {
            seq![s.last()]
        }
    }
}

/// What `&` becomes.
pub open spec fn amp_escape() -> Seq<char> {
    seq!['&', 'a', 'm', 'p', ';', 'a', 'm', 'p', ';']
}

/// What `<` becomes.
pub open spec fn lt_escape() -> Seq<char> {
    seq!['&', 'l', 't', ';']
}

/// What `>` becomes.
pub open spec fn gt_escape() -> Seq<char> {
    seq!['&', 'g', 't', ';']
}

/// What `"` becomes.
pub open spec fn quot_escape() -> Seq<char> {
    seq!['&', 'q', 'u', 'o', 't', ';']
}

/// DIDL-Lite text escaped to sit inside the `Result` element of a SOAP
/// response: `&`, `<`, `>` and `"` replaced, in that order.
pub open spec fn escape_spec(s: Seq<char>) -> Seq<char> {
    replace_char(
        replace_char(replace_char(replace_char(s, '&', amp_escape()), '<', lt_escape()), '>', gt_escape()),
        '"',
        quot_escape(),
    )
}

fn replace_chars(s: &[char], c: char, rep: &[char]) -> (r: Vec<char>)
    ensures
        r@ == replace_char(s@, c, rep@),
{
    let n = s.len();
    let mut out: Vec<char> = Vec::new();
    let mut i: usize = 0;
    assert(s@.take(0) =~= Seq::<char>::empty());
    while i < n
        invariant
            n == s@.len(),
            i <= n,
            out@ == replace_char(s@.take(i as int), c, rep@),
        decreases n - i,
    {
        let ghost next = s@.take(i + 1);
        assert(next.drop_last() == s@.take(i as int));
        assert(next.last() == s@[i as int]);
        if s[i] == c {
            extend_chars(&mut out, rep);
        } else {
            out.push(s[i]);
            assert(out@ =~= replace_char(s@.take(i as int), c, rep@) + seq![s@[i as int]]);
        }
        i = i + 1;
    }
    assert(s@.take(n as int) == s@);
    out
}

fn escape_chars(s: &[char]) -> (r: Vec<char>)
    ensures
        r@ == escape_spec(s@),
{
    let amp = vec!['&', 'a', 'm', 'p', ';', 'a', 'm', 'p', ';'];
    let lt = vec!['&', 'l', 't', ';'];
    let gt = vec!['&', 'g', 't', ';'];
    let quot = vec!['&', 'q', 'u', 'o', 't', ';'];
    assert(amp@ =~= amp_escape());
    assert(lt@ =~= lt_escape());
    assert(gt@ =~= gt_escape());
    assert(quot@ =~= quot_escape());
    let a = replace_chars(s, '&', amp.as_slice());
    let b = replace_chars(a.as_slice(), '<', lt.as_slice());
    let c = replace_chars(b.as_slice(), '>', gt.as_slice());
    replace_chars(c.as_slice(), '"', quot.as_slice())
}

/// Escapes DIDL-Lite text for the `Result` element of a SOAP response:
/// `&` becomes `&amp;amp;`, then `<`, `>` and `"` become `&lt;`, `&gt;`
/// and `&quot;`.
pub fn escape_didl(s: &str) -> (r: String)
    ensures
        r@ == escape_spec(s@),
{
    let cs = chars_of(s);
    let e = escape_chars(cs.as_slice());
    string_of(e.as_slice())
}

proof fn lemma_replace_absent(s: Seq<char>, c: char, rep: Seq<char>, d: char)
    requires
        !rep.contains(d),
        d == c || !s.contains(d),
    ensures
        !replace_char(s, c, rep).contains(d),
    decreases s.len(),
{
    if s.len() > 0 {
        let t = s.drop_last();
        if d != c {
            assert forall|k: int| 0 <= k < t.len() implies t[k] != d by {
                assert(t[k] == s[k]);
            }
            assert(s.last() == s[s.len() - 1]);
        }
        lemma_replace_absent(t, c, rep, d);
        let last = if s.last() == c {
            rep
        } else {
            seq![s.last()]
        };
        let r = replace_char(s, c, rep);
        assert(r == replace_char(t, c, rep) + last);
        assert forall|k: int| 0 <= k < r.len() implies r[k] != d by {
            if k < replace_char(t, c, rep).len() {
                assert(r[k] == replace_char(t, c, rep)[k]);
            } else {
                assert(r[k] == last[k - replace_char(t, c, rep).len()]);
            }
        }
    }
}

/// Escaped DIDL-Lite text holds no `<`, `>` or `"`, so it cannot break the
/// XML of the response it is placed in.
pub proof fn lemma_escape_no_markup(s: Seq<char>)
    ensures
        !escape_spec(s).contains('<'),
        !escape_spec(s).contains('>'),
        !escape_spec(s).contains('"'),
{
    let a = replace_char(s, '&', amp_escape());
    let b = replace_char(a, '<', lt_escape());
    let c = replace_char(b, '>', gt_escape());
    assert(!amp_escape().contains('<')) by {
        assert forall|k: int| 0 <= k < amp_escape().len() implies amp_escape()[k] != '<' by {}
    }
    assert(!lt_escape().contains('<')) by {
        assert forall|k: int| 0 <= k < lt_escape().len() implies lt_escape()[k] != '<' by {}
    }
    assert(!gt_escape().contains('<')) by {
        assert forall|k: int| 0 <= k < gt_escape().len() implies gt_escape()[k] != '<' by {}
    }
    assert(!quot_escape().contains('<')) by {
        assert forall|k: int| 0 <= k < quot_escape().len() implies quot_escape()[k] != '<' by {}
    }
    assert(!gt_escape().contains('>')) by {
        assert forall|k: int| 0 <= k < gt_escape().len() implies gt_escape()[k] != '>' by {}
    }
    assert(!quot_escape().contains('>')) by {
        assert forall|k: int| 0 <= k < quot_escape().len() implies quot_escape()[k] != '>' by {}
    }
    assert(!quot_escape().contains('"')) by {
        assert forall|k: int| 0 <= k < quot_escape().len() implies quot_escape()[k] != '"' by {}
    }
    lemma_replace_absent(a, '<', lt_escape(), '<');
    lemma_replace_absent(b, '>', gt_escape(), '<');
    lemma_replace_absent(c, '"', quot_escape(), '<');
    lemma_replace_absent(b, '>', gt_escape(), '>');
    lemma_replace_absent(c, '"', quot_escape(), '>');
    lemma_replace_absent(c, '"', quot_escape(), '"');
}


/// What one character becomes in escaped text.
pub open spec fn escape_char(c: char) -> Seq<char> {
    if c == '&' {
        amp_escape()
    } else if c == '<' {
        lt_escape()
    } else if c == '>' {
        gt_escape()
    } else if c == '"' {
        quot_escape()
    } else {
        seq![c]
    }
}

/// Escaped text read back: each escape sequence gives its character again,
/// any other character stands for itself.
pub open spec fn unescape_spec(t: Seq<char>) -> Seq<char>
    decreases t.len(),
{
    if t.len() == 0 {
        Seq::empty()
    } else if t.len() >= 9 && t.take(9) == amp_escape() {
        seq!['&'] + unescape_spec(t.skip(9))
    } else if t.len() >= 4 && t.take(4) == lt_escape() {
        seq!['<'] + unescape_spec(t.skip(4))
    } else if t.len() >= 4 && t.take(4) == gt_escape() {
        seq!['>'] + unescape_spec(t.skip(4))
    } else if t.len() >= 6 && t.take(6) == quot_escape() {
        seq!['"'] + unescape_spec(t.skip(6))
    } else {
        seq![t[0]] + unescape_spec(t.skip(1))
    }
}

/// Every character escaped on its own, one after another.
spec fn escape_each(s: Seq<char>) -> Seq<char>
    decreases s.len(),
{
    if s.len() == 0 {
        Seq::empty()
    } else {
        escape_each(s.drop_last()) + escape_char(s.last())
    }
}

proof fn lemma_replace_concat(a: Seq<char>, b: Seq<char>, c: char, rep: Seq<char>)
    ensures
        replace_char(a + b, c, rep) == replace_char(a, c, rep) + replace_char(b, c, rep),
    decreases b.len(),
{
    if b.len() == 0 {
        assert(a + b =~= a);
        assert(replace_char(a, c, rep) + replace_char(b, c, rep) =~= replace_char(a, c, rep));
    } else {
        lemma_replace_concat(a, b.drop_last(), c, rep);
        assert((a + b).drop_last() =~= a + b.drop_last());
        assert((a + b).last() == b.last());
    }
}

proof fn lemma_replace_absent_same(s: Seq<char>, c: char, rep: Seq<char>)
    requires
        forall|k: int| 0 <= k < s.len() ==> s[k] != c,
    ensures
        replace_char(s, c, rep) == s,
    decreases s.len(),
{
    if s.len() > 0 {
        lemma_replace_absent_same(s.drop_last(), c, rep);
        assert(s.drop_last().push(s.last()) =~= s);
        assert(s.last() == s[s.len() - 1]);
    }
}

proof fn lemma_replace_single(x: char, c: char, rep: Seq<char>)
    ensures
        replace_char(seq![x], c, rep) == if x == c {
            rep
        } else {
            seq![x]
        },
{
    let e = Seq::<char>::empty();
    assert(seq![x].drop_last() =~= e);
    assert(seq![x].last() == x);
    assert(replace_char(e, c, rep) == e);
    assert(e + rep =~= rep);
    assert(e + seq![x] =~= seq![x]);
}

/// One pass on what an earlier pass made of a character.
proof fn lemma_pass(x: char, prev: Seq<char>, c: char, rep: Seq<char>)
    requires
        prev == seq![x] || forall|k: int| 0 <= k < prev.len() ==> prev[k] != c,
    ensures
        replace_char(prev, c, rep) == if prev == seq![x] && x == c {
            rep
        } else {
            prev
        },
{
    if prev == seq![x] {
        lemma_replace_single(x, c, rep);
    } else {
        lemma_replace_absent_same(prev, c, rep);
    }
}

/// The four passes on one character give its escape.
proof fn lemma_escape_one(c: char)
    ensures
        escape_spec(seq![c]) == escape_char(c),
{
    lemma_replace_single(c, '&', amp_escape());
    let r1 = replace_char(seq![c], '&', amp_escape());
    assert(forall|k: int| 0 <= k < amp_escape().len() ==> amp_escape()[k] != '<' && amp_escape()[k]
        != '>' && amp_escape()[k] != '"');
    assert(forall|k: int| 0 <= k < lt_escape().len() ==> lt_escape()[k] != '>' && lt_escape()[k]
        != '"');
    assert(forall|k: int| 0 <= k < gt_escape().len() ==> gt_escape()[k] != '"');
    lemma_pass(c, r1, '<', lt_escape());
    let r2 = replace_char(r1, '<', lt_escape());
    lemma_pass(c, r2, '>', gt_escape());
    let r3 = replace_char(r2, '>', gt_escape());
    lemma_pass(c, r3, '"', quot_escape());
}

/// Escaping a text escapes each of its characters.
proof fn lemma_escape_each(s: Seq<char>)
    ensures
        escape_spec(s) == escape_each(s),
    decreases s.len(),
{
    if s.len() == 0 {
    } else {
        let a = s.drop_last();
        let b = seq![s.last()];
        lemma_escape_each(a);
        assert(s =~= a + b);
        lemma_replace_concat(a, b, '&', amp_escape());
        let a1 = replace_char(a, '&', amp_escape());
        let b1 = replace_char(b, '&', amp_escape());
        lemma_replace_concat(a1, b1, '<', lt_escape());
        let a2 = replace_char(a1, '<', lt_escape());
        let b2 = replace_char(b1, '<', lt_escape());
        lemma_replace_concat(a2, b2, '>', gt_escape());
        let a3 = replace_char(a2, '>', gt_escape());
        let b3 = replace_char(b2, '>', gt_escape());
        lemma_replace_concat(a3, b3, '"', quot_escape());
        lemma_escape_one(s.last());
    }
}

/// Escaping a text escapes its first character, then the rest.
proof fn lemma_escape_each_front(s: Seq<char>)
    requires
        s.len() > 0,
    ensures
        escape_each(s) == escape_char(s[0]) + escape_each(s.drop_first()),
    decreases s.len(),
{
    if s.len() == 1 {
        assert(s.drop_last() =~= Seq::<char>::empty());
        assert(s.drop_first() =~= Seq::<char>::empty());
        assert(escape_char(s[0]) + Seq::<char>::empty() =~= escape_char(s[0]));
    } else {
        let q = s.drop_last();
        lemma_escape_each_front(q);
        assert(q[0] == s[0]);
        assert(q.drop_first() =~= s.drop_first().drop_last());
        assert(s.drop_first().last() == s.last());
        assert(escape_char(s[0]) + escape_each(q.drop_first()) + escape_char(s.last()) =~= escape_char(
            s[0],
        ) + (escape_each(q.drop_first()) + escape_char(s.last())));
    }
}

/// Reading back an escaped character followed by more text.
proof fn lemma_unescape_step(c: char, rest: Seq<char>)
    ensures
        unescape_spec(escape_char(c) + rest) == seq![c] + unescape_spec(rest),
{
    let t = escape_char(c) + rest;
    let n = escape_char(c).len() as int;
    assert(t.skip(n) =~= rest);
    assert(t.take(n) =~= escape_char(c));
    if c == '&' {
    } else if c == '<' {
        assert(t[1] != amp_escape()[1]);
    } else if c == '>' {
        assert(t[1] != amp_escape()[1]);
        assert(t[1] != lt_escape()[1]);
    } else if c == '"' {
        assert(t[1] != amp_escape()[1]);
        assert(t[1] != lt_escape()[1]);
        assert(t[1] != gt_escape()[1]);
    } else {
        assert(t[0] == c);
        assert(t.len() >= 9 ==> t.take(9)[0] != amp_escape()[0]);
        assert(t.len() >= 4 ==> t.take(4)[0] != lt_escape()[0]);
        assert(t.len() >= 4 ==> t.take(4)[0] != gt_escape()[0]);
        assert(t.len() >= 6 ==> t.take(6)[0] != quot_escape()[0]);
    }
}

proof fn lemma_unescape_each(s: Seq<char>)
    ensures
        unescape_spec(escape_each(s)) == s,
    decreases s.len(),
{
    if s.len() > 0 {
        lemma_escape_each_front(s);
        lemma_unescape_step(s[0], escape_each(s.drop_first()));
        lemma_unescape_each(s.drop_first());
        assert(seq![s[0]] + s.drop_first() =~= s);
    }
}

/// Escaping loses nothing: reading the escaped text back gives the text.
pub proof fn lemma_unescape_escape(s: Seq<char>)
    ensures
        unescape_spec(escape_spec(s)) == s,
{
    lemma_escape_each(s);
    lemma_unescape_each(s);
}


/// `t` with every occurrence of `pat`, found from left to right, replaced
/// by `c`.
pub open spec fn replace_text(t: Seq<char>, pat: Seq<char>, c: char) -> Seq<char>
    decreases t.len(),
{
    if t.len() == 0 {
        Seq::empty()
    } else if pat.len() > 0 && t.len() >= pat.len() && t.take(pat.len() as int) == pat {
        seq![c] + replace_text(t.skip(pat.len() as int), pat, c)
    } else {
        seq![t[0]] + replace_text(t.skip(1), pat, c)
    }
}

/// Escaped text read back by replacing `&quot;`, `&gt;`, `&lt;` and then
/// `&amp;amp;` by the characters they stand for, in that order.
pub open spec fn unescape_by_replacing(t: Seq<char>) -> Seq<char> {
    replace_text(
        replace_text(
            replace_text(replace_text(t, quot_escape(), '"'), gt_escape(), '>'),
            lt_escape(),
            '<',
        ),
        amp_escape(),
        '&',
    )
}

/// What a character has become after the first `k` replacing passes.
spec fn stage_char(k: int, x: char) -> Seq<char> {
    if x == '"' {
        if k >= 1 { seq!['"'] } else { quot_escape() }
    } else if x == '>' {
        if k >= 2 { seq!['>'] } else { gt_escape() }
    } else if x == '<' {
        if k >= 3 { seq!['<'] } else { lt_escape() }
    } else if x == '&' {
        if k >= 4 { seq!['&'] } else { amp_escape() }
    } else {
        seq![x]
    }
}

/// What a text has become after the first `k` replacing passes.
spec fn stage_text(k: int, s: Seq<char>) -> Seq<char>
    decreases s.len(),
{
    if s.len() == 0 {
        Seq::empty()
    } else {
        stage_text(k, s.drop_last()) + stage_char(k, s.last())
    }
}

/// The text that pass `k` replaces.
spec fn stage_pat(k: int) -> Seq<char> {
    if k == 0 {
        quot_escape()
    } else if k == 1 {
        gt_escape()
    } else if k == 2 {
        lt_escape()
    } else {
        amp_escape()
    }
}

/// The character that pass `k` puts in its place.
spec fn stage_ch(k: int) -> char {
    if k == 0 {
        '"'
    } else if k == 1 {
        '>'
    } else if k == 2 {
        '<'
    } else {
        '&'
    }
}

proof fn lemma_stage_ends(s: Seq<char>)
    ensures
        stage_text(0, s) == escape_each(s),
        stage_text(4, s) == s,
    decreases s.len(),
{
    if s.len() > 0 {
        lemma_stage_ends(s.drop_last());
        assert(stage_char(0, s.last()) == escape_char(s.last()));
        assert(stage_char(4, s.last()) =~= seq![s.last()]);
        assert(s.drop_last() + seq![s.last()] =~= s);
    }
}

proof fn lemma_stage_front(k: int, s: Seq<char>)
    requires
        s.len() > 0,
    ensures
        stage_text(k, s) == stage_char(k, s[0]) + stage_text(k, s.drop_first()),
    decreases s.len(),
{
    if s.len() == 1 {
        assert(s.drop_last() =~= Seq::<char>::empty());
        assert(s.drop_first() =~= Seq::<char>::empty());
        assert(stage_char(k, s[0]) + Seq::<char>::empty() =~= stage_char(k, s[0]));
    } else {
        let q = s.drop_last();
        lemma_stage_front(k, q);
        assert(q[0] == s[0]);
        assert(q.drop_first() =~= s.drop_first().drop_last());
        assert(s.drop_first().last() == s.last());
        assert(stage_char(k, s[0]) + stage_text(k, q.drop_first()) + stage_char(k, s.last())
            =~= stage_char(k, s[0]) + (stage_text(k, q.drop_first()) + stage_char(k, s.last())));
    }
}

/// Text without `&` passes through a pass that replaces text starting
/// with `&`.
proof fn lemma_replace_plain(u: Seq<char>, rest: Seq<char>, pat: Seq<char>, c: char)
    requires
        pat.len() > 0,
        pat[0] == '&',
        forall|j: int| 0 <= j < u.len() ==> u[j] != '&',
    ensures
        replace_text(u + rest, pat, c) == u + replace_text(rest, pat, c),
    decreases u.len(),
{
    if u.len() == 0 {
        assert(u + rest =~= rest);
        assert(u + replace_text(rest, pat, c) =~= replace_text(rest, pat, c));
    } else {
        let t = u + rest;
        assert(t[0] == u[0]);
        if t.len() >= pat.len() && t.take(pat.len() as int) == pat {
            assert(t.take(pat.len() as int)[0] == t[0]);
        }
        let u1 = u.skip(1);
        assert(t.skip(1) =~= u1 + rest);
        lemma_replace_plain(u1, rest, pat, c);
        assert(seq![u[0]] + (u1 + replace_text(rest, pat, c)) =~= u + replace_text(rest, pat, c));
    }
}

/// What a pass does to one character's form, followed by more text.
proof fn lemma_stage_step(k: int, x: char, rest: Seq<char>)
    requires
        0 <= k < 4,
    ensures
        replace_text(stage_char(k, x) + rest, stage_pat(k), stage_ch(k)) == stage_char(k + 1, x)
            + replace_text(rest, stage_pat(k), stage_ch(k)),
{
    let e = stage_char(k, x);
    let p = stage_pat(k);
    let c = stage_ch(k);
    let t = e + rest;
    let n = p.len() as int;
    assert(p.len() > 0 && p[0] == '&');
    if x == stage_ch(k) {
        assert(e == p);
        assert(t.take(n) =~= p);
        assert(t.skip(n) =~= rest);
        assert(stage_char(k + 1, x) =~= seq![c]);
    } else if e.len() == 1 {
        assert(e[0] != '&');
        assert(stage_char(k + 1, x) == e);
        lemma_replace_plain(e, rest, p, c);
    } else {
        assert(stage_char(k + 1, x) == e);
        assert(e[0] == '&' && e[1] != p[1]);
        assert(t[1] == e[1]);
        if t.len() >= n && t.take(n) == p {
            assert(t.take(n)[1] == t[1]);
        }
        let e1 = e.skip(1);
        assert(forall|j: int| 0 <= j < e1.len() ==> e1[j] != '&');
        assert(t.skip(1) =~= e1 + rest);
        lemma_replace_plain(e1, rest, p, c);
        assert(seq!['&'] + (e1 + replace_text(rest, p, c)) =~= e + replace_text(rest, p, c));
    }
}

proof fn lemma_stage_pass(k: int, s: Seq<char>)
    requires
        0 <= k < 4,
    ensures
        replace_text(stage_text(k, s), stage_pat(k), stage_ch(k)) == stage_text(k + 1, s),
    decreases s.len(),
{
    if s.len() == 0 {
    } else {
        lemma_stage_front(k, s);
        lemma_stage_front(k + 1, s);
        lemma_stage_step(k, s[0], stage_text(k, s.drop_first()));
        lemma_stage_pass(k, s.drop_first());
    }
}

/// Escaping loses nothing for a reader that replaces `&quot;`, `&gt;`,
/// `&lt;` and then `&amp;amp;`: that gives the text back.
pub proof fn lemma_unescape_by_replacing(s: Seq<char>)
    ensures
        unescape_by_replacing(escape_spec(s)) == s,
{
    lemma_escape_each(s);
    lemma_stage_ends(s);
    lemma_stage_pass(0, s);
    lemma_stage_pass(1, s);
    lemma_stage_pass(2, s);
    lemma_stage_pass(3, s);
}

} // verus!

verus! {

/// The opening tag of a DIDL-Lite document.
pub open spec fn didl_header() -> Seq<char> {
    "<DIDL-Lite xmlns:dc=\"http://purl.org/dc/elements/1.1/\" xmlns:upnp=\"urn:schemas-upnp-org:metadata-1-0/upnp/\" xmlns=\"urn:schemas-upnp-org:metadata-1-0/DIDL-Lite/\" xmlns:dlna=\"urn:schemas-dlna-org:metadata-1-0/\">"@
}

/// The DIDL-Lite entries of a list of items, one after another, or the
/// first item's error.
pub open spec fn didl_list(items: Seq<ItemView>) -> Result<Seq<char>, DidlError>
    decreases items.len(),
{
    if items.len() == 0 {
        Ok(Seq::empty())
    } else {
        match didl_list(items.drop_last()) {
            Err(e) => Err(e),
            Ok(prev) => match didl_spec(items.last()) {
                Err(e) => Err(e),
                Ok(d) => Ok(prev + d),
            },
        }
    }
}

/// The variables of a `Browse` response: the escaped DIDL-Lite document
/// and the number of items, twice.
pub open spec fn response_vars(didl: Seq<char>, count: nat) -> Map<Seq<char>, Seq<char>> {
    Map::<Seq<char>, Seq<char>>::empty().insert("result"@, escape_spec(didl_header() + didl)).insert(
        "number_returned"@,
        nat_text(count),
    ).insert("total_matches"@, nat_text(count))
}

/// The `Browse` response for a list of items, rendered from the response
/// template `tmpl`.
pub open spec fn content_xml_spec(items: Seq<ItemView>, tmpl: Seq<char>) -> Result<
    Seq<char>,
    ContentError,
> {
    match scan_spec(tmpl) {
        Err(e) => Err(ContentError::Template(e)),
        Ok(tags) => match didl_list(items) {
            Err(e) => Err(ContentError::Didl(e)),
            Ok(d) => Ok(render_spec(tmpl, tags, response_vars(d, items.len()))),
        },
    }
}

proof fn lemma_didl_err_extends(items: Seq<ItemView>, k: int)
    requires
        0 <= k <= items.len(),
        didl_list(items.take(k)) is Err,
    ensures
        didl_list(items) == didl_list(items.take(k)),
    decreases items.len() - k,
{
    if k < items.len() {
        let next = items.take(k + 1);
        assert(next.drop_last() == items.take(k));
        lemma_didl_err_extends(items, k + 1);
    } else {
        assert(items.take(k) == items);
    }
}

/// The `Browse` response for a list of items: the response template
/// `template` rendered with `result` set to the escaped DIDL-Lite document
/// of the items, and `number_returned` and `total_matches` to their number.
/// Refused when the template is not valid or an item has no entry.
pub fn content_xml(list: &Vec<ResultItem>, template: &str) -> (r: Result<String, ContentError>)
    requires
        template@.len() > 0,
        vstd::utf8::is_ascii_chars(template@),
    ensures
        match r {
            Ok(s) => content_xml_spec(items_view(list@), template@) == Ok::<
                Seq<char>,
                ContentError,
            >(s@),
            Err(e) => content_xml_spec(items_view(list@), template@) == Err::<
                Seq<char>,
                ContentError,
            >(e),
        },
{
    let mut tmpl = match Template::from_content(String::from_str(template)) {
        Ok(t) => t,
        Err(e) => return Err(ContentError::Template(e)),
    };
    let n = list.len();
    let mut didl: Vec<char> = Vec::new();
    let ghost items = items_view(list@);
    let mut i: usize = 0;
    assert(items.take(0) =~= Seq::<ItemView>::empty());
    while i < n
        invariant
            n == list@.len(),
            items == items_view(list@),
            tmpl.vars_view() == Map::<Seq<char>, Seq<char>>::empty(),
            tmpl.content_view() == template@,
            scan_spec(template@) == Ok::<Seq<(int, int, Seq<char>)>, TemplateError>(
                tmpl.tags_spec(),
            ),
            i <= n,
            didl_list(items.take(i as int)) == Ok::<Seq<char>, DidlError>(didl@),
        decreases n - i,
    {
        let ghost next = items.take(i + 1);
        assert(next.drop_last() == items.take(i as int));
        assert(next.last() == list@[i as int].view());
        match list[i].to_didl() {
            Ok(d) => {
                let dc = chars_of(d.as_str());
                extend_chars(&mut didl, dc.as_slice());
            },
            Err(e) => {
                proof {
                    lemma_didl_err_extends(items, i + 1);
                    assert(items.take(n as int) == items);
                }
                return Err(ContentError::Didl(e));
            },
        }
        i = i + 1;
    }
    assert(items.take(n as int) == items);
    let mut doc: Vec<char> = Vec::new();
    extend_str(
        &mut doc,
        "<DIDL-Lite xmlns:dc=\"http://purl.org/dc/elements/1.1/\" xmlns:upnp=\"urn:schemas-upnp-org:metadata-1-0/upnp/\" xmlns=\"urn:schemas-upnp-org:metadata-1-0/DIDL-Lite/\" xmlns:dlna=\"urn:schemas-dlna-org:metadata-1-0/\">",
    );
    extend_chars(&mut doc, didl.as_slice());
    let escaped = string_of(escape_chars(doc.as_slice()).as_slice());
    let mut count: Vec<char> = Vec::new();
    push_decimal(&mut count, n as u64);
    let count_text = string_of(count.as_slice());
    proof {
        reveal_strlit("result");
        reveal_strlit("number_returned");
        reveal_strlit("total_matches");
        assert("number_returned"@.len() != "result"@.len());
        assert("total_matches"@.len() != "result"@.len());
        assert("total_matches"@.len() != "number_returned"@.len());
    }
    tmpl.set_var("result", escaped.as_str());
    tmpl.set_var("number_returned", count_text.as_str());
    tmpl.set_var("total_matches", count_text.as_str());
    let out = tmpl.render();
    assert(tmpl.vars_view() =~= response_vars(didl@, n as nat));
    Ok(out)
}

} // verus!

verus! {

/// A file or directory found under the library directory, with what the
/// library needs of it: its path, whether it is a directory, its MIME type
/// as detected from its content (empty for a directory) and, for a
/// directory, its entries.
pub struct FsEntry {
    pub path: String,
    pub is_dir: bool,
    pub mime: String,
    pub children: Vec<FsEntry>,
}

/// The MIME type stored for a file: `application/mp4` is stored as
/// `video/mp4`, any other type as detected.
pub open spec fn stored_mime(m: Seq<char>) -> Seq<char> {
    if m == "application/mp4"@ {
        "video/mp4"@
    } else {
        m
    }
}

/// The MIME type stored for a file.
pub fn normalize_mime(m: &str) -> (r: String)
    ensures
        r@ == stored_mime(m@),
{
    let s = String::from_str(m);
    let mp4 = String::from_str("application/mp4");
    if s == mp4 {
        String::from_str("video/mp4")
    } else {
        s
    }
}

/// What the table stores for a path: its normal form.
pub open spec fn stored_path(p: Seq<char>) -> Seq<char> {
    normalize(p)
}

/// What the table stores for a path (see `stored_path`).
pub fn store_path(p: &str) -> (r: String)
    ensures
        r@ == stored_path(p@),
{
    let cs = chars_of(p);
    let n = normalize_path(cs.as_slice());
    string_of(n.as_slice())
}

/// The row of an entry with id `id` under the row `parent`; its path is
/// stored as `stored_path` gives it.
pub open spec fn entry_row(e: FsEntry, parent: int, id: int) -> RowView {
    if e.is_dir {
        RowView {
            id,
            parent_id: Some(parent),
            is_dir: Some(1),
            child_count: e.children@.len() as int,
            path: stored_path(e.path@),
            mime: Some(Seq::empty()),
        }
    } else {
        RowView {
            id,
            parent_id: Some(parent),
            is_dir: Some(0),
            child_count: 0,
            path: stored_path(e.path@),
            mime: Some(stored_mime(e.mime@)),
        }
    }
}

/// The rows that scanning `es` under the row `parent` adds, ids counting up
/// from `first`: each entry's row, followed, for a directory, by the rows
/// of its entries; a directory's child count is its number of entries.
pub open spec fn scan_rows(es: Seq<FsEntry>, parent: int, first: int) -> Seq<RowView>
    decreases es,
{
    if es.len() == 0 {
        Seq::empty()
    } else {
        let prev = scan_rows(es.drop_last(), parent, first);
        let e = es.last();
        let id = first + prev.len();
        let own = if e.is_dir {
            proof {
                assert(decreases_to!(es => e));
                assert(decreases_to!(e => e.children));
                assert(decreases_to!(e.children => e.children@));
            }
            seq![entry_row(e, parent, id)] + scan_rows(e.children@, id, id + 1)
        } else {
            seq![entry_row(e, parent, id)]
        };
        prev + own
    }
}

proof fn lemma_scan_rows_len(es: Seq<FsEntry>, parent: int, first: int)
    ensures
        scan_rows(es, parent, first).len() >= es.len(),
    decreases es,
{
    if es.len() > 0 {
        lemma_scan_rows_len(es.drop_last(), parent, first);
    }
}

proof fn lemma_scan_rows_prefix(es: Seq<FsEntry>, parent: int, first: int, k: int)
    requires
        0 <= k <= es.len(),
    ensures
        scan_rows(es.take(k), parent, first).len() <= scan_rows(es, parent, first).len(),
    decreases es.len() - k,
{
    if k < es.len() {
        let next = es.take(k + 1);
        assert(next.drop_last() == es.take(k));
        lemma_scan_rows_prefix(es, parent, first, k + 1);
    } else {
        assert(es.take(k) == es);
    }
}

/// A media library over a directory.
pub struct ContentDirectory {
    db: Library,
    library_dir: String,
}

impl ContentDirectory {
    /// The rows of the library table.
    pub closed spec fn rows(&self) -> Seq<RowView> {
        self.db@
    }

    /// The library directory.
    pub closed spec fn dir(&self) -> Seq<char> {
        self.library_dir@
    }

    /// A content directory over `lib_dir`, with an empty library.  Refused
    /// when `lib_dir` is empty.
    pub fn new(lib_dir: String) -> (r: ContentDirectory)
        requires
            lib_dir@.len() > 0,
        ensures
            r.dir() == lib_dir@,
            r.rows() == Seq::<RowView>::empty(),
    {
        ContentDirectory { db: Library::new(), library_dir: lib_dir }
    }

    /// Adds the rows of `entries` under the row `parent_id` and returns the
    /// number of entries; each directory's child count is its number of
    /// entries.  Refused when the table runs out of ids.
    fn scan(&mut self, entries: &Vec<FsEntry>, parent_id: i64) -> (r: Result<usize, ContentError>)
        ensures
            final(self).dir() == old(self).dir(),
            match r {
                Ok(n) => n == entries@.len() && final(self).rows() == old(self).rows() + scan_rows(
                    entries@,
                    parent_id as int,
                    old(self).rows().len() as int + 1,
                ),
                Err(e) => e == ContentError::Library(LibraryError::Full) && old(self).rows().len()
                    + scan_rows(entries@, parent_id as int, old(self).rows().len() as int + 1).len()
                    >= i64::MAX,
            },
        decreases entries@,
    {
        let n = entries.len();
        let ghost first: int = self.db@.len() as int + 1;
        let ghost base = self.db@;
        let mut k: usize = 0;
        assert(entries@.take(0) =~= Seq::<FsEntry>::empty());
        assert(base + scan_rows(entries@.take(0), parent_id as int, first) =~= base);
        while k < n
            invariant
                n == entries@.len(),
                k <= n,
                first == base.len() + 1,
                base == old(self).rows(),
                self.library_dir@ == old(self).dir(),
                self.db@ == base + scan_rows(entries@.take(k as int), parent_id as int, first),
            decreases n - k,
        {
            let e = &entries[k];
            let ghost pre = entries@.take(k as int);
            let ghost next = entries@.take(k + 1);
            assert(next.drop_last() == pre);
            assert(next.last() == *e);
            let ghost prev = scan_rows(pre, parent_id as int, first);
            let ghost cur = self.db@;
            let path = store_path(e.path.as_str());
            if e.is_dir {
                let id = match self.db.insert(Some(parent_id), Some(1), path, Some(String::new())) {
                    Ok(id) => id,
                    Err(x) => {
                        proof {
                            lemma_scan_rows_prefix(entries@, parent_id as int, first, k + 1);
                            assert(scan_rows(next, parent_id as int, first).len() >= prev.len() + 1);
                        }
                        return Err(ContentError::Library(x));
                    },
                };
                let ghost after_insert = self.db@;
                proof {
                    assert(decreases_to!(entries@ => entries@[k as int]));
                }
                let count = match self.scan(&e.children, id) {
                    Ok(c) => c,
                    Err(x) => {
                        proof {
                            lemma_scan_rows_prefix(entries@, parent_id as int, first, k + 1);
                            assert(scan_rows(next, parent_id as int, first) =~= prev + (seq![
                                entry_row(*e, parent_id as int, first + prev.len()),
                            ] + scan_rows(e.children@, id as int, id + 1)));
                        }
                        return Err(x);
                    },
                };
                let ghost sub = scan_rows(e.children@, id as int, id + 1);
                assert(self.db@ == after_insert + sub);
                let total = self.db.len();
                proof {
                    lemma_scan_rows_len(e.children@, id as int, id + 1);
                }
                assert(count <= total);
                self.db.set_child_count(id, count as i64);
                proof {
                    assert(id == cur.len() + 1);
                    assert(cur.len() == base.len() + prev.len());
                    let row0 = after_insert[id - 1];
                    assert(row0.child_count == 0);
                    assert(row0.path == stored_path(e.path@));
                    assert(row0.mime == Some(Seq::<char>::empty()));
                    assert(entry_row(*e, parent_id as int, first + prev.len()) == RowView {
                        child_count: count as int,
                        ..row0
                    });
                    assert(self.db@ =~= cur + (seq![entry_row(*e, parent_id as int, first + prev.len())] + sub));
                }
            } else {
                let mime = normalize_mime(e.mime.as_str());
                match self.db.insert(Some(parent_id), Some(0), path, Some(mime)) {
                    Ok(_) => {},
                    Err(x) => {
                        proof {
                            lemma_scan_rows_prefix(entries@, parent_id as int, first, k + 1);
                            assert(scan_rows(next, parent_id as int, first).len() >= prev.len() + 1);
                        }
                        return Err(ContentError::Library(x));
                    },
                }
                assert(self.db@ =~= cur + seq![entry_row(*e, parent_id as int, first + prev.len())]);
            }
            k = k + 1;
        }
        assert(entries@.take(n as int) == entries@);
        Ok(n)
    }
}

} // verus!

verus! {

/// The row of the library directory itself.
pub open spec fn root_row(dir: Seq<char>) -> RowView {
    RowView {
        id: 1,
        parent_id: None,
        is_dir: None,
        child_count: 0,
        path: stored_path(dir),
        mime: None,
    }
}

/// The path of the media item that a URL such as `/MediaItems/12.srt`
/// asks for: the library path of the item whose id is the URL's file stem,
/// with its extension replaced by the URL's, all in normal form.  `None`
/// (answered with `404 Not Found`) when the URL is shorter than
/// `/MediaItems/`, holds a NUL, has no stem or extension, or its stem is
/// not an integer or names no item.
pub open spec fn item_path_spec(rows: Seq<RowView>, url: Seq<char>, url_len: int) -> Option<
    Seq<char>,
> {
    if url_len < 12 || url.contains('\0') {
        None
    } else {
        let u = normalize(url);
        match (file_stem(u), extension(u)) {
            (Some(stem), Some(ext)) => match parse_i64_spec(stem) {
                None => None,
                Some(id) => match row_with_id(rows, id as int) {
                    None => None,
                    Some(row) => Some(normalize(with_extension(normalize(row.path), ext))),
                },
            },
            _ => None,
        }
    }
}

/// The `Browse` response that a SOAP request gets from the library rows:
/// the items under the requested object (object 0 is the library
/// directory, row 1), rendered from the response template.
pub open spec fn browse_content_spec(rows: Seq<RowView>, soap: XmlElement, tmpl: Seq<char>) -> Result<
    Seq<char>,
    ContentError,
> {
    match browse_spec(soap) {
        Err(e) => Err(ContentError::Soap(e)),
        Ok(action) => {
            let parent = if action.object_id == 0 {
                1
            } else {
                action.object_id
            };
            match items_of_rows(children_spec(rows, parent)) {
                Err(e) => Err(ContentError::Row(e)),
                Ok(items) => content_xml_spec(items, tmpl),
            }
        },
    }
}

/// The SOAP element of a `Browse` request body, as RustyXML parses it.
pub open spec fn request_element(body: Option<Seq<char>>) -> Result<XmlElement, ContentError> {
    match body {
        None => Err(ContentError::NoBody),
        Some(b) => if !bracket_runs_short(b) {
            Err(ContentError::LongBracketRun)
        } else {
            match parsed_xml(b) {
                None => Err(ContentError::BadXml),
                Some(e) => Ok(e),
            }
        },
    }
}

/// The `Browse` response body for a request body: that of its parsed
/// element (see `browse_content_spec`).
pub open spec fn browse_request_spec(rows: Seq<RowView>, body: Option<Seq<char>>, tmpl: Seq<char>) -> Result<
    Seq<char>,
    ContentError,
> {
    match request_element(body) {
        Err(e) => Err(e),
        Ok(el) => browse_content_spec(rows, el, tmpl),
    }
}

/// The view of an optional string slice.
pub open spec fn opt_str_view(o: Option<&str>) -> Option<Seq<char>> {
    match o {
        Some(s) => Some(s@),
        None => None,
    }
}

/// The bytes of an HTTP response that carries `body` as XML.
pub open spec fn xml_response(body: Seq<char>) -> Seq<u8> {
    let bytes = vstd::utf8::encode_utf8(body);
    "HTTP/1.1 200 OK\r\nConnection: close\r\nContent-Type: text/xml; charset=\"utf-8\"\r\n".spec_bytes()
        + vstd::utf8::encode_utf8(crate::http::content_length_text(bytes.len()))
        + bytes
}

impl ContentDirectory {
    /// Rebuilds the library from the entries found under the library
    /// directory: the table is emptied, the directory itself becomes row 1,
    /// and the rows of the entries follow.  Refused when the library
    /// directory's path holds a NUL or the table runs out of ids.
    pub fn update_db(&mut self, entries: &Vec<FsEntry>) -> (r: Result<(), ContentError>)
        ensures
            final(self).dir() == old(self).dir(),
            match r {
                Ok(()) => !old(self).dir().contains('\0') && 1 + scan_rows(entries@, 1, 2).len()
                    < i64::MAX && final(self).rows() == seq![root_row(old(self).dir())]
                    + scan_rows(entries@, 1, 2),
                Err(e) => (e == ContentError::BadLibraryPath && old(self).dir().contains('\0')) || (
                e == ContentError::Library(LibraryError::Full) && !old(self).dir().contains('\0')
                    && 1 + scan_rows(entries@, 1, 2).len() >= i64::MAX),
            },
    {
        self.db.clear();
        let dir = chars_of(self.library_dir.as_str());
        match find_char(dir.as_slice(), '\0') {
            Some(k) => {
                assert(dir@[k as int] == '\0');
                return Err(ContentError::BadLibraryPath);
            },
            None => {},
        }
        let root_path = store_path(self.library_dir.as_str());
        let root = match self.db.insert(None, None, root_path, None) {
            Ok(id) => id,
            Err(x) => return Err(ContentError::Library(x)),
        };
        assert(self.db@ =~= seq![root_row(old(self).dir())]);
        self.scan(entries, root)?;
        let total = self.db.len();
        assert(total == 1 + scan_rows(entries@, 1, 2).len());
        Ok(())
    }

    /// The path of the media item that `url` asks for (see
    /// `item_path_spec`); the caller still has to check that the file
    /// exists.
    pub fn get_item_path(&self, url: &str) -> (r: Option<String>)
        ensures
            match r {
                Some(p) => item_path_spec(self.rows(), url@, url.spec_bytes().len() as int) == Some(
                    p@,
                ),
                None => item_path_spec(self.rows(), url@, url.spec_bytes().len() as int) is None,
            },
    {
        if url.as_bytes().len() < 12 {
            return None;
        }
        let u = chars_of(url);
        match find_char(u.as_slice(), '\0') {
            Some(k) => {
                assert(u@[k as int] == '\0');
                return None;
            },
            None => {},
        }
        let un = normalize_path(u.as_slice());
        let name = match get_file_name(un.as_slice()) {
            Some(n) => n,
            None => return None,
        };
        let stem = get_name_stem(name.as_slice());
        let ext = match get_name_extension(name.as_slice()) {
            Some(e) => e,
            None => return None,
        };
        let id = match parse_i64(stem.as_slice()) {
            Some(id) => id,
            None => return None,
        };
        let p = match self.db.path_of(id) {
            Some(p) => p,
            None => return None,
        };
        let pc = chars_of(p.as_str());
        let pn = normalize_path(pc.as_slice());
        let replaced = replace_extension(pn.as_slice(), ext.as_slice());
        let out = normalize_path(replaced.as_slice());
        Some(string_of(out.as_slice()))
    }

    /// The `Browse` response body for a SOAP request (see
    /// `browse_content_spec`), rendered from the response template
    /// `template`.
    pub fn get_content_as_xml(&self, soap: &XmlElement, template: &str) -> (r: Result<
        String,
        ContentError,
    >)
        requires
            template@.len() > 0,
            vstd::utf8::is_ascii_chars(template@),
        ensures
            match r {
                Ok(s) => browse_content_spec(self.rows(), *soap, template@) == Ok::<
                    Seq<char>,
                    ContentError,
                >(s@),
                Err(e) => browse_content_spec(self.rows(), *soap, template@) == Err::<
                    Seq<char>,
                    ContentError,
                >(e),
            },
    {
        let action = match BrowseAction::new(soap) {
            Ok(a) => a,
            Err(e) => return Err(ContentError::Soap(e)),
        };
        let parent_id = if action.object_id == 0 {
            1
        } else {
            action.object_id
        };
        let rows = self.db.children_of(parent_id);
        let mut iter = ResultItemIterator::new(rows);
        let items = match iter.collect() {
            Ok(items) => items,
            Err(e) => return Err(ContentError::Row(e)),
        };
        content_xml(&items, template)
    }

    /// The complete HTTP response to a `Browse` request: the XML headers, a
    /// `Content-Length` header and the response body.
    pub fn browse(&self, soap: &XmlElement, template: &str) -> (r: Result<Vec<u8>, ContentError>)
        requires
            template@.len() > 0,
            vstd::utf8::is_ascii_chars(template@),
        ensures
            match r {
                Ok(bytes) => exists|body: Seq<char>|
                    browse_content_spec(self.rows(), *soap, template@) == Ok::<
                        Seq<char>,
                        ContentError,
                    >(body) && bytes@ == xml_response(body),
                Err(e) => browse_content_spec(self.rows(), *soap, template@) == Err::<
                    Seq<char>,
                    ContentError,
                >(e),
            },
    {
        let result = self.get_content_as_xml(soap, template)?;
        let body = crate::http::str_bytes(result.as_str());
        let mut response = crate::http::default_xml_headers();
        let mut len_bytes = crate::http::content_length_header(body.len() as u64);
        let mut body_bytes = body;
        response.append(&mut len_bytes);
        response.append(&mut body_bytes);
        assert(response@ == xml_response(result@));
        Ok(response)
    }

    /// The complete HTTP response to a `Browse` request whose body is
    /// `body`: refused without a body, when the body has 256 or more `]`
    /// in a row, or when RustyXML cannot parse it, else the response of
    /// `browse` for the parsed element.
    pub fn browse_request(&self, body: Option<&str>, template: &str) -> (r: Result<
        Vec<u8>,
        ContentError,
    >)
        requires
            template@.len() > 0,
            vstd::utf8::is_ascii_chars(template@),
        ensures
            match r {
                Ok(bytes) => exists|d: Seq<char>|
                    browse_request_spec(self.rows(), opt_str_view(body), template@) == Ok::<
                        Seq<char>,
                        ContentError,
                    >(d) && bytes@ == xml_response(d),
                Err(e) => browse_request_spec(self.rows(), opt_str_view(body), template@) == Err::<
                    Seq<char>,
                    ContentError,
                >(e),
            },
    {
        let b = match body {
            Some(b) => b,
            None => return Err(ContentError::NoBody),
        };
        if !check_bracket_runs(b) {
            return Err(ContentError::LongBracketRun);
        }
        let soap = match parse_xml(b) {
            Some(e) => e,
            None => return Err(ContentError::BadXml),
        };
        self.browse(&soap, template)
    }
}

} // verus!

verus! {

spec fn is_digit_or_minus(c: char) -> bool {
    crate::text::is_digit(c) || c == '-'
}

proof fn lemma_encode_len(s: Seq<char>)
    ensures
        vstd::utf8::encode_utf8(s).len() >= s.len(),
    decreases s.len(),
{
    if s.len() > 0 {
        lemma_encode_len(s.drop_first());
        let u = s[0] as u32;
        assert(vstd::utf8::encode_scalar(u).len() >= 1);
    }
}

/// A request for `/MediaItems/<id>.<ext>` gives the path of item `<id>`
/// with its extension replaced by `ext` (how a player finds the subtitles
/// next to a video), in normal form, for any `ext` without `/`, `.` or NUL.
#[verifier::rlimit(40)]
pub proof fn lemma_media_url_lookup(rows: Seq<RowView>, id: i64, row: RowView, ext: Seq<char>)
    requires
        row_with_id(rows, id as int) == Some(row),
        forall|k: int| 0 <= k < ext.len() ==> ext[k] != '/' && ext[k] != '.' && ext[k] != '\0',
    ensures
        item_path_spec(
            rows,
            crate::result_item::media_url(id as int, ext),
            vstd::utf8::encode_utf8(crate::result_item::media_url(id as int, ext)).len() as int,
        ) == Some(normalize(with_extension(normalize(row.path), ext))),
{
    let url = crate::result_item::media_url(id as int, ext);
    let b = crate::text::int_text(id as int);
    reveal_strlit("/MediaItems/");
    reveal_strlit(".");
    let prefix = "/MediaItems/"@;
    assert(prefix =~= seq!['/', 'M', 'e', 'd', 'i', 'a', 'I', 't', 'e', 'm', 's', '/']);
    assert("."@ =~= seq!['.']);
    crate::text::lemma_int_text_chars(id as int);
    crate::text::lemma_int_text_parses(id);
    let n = b + seq!['.'] + ext;
    assert(url =~= prefix + n);
    // the URL is long enough and holds no NUL
    lemma_encode_len(url);
    assert forall|k: int| 0 <= k < url.len() implies url[k] != '\0' by {
        if k < 12 {
            assert(url[k] == prefix[k]);
        } else if k < 12 + b.len() {
            assert(url[k] == b[k - 12]);
            assert(is_digit_or_minus(b[k - 12]));
        } else if k == 12 + b.len() {
            assert(url[k] == '.');
        } else {
            assert(url[k] == ext[k - 13 - b.len()]);
        }
    }
    // its file name is `<id>.<ext>`
    assert forall|j: int| 12 <= j < url.len() implies url[j] != '/' by {
        if j < 12 + b.len() {
            assert(url[j] == b[j - 12]);
            assert(is_digit_or_minus(b[j - 12]));
        } else if j > 12 + b.len() {
            assert(url[j] == ext[j - 13 - b.len()]);
        } else {
            assert(url[j] == '.');
        }
    }
    assert(url[11] == '/');
    crate::path::lemma_name_start_is(url, 12);
    assert(url.skip(12) =~= n);
    assert(n[0] == b[0]);
    assert(n != seq!['.']) by {
        if n == seq!['.'] {
            assert(n[0] == '.');
        }
    }
    assert(n != seq!['.', '.']) by {
        if n == seq!['.', '.'] {
            assert(n[0] == '.');
        }
    }
    assert(crate::path::file_name(url) == Some(n));
    // its last dot is the one after the id
    assert forall|k: int| b.len() < k < n.len() implies n[k] != '.' by {
        assert(n[k] == ext[k - b.len() - 1]);
    }
    assert(n[b.len() as int] == '.');
    crate::path::lemma_last_index(n, '.', b.len() as int);
    assert(n.take(b.len() as int) =~= b);
    assert(n.skip(b.len() as int + 1) =~= ext);
    assert(crate::path::file_stem(url) == Some(b));
    assert(extension(url) == Some(ext));
    assert(is_digit_or_minus(b[0]));
    assert forall|k: int| 0 <= k < n.len() implies n[k] != '/' by {
        assert(n[k] == url[12 + k]);
    }
    lemma_media_url_normal(url, n);
}

/// `/MediaItems/<name>` is in normal form for a non-empty name without
/// `/` that does not start with `.`.
proof fn lemma_media_url_normal(url: Seq<char>, n: Seq<char>)
    requires
        url == "/MediaItems/"@ + n,
        n.len() > 0,
        n[0] != '.',
        forall|k: int| 0 <= k < n.len() ==> n[k] != '/',
    ensures
        normalize(url) == url,
{
    reveal_strlit("/MediaItems/");
    let m = seq!['M', 'e', 'd', 'i', 'a', 'I', 't', 'e', 'm', 's'];
    let parts = seq![m, n];
    assert(parts.drop_last() =~= seq![m]);
    assert(parts.last() == n);
    assert(crate::path::join_parts(seq![m]) == m);
    assert(crate::path::join_parts(parts) =~= m + seq!['/'] + n);
    assert(url =~= seq!['/'] + crate::path::join_parts(parts));
    assert(crate::path::kept_parts(parts, true)) by {
        assert(parts[0] == m && parts[1] == n);
        assert(m != seq!['.'] && m != crate::path::dot_dot()) by {
            if m == seq!['.'] || m == crate::path::dot_dot() {
                assert(m[0] == '.');
            }
        }
        assert(n != crate::path::dot_dot()) by {
            if n == crate::path::dot_dot() {
                assert(n[0] == '.');
            }
        }
    }
    crate::path::lemma_normalize_kept_absolute(parts);
    assert(normalize(url) == url);
}

/// The extension that a browse response puts in a file's URL: that of the
/// normal form of its path, or nothing.
pub open spec fn advertised_extension(path: Seq<char>) -> Seq<char> {
    match extension(normalize(path)) {
        Some(e) => e,
        None => Seq::empty(),
    }
}

/// The URL under which a browse response advertises a file (see
/// `media_url`) leads a video request back to that file: asking for
/// `/MediaItems/<id>.<ext>`, where `ext` is the file's own extension (or
/// nothing, when it has none), gives the file's path in normal form.  A
/// file name that ends in a `.` is left out: its URL asks for the name
/// without that dot.
pub proof fn lemma_item_url_resolves(rows: Seq<RowView>, id: i64, row: RowView)
    requires
        row_with_id(rows, id as int) == Some(row),
        extension(normalize(row.path)) != Some(Seq::<char>::empty()),
        !row.path.contains('\0'),
    ensures
        item_path_spec(
            rows,
            crate::result_item::media_url(id as int, advertised_extension(row.path)),
            vstd::utf8::encode_utf8(
                crate::result_item::media_url(id as int, advertised_extension(row.path)),
            ).len() as int,
        ) == Some(normalize(row.path)),
{
    let q = normalize(row.path);
    let ext = advertised_extension(row.path);
    assert forall|k: int| 0 <= k < row.path.len() implies row.path[k] != '\0' by {
        if row.path[k] == '\0' {
            assert(row.path.contains('\0'));
        }
    }
    crate::path::lemma_normalize_lacks(row.path, '\0');
    crate::path::lemma_extension_chars(q);
    assert forall|k: int| 0 <= k < ext.len() implies ext[k] != '/' && ext[k] != '.' && ext[k]
        != '\0' by {
        assert(ext[k] == q[q.len() - ext.len() + k]);
    }
    lemma_media_url_lookup(rows, id, row, ext);
    if extension(q) is Some {
        assert(ext.len() > 0) by {
            if ext.len() == 0 {
                assert(ext =~= Seq::<char>::empty());
            }
        }
        crate::path::lemma_with_own_extension(q, ext);
    } else {
        crate::path::lemma_with_no_extension(q);
    }
    crate::path::lemma_normalize_idempotent(row.path);
}

} // verus!

verus! {

proof fn lemma_children_concat(a: Seq<RowView>, b: Seq<RowView>, x: int)
    ensures
        children_spec(a + b, x) == children_spec(a, x) + children_spec(b, x),
    decreases b.len(),
{
    if b.len() == 0 {
        assert(a + b =~= a);
        assert(children_spec(a, x) + children_spec(b, x) =~= children_spec(a, x));
    } else {
        assert((a + b).drop_last() =~= a + b.drop_last());
        assert((a + b).last() == b.last());
        lemma_children_concat(a, b.drop_last(), x);
        if b.last().parent_id == Some(x) {
            assert(children_spec(a, x) + children_spec(b.drop_last(), x).push(b.last()) =~= (
            children_spec(a, x) + children_spec(b.drop_last(), x)).push(b.last()));
        }
    }
}

proof fn lemma_children_none(b: Seq<RowView>, x: int)
    requires
        forall|k: int| 0 <= k < b.len() ==> (#[trigger] b[k]).parent_id != Some(x),
    ensures
        children_spec(b, x).len() == 0,
    decreases b.len(),
{
    if b.len() > 0 {
        let c = b.drop_last();
        assert forall|k: int| 0 <= k < c.len() implies (#[trigger] c[k]).parent_id != Some(x) by {
            assert(c[k] == b[k]);
        }
        lemma_children_none(c, x);
        assert(b.last() == b[b.len() - 1]);
    }
}

/// The shape of the rows that a scan adds: ids count up from `first`; each
/// row's parent is `parent` or an earlier row of the scan; `parent` gets
/// one child per entry, and each directory row as many children as its
/// child count says.
proof fn lemma_scan_shape(es: Seq<FsEntry>, parent: int, first: int)
    requires
        parent < first,
    ensures
        forall|k: int|
            0 <= k < scan_rows(es, parent, first).len() ==> (#[trigger] scan_rows(
                es,
                parent,
                first,
            )[k]).id == first + k,
        forall|k: int|
            0 <= k < scan_rows(es, parent, first).len() ==> {
                let r = #[trigger] scan_rows(es, parent, first)[k];
                r.parent_id == Some(parent) || (r.parent_id matches Some(y) && first <= y < first
                    + k)
            },
        children_spec(scan_rows(es, parent, first), parent).len() == es.len(),
        forall|k: int|
            0 <= k < scan_rows(es, parent, first).len() && (#[trigger] scan_rows(
                es,
                parent,
                first,
            )[k]).is_dir == Some(1int) ==> children_spec(
                scan_rows(es, parent, first),
                scan_rows(es, parent, first)[k].id,
            ).len() == scan_rows(es, parent, first)[k].child_count,
    decreases es,
{
    let s = scan_rows(es, parent, first);
    if es.len() == 0 {
        assert(s =~= Seq::<RowView>::empty());
    } else {
        let pre = es.drop_last();
        let e = es.last();
        let prev = scan_rows(pre, parent, first);
        let id = first + prev.len();
        lemma_scan_shape(pre, parent, first);
        let row = entry_row(e, parent, id);
        let inner = if e.is_dir {
            scan_rows(e.children@, id, id + 1)
        } else {
            Seq::<RowView>::empty()
        };
        if e.is_dir {
            assert(decreases_to!(es => e));
            assert(decreases_to!(e => e.children));
            assert(decreases_to!(e.children => e.children@));
            lemma_scan_shape(e.children@, id, id + 1);
        }
        let own = seq![row] + inner;
        assert(s =~= prev + own);
        // ids
        assert forall|k: int| 0 <= k < s.len() implies (#[trigger] s[k]).id == first + k by {
            if k < prev.len() {
                assert(s[k] == prev[k]);
            } else if k == prev.len() {
                assert(s[k] == row);
            } else {
                assert(s[k] == inner[k - prev.len() - 1]);
            }
        }
        // parents
        assert forall|k: int| 0 <= k < s.len() implies {
            let r = #[trigger] s[k];
            r.parent_id == Some(parent) || (r.parent_id matches Some(y) && first <= y < first + k)
        } by {
            if k < prev.len() {
                assert(s[k] == prev[k]);
            } else if k == prev.len() {
                assert(s[k] == row);
            } else {
                assert(s[k] == inner[k - prev.len() - 1]);
            }
        }
        // children of the parent
        lemma_children_concat(prev, own, parent);
        lemma_children_concat(seq![row], inner, parent);
        assert(seq![row].drop_last() =~= Seq::<RowView>::empty());
        assert(seq![row].last() == row);
        assert(row.parent_id == Some(parent));
        assert(children_spec(Seq::<RowView>::empty(), parent) =~= Seq::<RowView>::empty());
        assert(children_spec(seq![row], parent) =~= seq![row]);
        if e.is_dir {
            assert forall|k: int| 0 <= k < inner.len() implies (#[trigger] inner[k]).parent_id
                != Some(parent) by {}
        }
        lemma_children_none(inner, parent);
        assert(pre.len() + 1 == es.len());
        // children of each directory row
        assert forall|k: int|
            0 <= k < s.len() && (#[trigger] s[k]).is_dir == Some(1int) implies children_spec(
            s,
            s[k].id,
        ).len() == s[k].child_count by {
            let x = s[k].id;
            lemma_children_concat(prev, own, x);
            lemma_children_concat(seq![row], inner, x);
            if k < prev.len() {
                assert(s[k] == prev[k]);
                assert(x < id);
                assert(children_spec(seq![row], x).len() == 0) by {
                    lemma_children_none(seq![row], x);
                }
                if e.is_dir {
                    assert forall|j: int| 0 <= j < inner.len() implies (#[trigger] inner[j]).parent_id
                        != Some(x) by {}
                }
                lemma_children_none(inner, x);
            } else {
                assert forall|j: int| 0 <= j < prev.len() implies (#[trigger] prev[j]).parent_id
                    != Some(x) by {}
                lemma_children_none(prev, x);
                if k == prev.len() {
                    assert(s[k] == row);
                    assert(e.is_dir);
                    assert(children_spec(seq![row], x).len() == 0) by {
                        lemma_children_none(seq![row], x);
                    }
                } else {
                    assert(s[k] == inner[k - prev.len() - 1]);
                    assert(children_spec(seq![row], x).len() == 0) by {
                        lemma_children_none(seq![row], x);
                    }
                }
            }
        }
    }
}

/// In the library that `update_db` builds, row ids count up from 1, the
/// library directory (row 1) has one child per entry, and every directory
/// row's child count is the number of rows whose parent it is.
pub proof fn lemma_child_counts(dir: Seq<char>, es: Seq<FsEntry>)
    ensures
        forall|k: int|
            0 <= k < (seq![root_row(dir)] + scan_rows(es, 1, 2)).len() ==> (#[trigger] (seq![
                root_row(dir),
            ] + scan_rows(es, 1, 2))[k]).id == k + 1,
        children_spec(seq![root_row(dir)] + scan_rows(es, 1, 2), 1).len() == es.len(),
        forall|k: int|
            0 <= k < (seq![root_row(dir)] + scan_rows(es, 1, 2)).len() && (#[trigger] (seq![
                root_row(dir),
            ] + scan_rows(es, 1, 2))[k]).is_dir == Some(1int) ==> children_spec(
                seq![root_row(dir)] + scan_rows(es, 1, 2),
                (seq![root_row(dir)] + scan_rows(es, 1, 2))[k].id,
            ).len() == (seq![root_row(dir)] + scan_rows(es, 1, 2))[k].child_count,
{
    let s = scan_rows(es, 1, 2);
    let r = seq![root_row(dir)];
    let t = r + s;
    lemma_scan_shape(es, 1, 2);
    assert forall|k: int| 0 <= k < t.len() implies (#[trigger] t[k]).id == k + 1 by {
        if k > 0 {
            assert(t[k] == s[k - 1]);
        }
    }
    lemma_children_concat(r, s, 1);
    assert(r.drop_last() =~= Seq::<RowView>::empty());
    lemma_children_none(r, 1);
    assert forall|k: int|
        0 <= k < t.len() && (#[trigger] t[k]).is_dir == Some(1int) implies children_spec(
        t,
        t[k].id,
    ).len() == t[k].child_count by {
        assert(k > 0);
        assert(t[k] == s[k - 1]);
        lemma_children_concat(r, s, t[k].id);
        lemma_children_none(r, t[k].id);
    }
}

} // verus!
