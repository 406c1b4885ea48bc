//! A very small `{{name}}` template engine.
//!
//! A template is a text in which `{{name}}` tags stand for variables.
//! Tags cannot nest; a variable that is never set renders as empty text.

use vstd::prelude::*;
use crate::text::{
    assoc_lookup, assoc_map, chars_of, extend_chars, find_char, string_of, sub_chars, trim,
    trim_chars,
};

verus! {

/// A `{{name}}` tag: `start` is the position of its `{{`, `end` the
/// position of its `}}`, `name` the trimmed text between them.
pub struct Tag {
    pub start: usize,
    pub end: usize,
    pub name: String,
}

impl Tag {
    /// The tag as plain values.
    pub open spec fn view(&self) -> (int, int, Seq<char>) {
        (self.start as int, self.end as int, self.name@)
    }
}

/// Why a template or a variable was refused.
#[derive(Debug, Clone, Copy, PartialEq, Eq, Structural)]
pub enum TemplateError {
    /// A `}}` at this position while no tag was open.
    UnexpectedClose(usize),
    /// A `{{` at this position while a tag was already open.
    UnexpectedOpen(usize),
    /// A variable name holds one of `! @ # $ % ^ & * ( ) = +`.
    IllegalCharacter,
    /// A variable name holds a space.
    SpaceInName,
}

/// The two characters that open a tag.
pub open spec fn otag() -> Seq<char> {
    seq!['{', '{']
}

/// The two characters that close a tag.
pub open spec fn ctag() -> Seq<char> {
    seq!['}', '}']
}

/// A character that may not stand in a variable name.
pub open spec fn is_bad_char(c: char) -> bool {
    c == '!' || c == '@' || c == '#' || c == '$' || c == '%' || c == '^' || c == '&' || c == '*'
        || c == '(' || c == ')' || c == '=' || c == '+'
}

/// `s` holds a character that may not stand in a variable name.
pub open spec fn has_bad_char(s: Seq<char>) -> bool {
    exists|i: int| 0 <= i < s.len() && is_bad_char(#[trigger] s[i])
}

/// `s` holds a space.
pub open spec fn has_space(s: Seq<char>) -> bool {
    exists|i: int| 0 <= i < s.len() && #[trigger] s[i] == ' '
}

/// The variable name of the tag whose `{{` is at `o` and `}}` at `e`.
pub open spec fn tag_name_spec(c: Seq<char>, o: int, e: int) -> Result<Seq<char>, TemplateError> {
    let name = trim(c.subrange(o + 2, e));
    if has_bad_char(name) {
        Err(TemplateError::IllegalCharacter)
    } else if has_space(name) {
        Err(TemplateError::SpaceInName)
    } else {
        Ok(name)
    }
}

/// The rest of a left-to-right scan of `c` for tags, from position `i` on,
/// with `acc` the tags found so far and `open` whether a tag opened at `o`
/// is still open.
pub open spec fn scan_from(
    c: Seq<char>,
    i: int,
    open: bool,
    o: int,
    acc: Seq<(int, int, Seq<char>)>,
) -> Result<Seq<(int, int, Seq<char>)>, TemplateError>
    decreases c.len() - i,
{
    if i < 0 || i + 1 >= c.len() {
        Ok(acc)
    } else {
        let cur = c.subrange(i, i + 2);
        if !open && cur == ctag() {
            Err(TemplateError::UnexpectedClose(i as usize))
        } else if open && cur == otag() {
            Err(TemplateError::UnexpectedOpen(i as usize))
        } else if !open && cur == otag() {
            scan_from(c, i + 1, true, i, acc)
        } else if open && cur == ctag() {
            match tag_name_spec(c, o, i) {
                Ok(name) => scan_from(c, i + 1, false, o, acc.push((o, i, name))),
                Err(e) => Err(e),
            }
        } else {
            scan_from(c, i + 1, open, o, acc)
        }
    }
}

/// The tags of `c`, in order, or why `c` is not a valid template.
pub open spec fn scan_spec(c: Seq<char>) -> Result<Seq<(int, int, Seq<char>)>, TemplateError> {
    scan_from(c, 0, false, 0, seq![])
}

/// The number of positions from `i` on where `}}` starts.
pub open spec fn close_count_from(c: Seq<char>, i: int) -> nat
    decreases c.len() - i,
{
    if i < 0 || i + 1 >= c.len() {
        0
    } else {
        (if c.subrange(i, i + 2) == ctag() {
            1nat
        } else {
            0nat
        }) + close_count_from(c, i + 1)
    }
}

proof fn lemma_scan_count_from(
    c: Seq<char>,
    i: int,
    open: bool,
    o: int,
    acc: Seq<(int, int, Seq<char>)>,
)
    requires
        scan_from(c, i, open, o, acc) is Ok,
    ensures
        scan_from(c, i, open, o, acc)->Ok_0.len() == acc.len() + close_count_from(c, i),
    decreases c.len() - i,
{
    if i < 0 || i + 1 >= c.len() {
    } else {
        let cur = c.subrange(i, i + 2);
        assert(otag()[0] != ctag()[0]);
        if !open && cur == otag() {
            assert(cur != ctag());
            lemma_scan_count_from(c, i + 1, true, i, acc);
        } else if open && cur == ctag() {
            let name = tag_name_spec(c, o, i)->Ok_0;
            lemma_scan_count_from(c, i + 1, false, o, acc.push((o, i, name)));
        } else {
            lemma_scan_count_from(c, i + 1, open, o, acc);
        }
    }
}

/// A valid template has one tag for each `}}` in it: the number of tags
/// is the number of positions where `}}` starts.
pub proof fn lemma_tag_count(c: Seq<char>)
    requires
        scan_spec(c) is Ok,
    ensures
        scan_spec(c)->Ok_0.len() == close_count_from(c, 0),
{
    lemma_scan_count_from(c, 0, false, 0, seq![]);
}

/// The tags lie in `c` in order, each spelled `{{ name }}`, none overlapping.
pub open spec fn tags_well_placed(c: Seq<char>, tags: Seq<(int, int, Seq<char>)>) -> bool {
    &&& forall|k: int|
        #![trigger tags[k]]
        0 <= k < tags.len() ==> {
            &&& 0 <= tags[k].0
            &&& tags[k].0 + 2 <= tags[k].1
            &&& tags[k].1 + 2 <= c.len()
            &&& c.subrange(tags[k].0, tags[k].0 + 2) == otag()
            &&& c.subrange(tags[k].1, tags[k].1 + 2) == ctag()
            &&& tags[k].2 == trim(c.subrange(tags[k].0 + 2, tags[k].1))
        }
    &&& forall|k: int|
        #![trigger tags[k]]
        0 <= k < tags.len() - 1 ==> tags[k].1 + 2 <= tags[k + 1].0
}

/// Whether `var_name` is a legal variable name: it may not hold any of
/// `! @ # $ % ^ & * ( ) = +`.
pub fn check_tag_name(var_name: &str) -> (r: Result<(), TemplateError>)
    ensures
        r is Ok <==> !has_bad_char(var_name@),
        r is Err ==> r == Err::<(), TemplateError>(TemplateError::IllegalCharacter),
{
    let cs = chars_of(var_name);
    check_name_chars(cs.as_slice())
}

fn is_bad(c: char) -> (r: bool)
    ensures
        r == is_bad_char(c),
{
    c == '!' || c == '@' || c == '#' || c == '$' || c == '%' || c == '^' || c == '&' || c == '*'
        || c == '(' || c == ')' || c == '=' || c == '+'
}

fn check_name_chars(cs: &[char]) -> (r: Result<(), TemplateError>)
    ensures
        r is Ok <==> !has_bad_char(cs@),
        r is Err ==> r == Err::<(), TemplateError>(TemplateError::IllegalCharacter),
{
    let n = cs.len();
    let mut i: usize = 0;
    while i < n
        invariant
            n == cs@.len(),
            i <= n,
            forall|j: int| 0 <= j < i ==> !is_bad_char(#[trigger] cs@[j]),
        decreases n - i,
    {
        if is_bad(cs[i]) {
            return Err(TemplateError::IllegalCharacter);
        }
        i = i + 1;
    }
    Ok(())
}

fn tag_name_chars(c: &[char], o: usize, e: usize) -> (r: Result<String, TemplateError>)
    requires
        o + 2 <= e <= c@.len(),
    ensures
        match r {
            Ok(s) => tag_name_spec(c@, o as int, e as int) == Ok::<Seq<char>, TemplateError>(s@),
            Err(x) => tag_name_spec(c@, o as int, e as int) == Err::<Seq<char>, TemplateError>(x),
        },
{
    let inner = sub_chars(c, o + 2, e);
    let name = trim_chars(inner.as_slice());
    check_name_chars(name.as_slice())?;
    match find_char(name.as_slice(), ' ') {
        Some(_) => Err(TemplateError::SpaceInName),
        None => Ok(string_of(name.as_slice())),
    }
}

/// The variable name of the tag whose `{{` is at `otag_pos` and whose `}}`
/// is at `ctag_pos`: the text between them, trimmed; refused when it holds
/// an illegal character or a space.
pub fn extract_tag_name(content: &str, otag_pos: usize, ctag_pos: usize) -> (r: Result<
    String,
    TemplateError,
>)
    requires
        otag_pos + 2 <= ctag_pos <= content@.len(),
    ensures
        match r {
            Ok(s) => tag_name_spec(content@, otag_pos as int, ctag_pos as int) == Ok::<
                Seq<char>,
                TemplateError,
            >(s@),
            Err(x) => tag_name_spec(content@, otag_pos as int, ctag_pos as int) == Err::<
                Seq<char>,
                TemplateError,
            >(x),
        },
{
    let cs = chars_of(content);
    tag_name_chars(cs.as_slice(), otag_pos, ctag_pos)
}

/// The views of a list of tags.
pub open spec fn tags_view(tags: Seq<Tag>) -> Seq<(int, int, Seq<char>)> {
    tags.map_values(|t: Tag| t.view())
}

fn scan_chars(c: &[char]) -> (r: Result<Vec<Tag>, TemplateError>)
    requires
        c@.len() > 0,
    ensures
        match r {
            Ok(tags) => scan_spec(c@) == Ok::<Seq<(int, int, Seq<char>)>, TemplateError>(
                tags_view(tags@),
            ) && tags_well_placed(c@, tags_view(tags@)),
            Err(x) => scan_spec(c@) == Err::<Seq<(int, int, Seq<char>)>, TemplateError>(x),
        },
{
    let n = c.len();
    let mut tags: Vec<Tag> = Vec::new();
    let mut open = false;
    let mut o: usize = 0;
    let mut i: usize = 0;
    assert(tags_view(tags@) =~= seq![]);
    while i < n - 1
        invariant
            n == c@.len(),
            n > 0,
            i <= n - 1,
            scan_spec(c@) == scan_from(c@, i as int, open, o as int, tags_view(tags@)),
            tags_well_placed(c@, tags_view(tags@)),
            open ==> o < i && o + 2 <= n && c@.subrange(o as int, o + 2) == otag(),
            tags@.len() > 0 ==> {
                let last = tags@[tags@.len() - 1];
                &&& last.end < i
                &&& c@[last.end + 1] == '}'
                &&& open ==> last.end + 2 <= o
            },
        decreases n - i,
    {
        let ghost cur = c@.subrange(i as int, i + 2);
        let is_open = c[i] == '{' && c[i + 1] == '{';
        let is_close = c[i] == '}' && c[i + 1] == '}';
        assert(is_open == (cur == otag())) by {
            if cur == otag() {
                assert(cur[0] == c@[i as int] && cur[1] == c@[i + 1]);
            }
            if is_open {
                assert(cur =~= otag());
            }
        }
        assert(is_close == (cur == ctag())) by {
            if cur == ctag() {
                assert(cur[0] == c@[i as int] && cur[1] == c@[i + 1]);
            }
            if is_close {
                assert(cur =~= ctag());
            }
        }
        if !open && is_close {
            return Err(TemplateError::UnexpectedClose(i));
        }
        if open && is_open {
            return Err(TemplateError::UnexpectedOpen(i));
        }
        if !open && is_open {
            o = i;
            open = true;
        } else if open && is_close {
            assert(o + 2 <= i) by {
                if o + 1 == i {
                    assert(c@.subrange(o as int, o + 2)[1] == c@[o + 1]);
                }
            }
            let name = tag_name_chars(c, o, i)?;
            let ghost old_tags = tags_view(tags@);
            tags.push(Tag { start: o, end: i, name });
            open = false;
            proof {
                let tv = tags_view(tags@);
                assert(tv == old_tags.push((o as int, i as int, name@)));
                assert(c@[i + 1] == cur[1]);
                assert forall|k: int| #![trigger tv[k]] 0 <= k < tv.len() implies {
                    &&& 0 <= tv[k].0
                    &&& tv[k].0 + 2 <= tv[k].1
                    &&& tv[k].1 + 2 <= c@.len()
                    &&& c@.subrange(tv[k].0, tv[k].0 + 2) == otag()
                    &&& c@.subrange(tv[k].1, tv[k].1 + 2) == ctag()
                    &&& tv[k].2 == trim(c@.subrange(tv[k].0 + 2, tv[k].1))
                } by {
                    if k < old_tags.len() {
                        assert(tv[k] == old_tags[k]);
                    }
                }
                assert forall|k: int| #![trigger tv[k]] 0 <= k < tv.len() - 1 implies tv[k].1 + 2
                    <= tv[k + 1].0 by {
                    assert(tv[k] == old_tags[k]);
                    if k + 1 < old_tags.len() {
                        assert(tv[k + 1] == old_tags[k + 1]);
                    }
                }
            }
        } else {
        }
        proof {
            if !open && is_open {
                if tags@.len() > 0 {
                    let last = tags@[tags@.len() - 1];
                    if last.end + 1 == i {
                        assert(cur[0] == c@[i as int]);
                    }
                }
            }
        }
        i = i + 1;
    }
    Ok(tags)
}

/// All `{{name}}` tags of `content`, in order.  Refused when a `}}` comes
/// while no tag is open, a `{{` comes while one is open, or a name is not
/// legal.  A tag still open at the end is dropped.  The text is ASCII,
/// so that its positions count characters and bytes alike.
pub fn scan_tags(content: &str) -> (r: Result<Vec<Tag>, TemplateError>)
    requires
        content@.len() > 0,
        vstd::utf8::is_ascii_chars(content@),
    ensures
        match r {
            Ok(tags) => scan_spec(content@) == Ok::<Seq<(int, int, Seq<char>)>, TemplateError>(
                tags_view(tags@),
            ) && tags_well_placed(content@, tags_view(tags@)),
            Err(x) => scan_spec(content@) == Err::<Seq<(int, int, Seq<char>)>, TemplateError>(x),
        },
{
    let cs = chars_of(content);
    scan_chars(cs.as_slice())
}

} // verus!

verus! {

/// The text a variable renders as: its value, or nothing when it is unset.
pub open spec fn var_text(vars: Map<Seq<char>, Seq<char>>, name: Seq<char>) -> Seq<char> {
    if vars.contains_key(name) {
        vars[name]
    } else {
        Seq::empty()
    }
}

/// The rendering of `c` from position `last` on, tags `k..` still to do.
pub open spec fn render_from(
    c: Seq<char>,
    tags: Seq<(int, int, Seq<char>)>,
    vars: Map<Seq<char>, Seq<char>>,
    k: int,
    last: int,
) -> Seq<char>
    decreases tags.len() - k,
{
    if k < 0 || k >= tags.len() {
        c.subrange(last, c.len() as int)
    } else {
        c.subrange(last, tags[k].0) + var_text(vars, tags[k].2) + render_from(
            c,
            tags,
            vars,
            k + 1,
            tags[k].1 + 2,
        )
    }
}

/// The text of `c` with every tag replaced by the text of its variable.
pub open spec fn render_spec(
    c: Seq<char>,
    tags: Seq<(int, int, Seq<char>)>,
    vars: Map<Seq<char>, Seq<char>>,
) -> Seq<char> {
    render_from(c, tags, vars, 0, 0)
}

/// A template: its text, the tags found in it and the variables set so far.
pub struct Template {
    name: String,
    content: String,
    vars: Vec<(String, String)>,
    tags: Vec<Tag>,
}

/// The tags are exactly those that scanning the text finds.
#[verifier::opaque]
pub open spec fn tags_of_text(c: Seq<char>, tags: Seq<(int, int, Seq<char>)>) -> bool {
    &&& scan_spec(c) == Ok::<Seq<(int, int, Seq<char>)>, TemplateError>(tags)
    &&& tags_well_placed(c, tags)
}

impl Template {
    #[verifier::type_invariant]
    spec fn wf(self) -> bool {
        tags_of_text(self.content@, tags_view(self.tags@))
    }

    /// The name of the template.
    pub closed spec fn name_view(&self) -> Seq<char> {
        self.name@
    }

    /// The text of the template.
    pub closed spec fn content_view(&self) -> Seq<char> {
        self.content@
    }

    /// The tags of the template, in order.
    pub closed spec fn tags_spec(&self) -> Seq<(int, int, Seq<char>)> {
        tags_view(self.tags@)
    }

    /// The variables set so far.
    pub closed spec fn vars_view(&self) -> Map<Seq<char>, Seq<char>> {
        assoc_map(self.vars@)
    }

    /// A template over the given (ASCII) text, with no variables set.
    /// Refused as scanning the text for tags refuses it.
    pub fn from_content(content: String) -> (r: Result<Template, TemplateError>)
        requires
            content@.len() > 0,
            vstd::utf8::is_ascii_chars(content@),
        ensures
            match r {
                Ok(t) => t.name_view() == "default"@ && t.content_view() == content@ && scan_spec(content@) == Ok::<
                    Seq<(int, int, Seq<char>)>,
                    TemplateError,
                >(t.tags_spec()) && tags_well_placed(content@, t.tags_spec()) && t.vars_view() == Map::<
                    Seq<char>,
                    Seq<char>,
                >::empty(),
                Err(x) => scan_spec(content@) == Err::<Seq<(int, int, Seq<char>)>, TemplateError>(
                    x,
                ),
            },
    {
        let tags = scan_tags(content.as_str())?;
        let vars: Vec<(String, String)> = Vec::new();
        proof {
            reveal(tags_of_text);
        }
        let t = Template { name: String::from_str("default"), content, vars, tags };
        assert(assoc_map(t.vars@) == Map::<Seq<char>, Seq<char>>::empty());
        Ok(t)
    }

    /// The name of the template.
    pub fn name(&self) -> (r: String)
        ensures
            r@ == self.name_view(),
    {
        self.name.clone()
    }

    /// The text of the template.
    pub fn file_to_str(&self) -> (r: String)
        ensures
            r@ == self.content_view(),
    {
        self.content.clone()
    }

    /// Sets variable `k` to `v`; `k` must not be set yet (see `has_var`).
    pub fn set_var(&mut self, k: &str, v: &str)
        requires
            !old(self).vars_view().contains_key(k@),
        ensures
            final(self).vars_view() == old(self).vars_view().insert(k@, v@),
            final(self).name_view() == old(self).name_view(),
            final(self).content_view() == old(self).content_view(),
            final(self).tags_spec() == old(self).tags_spec(),
    {
        proof {
            use_type_invariant(&*self);
        }
        let key = String::from_str(k);
        let value = String::from_str(v);
        let ghost old_vars = self.vars@;
        let mut vars: Vec<(String, String)> = Vec::new();
        std::mem::swap(&mut vars, &mut self.vars);
        vars.push((key, value));
        self.vars = vars;
        assert(self.vars@.drop_last() == old_vars);
    }

    /// Whether a variable named `k` is set.
    pub fn has_var(&self, k: &str) -> (r: bool)
        ensures
            r == self.vars_view().contains_key(k@),
    {
        let key = String::from_str(k);
        assoc_lookup(&self.vars, &key).is_some()
    }

    /// The template's text with every `{{name}}` tag replaced by the value
    /// of its variable, or by nothing when the variable is not set.
    pub fn render(&self) -> (r: String)
        ensures
            r@ == render_spec(self.content_view(), self.tags_spec(), self.vars_view()),
    {
        proof {
            use_type_invariant(self);
            reveal(tags_of_text);
        }
        let c = chars_of(self.content.as_str());
        let ghost tv = tags_view(self.tags@);
        let ghost vars = assoc_map(self.vars@);
        let mut out: Vec<char> = Vec::new();
        let mut last: usize = 0;
        let nt = self.tags.len();
        let mut k: usize = 0;
        while k < nt
            invariant
                nt == self.tags@.len(),
                tv == tags_view(self.tags@),
                vars == assoc_map(self.vars@),
                c@ == self.content@,
                tags_well_placed(c@, tv),
                k <= nt,
                last <= c@.len(),
                k < nt ==> last <= tv[k as int].0,
                render_spec(c@, tv, vars) == out@ + render_from(c@, tv, vars, k as int, last as int),
            decreases nt - k,
        {
            let t = &self.tags[k];
            assert(tv[k as int] == t.view());
            let left = sub_chars(c.as_slice(), last, t.start);
            extend_chars(&mut out, left.as_slice());
            match assoc_lookup(&self.vars, &t.name) {
                Some(val) => {
                    let vc = chars_of(val.as_str());
                    extend_chars(&mut out, vc.as_slice());
                },
                None => {},
            }
            assert(out@ == (out@ + seq![]));
            last = t.end + 2;
            proof {
                if k + 1 < nt {
                    assert(tv[k as int].1 + 2 <= tv[k + 1].0);
                }
            }
            k = k + 1;
        }
        let right = sub_chars(c.as_slice(), last, c.len());
        extend_chars(&mut out, right.as_slice());
        string_of(out.as_slice())
    }
}

/// A text without tags renders to itself, whatever the variables.
pub proof fn lemma_render_without_tags(c: Seq<char>, vars: Map<Seq<char>, Seq<char>>)
    ensures
        render_spec(c, Seq::empty(), vars) == c,
{
    assert(c.subrange(0, c.len() as int) == c);
}

} // verus!
