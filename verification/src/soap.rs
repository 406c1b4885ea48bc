//! SOAP requests: an XML element tree, and the ContentDirectory `Browse`
//! action read from it.

use vstd::prelude::*;
use crate::text::{chars_of, extend_chars, parse_i64, parse_i64_spec, string_of};

verus! {

/// A node of an XML document.
pub enum XmlNode {
    Element(XmlElement),
    Characters(String),
    CData(String),
    Comment(String),
    Pi(String),
}

/// An XML element: its local name, its namespace and its child nodes.
pub struct XmlElement {
    pub name: String,
    pub ns: Option<String>,
    pub children: Vec<XmlNode>,
}

/// The character data of a list of nodes and of all elements below them,
/// in document order.
pub open spec fn nodes_text(nodes: Seq<XmlNode>) -> Seq<char>
    decreases nodes,
{
    if nodes.len() == 0 {
        Seq::empty()
    } else {
        let n = nodes.last();
        let last_text = match n {
            XmlNode::Element(e) => {
                proof {
                    assert(decreases_to!(nodes => n));
                    assert(decreases_to!(n => e));
                    assert(decreases_to!(e => e.children));
                    assert(decreases_to!(e.children => e.children@));
                }
                nodes_text(e.children@)
            },
            XmlNode::Characters(t) => t@,
            XmlNode::CData(t) => t@,
            _ => Seq::empty(),
        };
        nodes_text(nodes.drop_last()) + last_text
    }
}

/// The character data inside an element.
pub open spec fn element_text(e: XmlElement) -> Seq<char> {
    nodes_text(e.children@)
}

} // verus!

verus! {

/// The number of `]` in a row just before position `i` of `s`.
pub open spec fn bracket_run(s: Seq<char>, i: int) -> nat
    decreases i,
{
    if i <= 0 || i > s.len() || s[i - 1] != ']' {
        0
    } else {
        1 + bracket_run(s, i - 1)
    }
}

/// `s` never has 256 or more `]` in a row.  RustyXML counts the `]` of a
/// run inside CDATA in a byte-sized counter, which a longer run overflows.
pub open spec fn bracket_runs_short(s: Seq<char>) -> bool {
    forall|i: int| 0 <= i <= s.len() ==> #[trigger] bracket_run(s, i) < 256
}

/// Whether `body` never has 256 or more `]` in a row (see
/// `bracket_runs_short`).
pub fn check_bracket_runs(body: &str) -> (r: bool)
    ensures
        r == bracket_runs_short(body@),
{
    let cs = chars_of(body);
    let n = cs.len();
    let mut run: usize = 0;
    let mut i: usize = 0;
    while i < n
        invariant
            n == cs@.len(),
            cs@ == body@,
            i <= n,
            run == bracket_run(cs@, i as int),
            forall|j: int| 0 <= j <= i ==> #[trigger] bracket_run(cs@, j) < 256,
        decreases n - i,
    {
        if cs[i] == ']' {
            run = run + 1;
            assert(bracket_run(cs@, i + 1) == run);
            if run >= 256 {
                return false;
            }
        } else {
            run = 0;
            assert(bracket_run(cs@, i + 1) == 0);
        }
        i = i + 1;
    }
    true
}

/// An element as RustyXML builds it.
#[verifier::external_type_specification]
#[verifier::external_body]
pub struct ExRustyElement(xml::Element);

/// The element tree that RustyXML's parser (`FromStr` for `xml::Element`)
/// builds from a text, in the library's form; `None` when the parser
/// reports an error.
pub uninterp spec fn parsed_xml(body: Seq<char>) -> Option<XmlElement>;

/// Parses a request body with RustyXML (`str::parse::<xml::Element>`,
/// which feeds the text to its parser and builds the first element) and
/// converts the element node by node.  Claimed: the result is
/// `parsed_xml` of the body's text; nothing more is said of the parser.
/// A run of 256 or more `]` would overflow the parser's counter, so it is
/// ruled out.
#[verifier::external_body]
pub fn parse_xml(body: &str) -> (r: Option<XmlElement>)
    requires
        bracket_runs_short(body@),
    ensures
        r == parsed_xml(body@),
{
    match body.parse::<xml::Element>() {
        Ok(e) => Some(element_tree(&e)),
        Err(_) => None,
    }
}

/// The library's form of a RustyXML element: its name, namespace and child
/// nodes, one for one, each node kept as the same kind of node.
#[verifier::external_body]
fn element_tree(e: &xml::Element) -> XmlElement {
    let children = e.children.iter().map(|c| match c {
        xml::Xml::ElementNode(el) => XmlNode::Element(element_tree(el)),
        xml::Xml::CharacterNode(t) => XmlNode::Characters(t.clone()),
        xml::Xml::CDATANode(t) => XmlNode::CData(t.clone()),
        xml::Xml::CommentNode(t) => XmlNode::Comment(t.clone()),
        xml::Xml::PINode(t) => XmlNode::Pi(t.clone()),
    }).collect();
    XmlElement { name: e.name.clone(), ns: e.ns.clone(), children }
}

} // verus!


verus! {

/// Appends the character data of `nodes` to `out`.
fn push_nodes_text(nodes: &Vec<XmlNode>, out: &mut Vec<char>)
    ensures
        final(out)@ == old(out)@ + nodes_text(nodes@),
    decreases nodes@,
{
    let n = nodes.len();
    let mut i: usize = 0;
    assert(nodes@.take(0) =~= Seq::<XmlNode>::empty());
    while i < n
        invariant
            n == nodes@.len(),
            i <= n,
            out@ == old(out)@ + nodes_text(nodes@.take(i as int)),
        decreases n - i,
    {
        let ghost pre = nodes@.take(i as int);
        let ghost next = nodes@.take(i + 1);
        assert(next.drop_last() == pre);
        assert(next.last() == nodes@[i as int]);
        match &nodes[i] {
            XmlNode::Element(e) => {
                proof {
                    assert(decreases_to!(nodes@ => nodes@[i as int]));
                }
                push_nodes_text(&e.children, out);
            },
            XmlNode::Characters(t) => {
                let cs = chars_of(t.as_str());
                extend_chars(out, cs.as_slice());
            },
            XmlNode::CData(t) => {
                let cs = chars_of(t.as_str());
                extend_chars(out, cs.as_slice());
            },
            _ => {},
        }
        assert(out@ =~= old(out)@ + nodes_text(next));
        i = i + 1;
    }
    assert(nodes@.take(n as int) == nodes@);
}

/// The view of an optional string.
pub open spec fn opt_text(o: Option<String>) -> Option<Seq<char>> {
    match o {
        Some(s) => Some(s@),
        None => None,
    }
}

/// The position of the first child element named `name` in namespace `ns`.
pub open spec fn child_index(nodes: Seq<XmlNode>, name: Seq<char>, ns: Option<Seq<char>>) -> Option<
    int,
>
    decreases nodes.len(),
{
    if nodes.len() == 0 {
        None
    } else {
        match child_index(nodes.drop_last(), name, ns) {
            Some(i) => Some(i),
            None => match nodes.last() {
                XmlNode::Element(e) => if e.name@ == name && opt_text(e.ns) == ns {
                    Some(nodes.len() - 1)
                } else {
                    None
                },
                _ => None,
            },
        }
    }
}

proof fn lemma_child_index_bound(nodes: Seq<XmlNode>, name: Seq<char>, ns: Option<Seq<char>>)
    ensures
        child_index(nodes, name, ns) matches Some(i) ==> 0 <= i < nodes.len()
            && nodes[i] is Element,
    decreases nodes.len(),
{
    if nodes.len() > 0 {
        lemma_child_index_bound(nodes.drop_last(), name, ns);
    }
}

fn opt_eq(a: &Option<String>, b: &Option<String>) -> (r: bool)
    ensures
        r == (opt_text(*a) == opt_text(*b)),
{
    match (a, b) {
        (Some(x), Some(y)) => *x == *y,
        (None, None) => true,
        _ => false,
    }
}

impl XmlElement {
    /// The character data inside the element, in document order.
    pub fn content_str(&self) -> (r: String)
        ensures
            r@ == element_text(*self),
    {
        let mut out: Vec<char> = Vec::new();
        push_nodes_text(&self.children, &mut out);
        assert(out@ =~= element_text(*self));
        string_of(out.as_slice())
    }

    /// The first child element named `name` in namespace `ns`.
    pub fn get_child(&self, name: &String, ns: &Option<String>) -> (r: Option<&XmlElement>)
        ensures
            match child_index(self.children@, name@, opt_text(*ns)) {
                Some(i) => r matches Some(e) && self.children@[i] == XmlNode::Element(*e),
                None => r is None,
            },
    {
        let n = self.children.len();
        let mut i: usize = 0;
        assert(self.children@.take(0) =~= Seq::<XmlNode>::empty());
        while i < n
            invariant
                n == self.children@.len(),
                i <= n,
                child_index(self.children@.take(i as int), name@, opt_text(*ns)) is None,
            decreases n - i,
        {
            let ghost next = self.children@.take(i + 1);
            assert(next.drop_last() == self.children@.take(i as int));
            assert(next.last() == self.children@[i as int]);
            match &self.children[i] {
                XmlNode::Element(e) => {
                    if e.name == *name && opt_eq(&e.ns, ns) {
                        proof {
                            lemma_prefix_child_index(self.children@, i + 1, name@, opt_text(*ns));
                        }
                        return Some(e);
                    }
                },
                _ => {},
            }
            i = i + 1;
        }
        assert(self.children@.take(n as int) == self.children@);
        None
    }
}

proof fn lemma_prefix_child_index(
    nodes: Seq<XmlNode>,
    k: int,
    name: Seq<char>,
    ns: Option<Seq<char>>,
)
    requires
        0 <= k <= nodes.len(),
        child_index(nodes.take(k), name, ns) is Some,
    ensures
        child_index(nodes, name, ns) == child_index(nodes.take(k), name, ns),
    decreases nodes.len() - k,
{
    if k < nodes.len() {
        let next = nodes.take(k + 1);
        assert(next.drop_last() == nodes.take(k));
        lemma_prefix_child_index(nodes, k + 1, name, ns);
    } else {
        assert(nodes.take(k) == nodes);
    }
}

} // verus!

verus! {

/// Why a SOAP request does not give a `Browse` action.
#[derive(Debug, Clone, Copy, PartialEq, Eq, Structural)]
pub enum SoapError {
    /// The envelope has no SOAP `Body` element.
    NoBody,
    /// The body's first child is missing or is not an element.
    NoAction,
    /// `ObjectID` is not an integer.
    BadObjectId,
    /// `StartingIndex` is not an integer.
    BadStartingIndex,
    /// `RequestedCount` is not an integer.
    BadRequestedCount,
}

/// A `Browse` action as plain values: its name and its arguments.
pub struct BrowseView {
    pub name: Seq<char>,
    pub object_id: int,
    pub browse_flag: Seq<char>,
    pub filter: Seq<char>,
    pub starting_index: int,
    pub requested_count: int,
    pub sort_criteria: Seq<char>,
}

/// The action before any argument is read: named `Browse`, with zero
/// numbers and empty texts.
pub open spec fn browse_defaults() -> BrowseView {
    BrowseView {
        name: "Browse"@,
        object_id: 0,
        browse_flag: Seq::empty(),
        filter: Seq::empty(),
        starting_index: 0,
        requested_count: 0,
        sort_criteria: Seq::empty(),
    }
}

/// The arguments after reading one more child node of the action element:
/// an element named after an argument sets it to its text (numbers parsed
/// as integers); any other node leaves them unchanged.
pub open spec fn apply_argument(acc: BrowseView, n: XmlNode) -> Result<BrowseView, SoapError> {
    match n {
        XmlNode::Element(e) => {
            let t = element_text(e);
            if e.name@ == "ObjectID"@ {
                match parse_i64_spec(t) {
                    Some(v) => Ok(BrowseView { object_id: v as int, ..acc }),
                    None => Err(SoapError::BadObjectId),
                }
            } else if e.name@ == "BrowseFlag"@ {
                Ok(BrowseView { browse_flag: t, ..acc })
            } else if e.name@ == "Filter"@ {
                Ok(BrowseView { filter: t, ..acc })
            } else if e.name@ == "StartingIndex"@ {
                match parse_i64_spec(t) {
                    Some(v) => Ok(BrowseView { starting_index: v as int, ..acc }),
                    None => Err(SoapError::BadStartingIndex),
                }
            } else if e.name@ == "RequestedCount"@ {
                match parse_i64_spec(t) {
                    Some(v) => Ok(BrowseView { requested_count: v as int, ..acc }),
                    None => Err(SoapError::BadRequestedCount),
                }
            } else if e.name@ == "SortCriteria"@ {
                Ok(BrowseView { sort_criteria: t, ..acc })
            } else {
                Ok(acc)
            }
        },
        _ => Ok(acc),
    }
}

/// The arguments read from the child nodes of an action element, in order.
pub open spec fn browse_arguments(nodes: Seq<XmlNode>) -> Result<BrowseView, SoapError>
    decreases nodes.len(),
{
    if nodes.len() == 0 {
        Ok(browse_defaults())
    } else {
        match browse_arguments(nodes.drop_last()) {
            Err(e) => Err(e),
            Ok(acc) => apply_argument(acc, nodes.last()),
        }
    }
}

/// The namespace of SOAP envelopes.
pub open spec fn soap_ns() -> Seq<char> {
    "http://schemas.xmlsoap.org/soap/envelope/"@
}

/// The `Browse` action of a SOAP envelope: the arguments read from the
/// first child of the envelope's `Body`.
pub open spec fn browse_spec(soap: XmlElement) -> Result<BrowseView, SoapError> {
    match child_index(soap.children@, "Body"@, Some(soap_ns())) {
        None => Err(SoapError::NoBody),
        Some(i) => match soap.children@[i] {
            XmlNode::Element(body) => if body.children@.len() == 0 {
                Err(SoapError::NoAction)
            } else {
                match body.children@[0] {
                    XmlNode::Element(a) => browse_arguments(a.children@),
                    _ => Err(SoapError::NoAction),
                }
            },
            _ => Err(SoapError::NoBody),
        },
    }
}

/// A ContentDirectory `Browse` action.
pub struct BrowseAction {
    pub name: String,
    pub object_id: i64,
    pub browse_flag: String,
    pub filter: String,
    pub starting_index: i64,
    pub requested_count: i64,
    pub sort_criteria: String,
}

impl BrowseAction {
    /// The action as plain values.
    pub open spec fn view(&self) -> BrowseView {
        BrowseView {
            name: self.name@,
            object_id: self.object_id as int,
            browse_flag: self.browse_flag@,
            filter: self.filter@,
            starting_index: self.starting_index as int,
            requested_count: self.requested_count as int,
            sort_criteria: self.sort_criteria@,
        }
    }

    /// The `Browse` action of a SOAP envelope: the arguments are the child
    /// elements of the first child of the SOAP `Body`; a later argument
    /// overrides an earlier one, unknown ones are ignored.  Refused when
    /// there is no body, its first child is not an element, or a numeric
    /// argument is not an integer.
    pub fn new(soap: &XmlElement) -> (r: Result<BrowseAction, SoapError>)
        ensures
            match r {
                Ok(a) => browse_spec(*soap) == Ok::<BrowseView, SoapError>(a.view())
                    && a.name@ == "Browse"@,
                Err(e) => browse_spec(*soap) == Err::<BrowseView, SoapError>(e),
            },
    {
        let body_name = String::from_str("Body");
        let ns = Some(String::from_str("http://schemas.xmlsoap.org/soap/envelope/"));
        let body = match soap.get_child(&body_name, &ns) {
            Some(b) => b,
            None => return Err(SoapError::NoBody),
        };
        if body.children.len() == 0 {
            return Err(SoapError::NoAction);
        }
        let action = match &body.children[0] {
            XmlNode::Element(a) => a,
            _ => return Err(SoapError::NoAction),
        };
        let object_id_name = String::from_str("ObjectID");
        let browse_flag_name = String::from_str("BrowseFlag");
        let filter_name = String::from_str("Filter");
        let starting_index_name = String::from_str("StartingIndex");
        let requested_count_name = String::from_str("RequestedCount");
        let sort_criteria_name = String::from_str("SortCriteria");
        let mut out = BrowseAction {
            name: String::from_str("Browse"),
            object_id: 0,
            browse_flag: String::new(),
            filter: String::new(),
            starting_index: 0,
            requested_count: 0,
            sort_criteria: String::new(),
        };
        let n = action.children.len();
        let mut i: usize = 0;
        assert(action.children@.take(0) =~= Seq::<XmlNode>::empty());
        assert(browse_spec(*soap) == browse_arguments(action.children@));
        while i < n
            invariant
                browse_spec(*soap) == browse_arguments(action.children@),
                n == action.children@.len(),
                i <= n,
                object_id_name@ == "ObjectID"@,
                browse_flag_name@ == "BrowseFlag"@,
                filter_name@ == "Filter"@,
                starting_index_name@ == "StartingIndex"@,
                requested_count_name@ == "RequestedCount"@,
                sort_criteria_name@ == "SortCriteria"@,
                out.name@ == "Browse"@,
                browse_arguments(action.children@.take(i as int)) == Ok::<BrowseView, SoapError>(
                    out.view(),
                ),
            decreases n - i,
        {
            let ghost next = action.children@.take(i + 1);
            assert(next.drop_last() == action.children@.take(i as int));
            assert(next.last() == action.children@[i as int]);
            match &action.children[i] {
                XmlNode::Element(e) => {
                    if e.name == object_id_name {
                        let t = chars_of(e.content_str().as_str());
                        match parse_i64(t.as_slice()) {
                            Some(v) => {
                                out.object_id = v;
                            },
                            None => {
                                proof {
                                    lemma_arguments_err_extends(action.children@, i + 1);
                                    assert(action.children@.take(n as int) == action.children@);
                                }
                                return Err(SoapError::BadObjectId);
                            },
                        }
                    } else if e.name == browse_flag_name {
                        out.browse_flag = e.content_str();
                    } else if e.name == filter_name {
                        out.filter = e.content_str();
                    } else if e.name == starting_index_name {
                        let t = chars_of(e.content_str().as_str());
                        match parse_i64(t.as_slice()) {
                            Some(v) => {
                                out.starting_index = v;
                            },
                            None => {
                                proof {
                                    lemma_arguments_err_extends(action.children@, i + 1);
                                    assert(action.children@.take(n as int) == action.children@);
                                }
                                return Err(SoapError::BadStartingIndex);
                            },
                        }
                    } else if e.name == requested_count_name {
                        let t = chars_of(e.content_str().as_str());
                        match parse_i64(t.as_slice()) {
                            Some(v) => {
                                out.requested_count = v;
                            },
                            None => {
                                proof {
                                    lemma_arguments_err_extends(action.children@, i + 1);
                                    assert(action.children@.take(n as int) == action.children@);
                                }
                                return Err(SoapError::BadRequestedCount);
                            },
                        }
                    } else if e.name == sort_criteria_name {
                        out.sort_criteria = e.content_str();
                    }
                },
                _ => {},
            }
            i = i + 1;
        }
        assert(action.children@.take(n as int) == action.children@);
        Ok(out)
    }
}

proof fn lemma_arguments_err_extends(nodes: Seq<XmlNode>, k: int)
    requires
        0 <= k <= nodes.len(),
        browse_arguments(nodes.take(k)) is Err,
    ensures
        browse_arguments(nodes) == browse_arguments(nodes.take(k)),
    decreases nodes.len() - k,
{
    if k < nodes.len() {
        let next = nodes.take(k + 1);
        assert(next.drop_last() == nodes.take(k));
        lemma_arguments_err_extends(nodes, k + 1);
    } else {
        assert(nodes.take(k) == nodes);
    }
}

} // verus!

verus! {

/// The debug text of a `Browse` action.
pub open spec fn browse_text(name: Seq<char>, a: BrowseView) -> Seq<char> {
    "name: "@ + name + "\n"@ + "object_id: "@ + crate::text::int_text(a.object_id) + "\n"@
        + "browse_flag: "@ + a.browse_flag + "\n"@ + "filter: "@ + a.filter + "\n"@
        + "starting_index: "@ + crate::text::int_text(a.starting_index) + "\n"@
        + "requested_count: "@ + crate::text::int_text(a.requested_count) + "\n"@
        + "sort_criteria: "@ + a.sort_criteria + "\n"@
}

impl BrowseAction {
    /// A readable dump of the action's arguments, one per line.
    pub fn to_str(&self) -> (r: String)
        ensures
            r@ == browse_text(self.name@, self.view()),
    {
        let mut out: Vec<char> = Vec::new();
        crate::text::extend_str(&mut out, "name: ");
        crate::text::extend_str(&mut out, self.name.as_str());
        crate::text::extend_str(&mut out, "\n");
        crate::text::extend_str(&mut out, "object_id: ");
        crate::text::push_int(&mut out, self.object_id);
        crate::text::extend_str(&mut out, "\n");
        crate::text::extend_str(&mut out, "browse_flag: ");
        crate::text::extend_str(&mut out, self.browse_flag.as_str());
        crate::text::extend_str(&mut out, "\n");
        crate::text::extend_str(&mut out, "filter: ");
        crate::text::extend_str(&mut out, self.filter.as_str());
        crate::text::extend_str(&mut out, "\n");
        crate::text::extend_str(&mut out, "starting_index: ");
        crate::text::push_int(&mut out, self.starting_index);
        crate::text::extend_str(&mut out, "\n");
        crate::text::extend_str(&mut out, "requested_count: ");
        crate::text::push_int(&mut out, self.requested_count);
        crate::text::extend_str(&mut out, "\n");
        crate::text::extend_str(&mut out, "sort_criteria: ");
        crate::text::extend_str(&mut out, self.sort_criteria.as_str());
        crate::text::extend_str(&mut out, "\n");
        assert(out@ =~= browse_text(self.name@, self.view()));
        string_of(out.as_slice())
    }
}

} // verus!

verus! {

/// The last child element of `nodes` named `name`, if any.
pub open spec fn last_named(nodes: Seq<XmlNode>, name: Seq<char>) -> Option<XmlElement>
    decreases nodes.len(),
{
    if nodes.len() == 0 {
        None
    } else {
        match nodes.last() {
            XmlNode::Element(e) => if e.name@ == name {
                Some(e)
            } else {
                last_named(nodes.drop_last(), name)
            },
            _ => last_named(nodes.drop_last(), name),
        }
    }
}

/// The text of the last child element of `nodes` named `name`; empty when
/// there is none.
pub open spec fn text_argument(nodes: Seq<XmlNode>, name: Seq<char>) -> Seq<char> {
    match last_named(nodes, name) {
        Some(e) => element_text(e),
        None => Seq::empty(),
    }
}

/// The integer in the last child element of `nodes` named `name` is `v`;
/// `v` is 0 when there is no such element.
pub open spec fn number_argument(nodes: Seq<XmlNode>, name: Seq<char>, v: int) -> bool {
    match last_named(nodes, name) {
        Some(e) => parse_i64_spec(element_text(e)) matches Some(x) && x as int == v,
        None => v == 0,
    }
}

/// Every argument of a `Browse` action is read from the action's last
/// child element of that name: the texts as they stand, the numbers as the
/// integers they hold, and 0 or empty text for an argument that is absent.
pub proof fn lemma_browse_arguments_named(nodes: Seq<XmlNode>)
    requires
        browse_arguments(nodes) is Ok,
    ensures
        browse_arguments(nodes)->Ok_0.name == "Browse"@,
        number_argument(nodes, "ObjectID"@, browse_arguments(nodes)->Ok_0.object_id),
        browse_arguments(nodes)->Ok_0.browse_flag == text_argument(nodes, "BrowseFlag"@),
        browse_arguments(nodes)->Ok_0.filter == text_argument(nodes, "Filter"@),
        number_argument(nodes, "StartingIndex"@, browse_arguments(nodes)->Ok_0.starting_index),
        number_argument(nodes, "RequestedCount"@, browse_arguments(nodes)->Ok_0.requested_count),
        browse_arguments(nodes)->Ok_0.sort_criteria == text_argument(nodes, "SortCriteria"@),
    decreases nodes.len(),
{
    reveal_strlit("ObjectID");
    reveal_strlit("BrowseFlag");
    reveal_strlit("Filter");
    reveal_strlit("StartingIndex");
    reveal_strlit("RequestedCount");
    reveal_strlit("SortCriteria");
    let names = seq![
        "ObjectID"@,
        "BrowseFlag"@,
        "Filter"@,
        "StartingIndex"@,
        "RequestedCount"@,
        "SortCriteria"@,
    ];
    assert(names[0].len() == 8 && names[1].len() == 10 && names[2].len() == 6);
    assert(names[3].len() == 13 && names[4].len() == 14 && names[5].len() == 12);
    if nodes.len() > 0 {
        let q = nodes.drop_last();
        lemma_browse_arguments_named(q);
        match nodes.last() {
            XmlNode::Element(e) => {
                if e.name@ == "BrowseFlag"@ {
                    assert(last_named(nodes, "BrowseFlag"@) == Some(e));
                } else {
                    assert(last_named(nodes, "BrowseFlag"@) == last_named(q, "BrowseFlag"@));
                }
                if e.name@ == "Filter"@ {
                    assert(last_named(nodes, "Filter"@) == Some(e));
                } else {
                    assert(last_named(nodes, "Filter"@) == last_named(q, "Filter"@));
                }
            },
            _ => {},
        }
    }
}

} // verus!
