//! The markup tree and the recursive-descent parser that builds it.
use vstd::prelude::*;
use crate::lexer::{
    tokens_of, unexpected_expected_message, unexpected_message, view_tokens, EToken, ETokenV,
    Lexer, Token, TokenV,
};
use crate::text::append_string;

verus! {

/// A node of the markup tree.
#[derive(Debug)]
pub enum Node {
    Element(HtmlElement),
    Text(String),
}

/// An element: its tag, its attributes in order and its children in
/// order. The parser gives every element unique attribute names (see
/// `well_formed`).
#[derive(Debug)]
pub struct HtmlElement {
    pub tag: String,
    pub attributes: Vec<(String, String)>,
    pub children: Vec<Node>,
}

/// An ordered mapping from attribute names to values.
pub type AttrsV = Seq<(Seq<char>, Seq<char>)>;

/// Mathematical form of a node.
pub enum NodeV {
    Element(ElemV),
    Text(Seq<char>),
}

/// Mathematical form of an element.
pub struct ElemV {
    pub tag: Seq<char>,
    pub attributes: AttrsV,
    pub children: Seq<NodeV>,
}

/// Mathematical form of an attribute list.
pub open spec fn attrs_view(a: Seq<(String, String)>) -> AttrsV {
    a.map_values(|p: (String, String)| (p.0@, p.1@))
}

impl View for Node {
    type V = NodeV;

    open spec fn view(&self) -> NodeV
        decreases self,
    {
        match self {
            Node::Element(e) => NodeV::Element(
                ElemV {
                    tag: e.tag@,
                    attributes: attrs_view(e.attributes@),
                    children: nodes_view(e.children@),
                },
            ),
            Node::Text(t) => NodeV::Text(t@),
        }
    }
}

/// Mathematical form of an element.
pub open spec fn elem_view(e: &HtmlElement) -> ElemV {
    ElemV { tag: e.tag@, attributes: attrs_view(e.attributes@), children: nodes_view(e.children@) }
}

/// Mathematical form of a node sequence.
pub open spec fn nodes_view(s: Seq<Node>) -> Seq<NodeV>
    decreases s,
{
    if s.len() == 0 {
        Seq::empty()
    } else {
        nodes_view(s.drop_last()).push(s.last().view())
    }
}

pub proof fn lemma_nodes_view(s: Seq<Node>)
    ensures
        nodes_view(s).len() == s.len(),
        forall|i: int| 0 <= i < s.len() ==> #[trigger] nodes_view(s)[i] == s[i]@,
    decreases s.len(),
{
    if s.len() > 0 {
        lemma_nodes_view(s.drop_last());
        assert(nodes_view(s) == nodes_view(s.drop_last()).push(s.last()@));
    }
}

/// Index of the first attribute at or after `i` named `k`.
pub open spec fn attr_index(a: AttrsV, k: Seq<char>, i: nat) -> Option<nat>
    decreases a.len() - i,
{
    if i >= a.len() {
        None
    } else if a[i as int].0 == k {
        Some(i)
    } else {
        attr_index(a, k, i + 1)
    }
}

/// The value of attribute `k`, if present.
pub open spec fn attr_get(a: AttrsV, k: Seq<char>) -> Option<Seq<char>> {
    match attr_index(a, k, 0) {
        Some(j) => Some(a[j as int].1),
        None => None,
    }
}

/// `a` with attribute `k` set to `v`: an existing entry keeps its place.
pub open spec fn attr_set(a: AttrsV, k: Seq<char>, v: Seq<char>) -> AttrsV {
    match attr_index(a, k, 0) {
        Some(j) => a.update(j as int, (k, v)),
        None => a.push((k, v)),
    }
}

/// `a` without attribute `k`.
pub open spec fn attr_remove(a: AttrsV, k: Seq<char>) -> AttrsV {
    match attr_index(a, k, 0) {
        Some(j) => a.remove(j as int),
        None => a,
    }
}

pub proof fn lemma_attr_index_bounds(a: AttrsV, k: Seq<char>, i: nat)
    ensures
        attr_index(a, k, i) matches Some(j) ==> i <= j < a.len() && a[j as int].0 == k,
    decreases a.len() - i,
{
    if i < a.len() && a[i as int].0 != k {
        lemma_attr_index_bounds(a, k, i + 1);
    }
}

proof fn lemma_attr_index_after_removed(a: AttrsV, j: nat, k: Seq<char>, i: nat)
    requires
        j < a.len(),
        j <= i,
    ensures
        attr_index(a.remove(j as int), k, i) == match attr_index(a, k, i + 1) {
            Some(x) => Some((x - 1) as nat),
            None => None,
        },
    decreases a.len() - i,
{
    let b = a.remove(j as int);
    if i < b.len() {
        assert(b[i as int] == a[i + 1int]);
        if b[i as int].0 != k {
            lemma_attr_index_after_removed(a, j, k, i + 1);
        }
    }
}

proof fn lemma_attr_index_removed(a: AttrsV, j: nat, k: Seq<char>, i: nat)
    requires
        j < a.len(),
        a[j as int].0 != k,
        i <= j,
    ensures
        attr_index(a.remove(j as int), k, i) == match attr_index(a, k, i) {
            Some(x) => Some(
                if x < j {
                    x
                } else {
                    (x - 1) as nat
                },
            ),
            None => None,
        },
    decreases j - i,
{
    let b = a.remove(j as int);
    lemma_attr_index_bounds(a, k, i + 1);
    if i == j {
        lemma_attr_index_after_removed(a, j, k, j);
    } else {
        assert(b[i as int] == a[i as int]);
        if a[i as int].0 != k {
            lemma_attr_index_removed(a, j, k, i + 1);
        }
    }
}

/// Removing one attribute leaves the value of every other attribute as it was.
pub proof fn lemma_attr_get_after_remove(a: AttrsV, k1: Seq<char>, k2: Seq<char>)
    requires
        k1 != k2,
    ensures
        attr_get(attr_remove(a, k1), k2) == attr_get(a, k2),
{
    lemma_attr_index_bounds(a, k1, 0);
    lemma_attr_index_bounds(a, k2, 0);
    if let Some(j) = attr_index(a, k1, 0) {
        lemma_attr_index_removed(a, j, k2, 0);
        if let Some(x) = attr_index(a, k2, 0) {
            if x < j {
                assert(a.remove(j as int)[x as int] == a[x as int]);
            } else {
                assert(a.remove(j as int)[x - 1int] == a[x as int]);
            }
        }
    }
}

/// Position of attribute `key` in `attrs`.
pub fn find_attr(attrs: &Vec<(String, String)>, key: &String) -> (r: Option<usize>)
    ensures
        r matches Some(j) ==> attr_index(attrs_view(attrs@), key@, 0) == Some(j as nat),
        r is None ==> attr_index(attrs_view(attrs@), key@, 0) is None,
{
    let ghost a = attrs_view(attrs@);
    let mut i: usize = 0;
    while i < attrs.len()
        invariant
            i <= attrs@.len(),
            a == attrs_view(attrs@),
            attr_index(a, key@, 0) == attr_index(a, key@, i as nat),
        decreases attrs@.len() - i,
    {
        if attrs[i].0 == *key {
            return Some(i);
        }
        i += 1;
    }
    None
}

/// Sets attribute `key` to `value`; an existing entry keeps its place.
pub fn set_attr(attrs: &mut Vec<(String, String)>, key: String, value: String)
    ensures
        attrs_view(final(attrs)@) == attr_set(attrs_view(old(attrs)@), key@, value@),
{
    let ghost a = attrs_view(attrs@);
    proof {
        lemma_attr_index_bounds(a, key@, 0);
    }
    match find_attr(attrs, &key) {
        Some(j) => {
            attrs.set(j, (key, value));
            assert(attrs_view(attrs@) =~= a.update(j as int, (key@, value@)));
        },
        None => {
            attrs.push((key, value));
            assert(attrs_view(attrs@) =~= a.push((key@, value@)));
        },
    }
}

/// Removes attribute `key` and returns its value, if it was present.
pub fn remove_attr(attrs: &mut Vec<(String, String)>, key: &String) -> (r: Option<String>)
    ensures
        attrs_view(final(attrs)@) == attr_remove(attrs_view(old(attrs)@), key@),
        match attr_get(attrs_view(old(attrs)@), key@) {
            Some(v) => r is Some && r->Some_0@ == v,
            None => r is None,
        },
{
    let ghost a = attrs_view(attrs@);
    proof {
        lemma_attr_index_bounds(a, key@, 0);
    }
    match find_attr(attrs, key) {
        Some(j) => {
            assert(attr_index(a, key@, 0) == Some(j as nat));
            let entry = attrs.remove(j);
            assert(entry.1@ == a[j as int].1);
            assert(attrs_view(attrs@) =~= a.remove(j as int));
            Some(entry.1)
        },
        None => {
            assert(attrs_view(attrs@) == a);
            None
        },
    }
}

/// A copy of an attribute list.
pub fn copy_attrs(a: &Vec<(String, String)>) -> (r: Vec<(String, String)>)
    ensures
        attrs_view(r@) == attrs_view(a@),
{
    let mut attributes: Vec<(String, String)> = Vec::new();
    let mut i: usize = 0;
    while i < a.len()
        invariant
            i <= a@.len(),
            attrs_view(attributes@) == attrs_view(a@).take(i as int),
        decreases a@.len() - i,
    {
        let ghost before = attributes@;
        attributes.push((a[i].0.clone(), a[i].1.clone()));
        assert(attrs_view(attributes@) =~= attrs_view(before).push(attrs_view(a@)[i as int]));
        assert(attrs_view(a@).take(i + 1) =~= attrs_view(a@).take(i as int).push(
            attrs_view(a@)[i as int],
        ));
        i += 1;
    }
    assert(attrs_view(a@).take(a@.len() as int) =~= attrs_view(a@));
    attributes
}

impl Node {
    /// A deep copy of this node.
    pub fn duplicate(&self) -> (r: Node)
        ensures
            r@ == self@,
        decreases self,
    {
        match self {
            Node::Text(t) => Node::Text(t.clone()),
            Node::Element(e) => {
                let attributes = copy_attrs(&e.attributes);
                let children = duplicate_nodes(&e.children);
                Node::Element(HtmlElement { tag: e.tag.clone(), attributes, children })
            },
        }
    }
}

/// Deep copies of the nodes of `v`, in order.
pub fn duplicate_nodes(v: &Vec<Node>) -> (r: Vec<Node>)
    ensures
        nodes_view(r@) == nodes_view(v@),
    decreases v,
{
    let mut children: Vec<Node> = Vec::new();
    let mut k: usize = 0;
    proof {
        lemma_nodes_view(v@);
    }
    while k < v.len()
        invariant
            k <= v@.len(),
            nodes_view(v@).len() == v@.len(),
            forall|j: int| 0 <= j < v@.len() ==> #[trigger] nodes_view(v@)[j] == v@[j]@,
            nodes_view(children@) == nodes_view(v@).take(k as int),
        decreases v@.len() - k,
    {
        let ghost before = children@;
        proof {
            assert(decreases_to!(v => v@));
            assert(decreases_to!(v@ => v@[k as int]));
        }
        let c = v[k].duplicate();
        children.push(c);
        assert(children@.drop_last() =~= before);
        assert(nodes_view(v@).take(k + 1) =~= nodes_view(v@).take(k as int).push(
            nodes_view(v@)[k as int],
        ));
        k += 1;
    }
    assert(nodes_view(v@).take(v@.len() as int) =~= nodes_view(v@));
    children
}

impl PartialEq for Node {
    fn eq(&self, other: &Node) -> (r: bool)
        ensures
            r == (self@ == other@),
        decreases self,
    {
        match (self, other) {
            (Node::Text(a), Node::Text(b)) => *a == *b,
            (Node::Element(a), Node::Element(b)) => a.eq(b),
            _ => false,
        }
    }
}

impl vstd::std_specs::cmp::PartialEqSpecImpl for Node {
    open spec fn obeys_eq_spec() -> bool {
        true
    }

    open spec fn eq_spec(&self, other: &Node) -> bool {
        self@ == other@
    }
}

impl PartialEq for HtmlElement {
    fn eq(&self, other: &HtmlElement) -> (r: bool)
        ensures
            r == (elem_view(self) == elem_view(other)),
        decreases self,
    {
        self.tag == other.tag && attrs_equal(&self.attributes, &other.attributes) && nodes_equal(
            &self.children,
            &other.children,
        )
    }
}

impl vstd::std_specs::cmp::PartialEqSpecImpl for HtmlElement {
    open spec fn obeys_eq_spec() -> bool {
        true
    }

    open spec fn eq_spec(&self, other: &HtmlElement) -> bool {
        elem_view(self) == elem_view(other)
    }
}

fn attrs_equal(a: &Vec<(String, String)>, b: &Vec<(String, String)>) -> (r: bool)
    ensures
        r == (attrs_view(a@) == attrs_view(b@)),
{
    if a.len() != b.len() {
        assert(attrs_view(a@).len() != attrs_view(b@).len());
        return false;
    }
    let mut i: usize = 0;
    while i < a.len()
        invariant
            i <= a@.len(),
            a@.len() == b@.len(),
            attrs_view(a@).take(i as int) == attrs_view(b@).take(i as int),
        decreases a@.len() - i,
    {
        if !(a[i].0 == b[i].0 && a[i].1 == b[i].1) {
            assert(attrs_view(a@)[i as int] != attrs_view(b@)[i as int]);
            return false;
        }
        assert(attrs_view(a@).take(i + 1) =~= attrs_view(b@).take(i + 1));
        i += 1;
    }
    assert(attrs_view(a@).take(i as int) =~= attrs_view(a@));
    assert(attrs_view(b@).take(i as int) =~= attrs_view(b@));
    true
}

fn nodes_equal(a: &Vec<Node>, b: &Vec<Node>) -> (r: bool)
    ensures
        r == (nodes_view(a@) == nodes_view(b@)),
    decreases a,
{
    proof {
        lemma_nodes_view(a@);
        lemma_nodes_view(b@);
    }
    if a.len() != b.len() {
        assert(nodes_view(a@).len() != nodes_view(b@).len());
        return false;
    }
    let mut i: usize = 0;
    while i < a.len()
        invariant
            i <= a@.len(),
            a@.len() == b@.len(),
            nodes_view(a@).len() == a@.len(),
            nodes_view(b@).len() == b@.len(),
            forall|j: int| 0 <= j < a@.len() ==> #[trigger] nodes_view(a@)[j] == a@[j]@,
            forall|j: int| 0 <= j < b@.len() ==> #[trigger] nodes_view(b@)[j] == b@[j]@,
            nodes_view(a@).take(i as int) == nodes_view(b@).take(i as int),
        decreases a@.len() - i,
    {
        proof {
            assert(decreases_to!(a => a@));
            assert(decreases_to!(a@ => a@[i as int]));
        }
        if !a[i].eq(&b[i]) {
            assert(nodes_view(a@)[i as int] != nodes_view(b@)[i as int]);
            return false;
        }
        assert(nodes_view(a@).take(i + 1) =~= nodes_view(b@).take(i + 1));
        i += 1;
    }
    assert(nodes_view(a@).take(i as int) =~= nodes_view(a@));
    assert(nodes_view(b@).take(i as int) =~= nodes_view(b@));
    true
}

/// A structural error in the token sequence.
#[derive(Debug)]
pub enum ParseError {
    /// A token that the grammar does not allow where it stands.
    UnexpectedToken(Token),
    /// A token found where another one was expected.
    ExpectedToken(Token, EToken),
    /// The tokens ran out where more were needed.
    UnexpectedEnd,
    /// An attribute name and `=` not followed by a quoted value.
    MissingAttributeValue,
    /// The tokens ran out before the element with this tag was closed.
    UnclosedTag(String),
}

pub enum ParseErrorV {
    Unexpected(TokenV),
    Expected(TokenV, ETokenV),
    UnexpectedEnd,
    MissingAttributeValue,
    Unclosed(Seq<char>),
}

impl View for ParseError {
    type V = ParseErrorV;

    open spec fn view(&self) -> ParseErrorV {
        match self {
            ParseError::UnexpectedToken(t) => ParseErrorV::Unexpected(t@),
            ParseError::ExpectedToken(t, k) => ParseErrorV::Expected(t@, k@),
            ParseError::UnexpectedEnd => ParseErrorV::UnexpectedEnd,
            ParseError::MissingAttributeValue => ParseErrorV::MissingAttributeValue,
            ParseError::UnclosedTag(tag) => ParseErrorV::Unclosed(tag@),
        }
    }
}

/// The diagnostic text of a parse error.
pub open spec fn error_message(e: ParseErrorV) -> Seq<char> {
    match e {
        ParseErrorV::Unexpected(t) => unexpected_message(t),
        ParseErrorV::Expected(t, k) => unexpected_expected_message(t, k),
        ParseErrorV::UnexpectedEnd => "Unexpected end of input"@,
        ParseErrorV::MissingAttributeValue => "Expected an attribute value"@,
        ParseErrorV::Unclosed(tag) => "Unclosed tag: <"@ + tag + ">"@,
    }
}

impl ParseError {
    /// The diagnostic text of this error.
    pub fn message(&self) -> (r: String)
        ensures
            r@ == error_message(self@),
    {
        match self {
            ParseError::UnexpectedToken(t) => t.format_unexpected_err(),
            ParseError::ExpectedToken(t, k) => t.format_unexpected_err_with_expected(k.duplicate()),
            ParseError::UnexpectedEnd => String::from_str("Unexpected end of input"),
            ParseError::MissingAttributeValue => String::from_str("Expected an attribute value"),
            ParseError::UnclosedTag(tag) => {
                let mut s = String::from_str("Unclosed tag: <");
                append_string(&mut s, tag);
                s.append(">");
                s
            },
        }
    }
}

/// No two attributes share a name.
pub open spec fn keys_unique(a: AttrsV) -> bool {
    forall|i: int, j: int| 0 <= i < j < a.len() ==> a[i].0 != a[j].0
}

/// Within every element of `n`, attribute names are unique.
pub open spec fn well_formed(n: NodeV) -> bool
    decreases n,
{
    match n {
        NodeV::Text(_) => true,
        NodeV::Element(e) => {
            &&& keys_unique(e.attributes)
            &&& forall|i: int| 0 <= i < e.children.len() ==> well_formed(#[trigger] e.children[i])
        },
    }
}

proof fn lemma_attr_index_none(a: AttrsV, k: Seq<char>, i: nat)
    requires
        attr_index(a, k, i) is None,
    ensures
        forall|m: int| i <= m < a.len() ==> #[trigger] a[m].0 != k,
    decreases a.len() - i,
{
    if i < a.len() {
        lemma_attr_index_none(a, k, i + 1);
    }
}

/// Setting an attribute keeps the names unique.
pub proof fn lemma_attr_set_unique(a: AttrsV, k: Seq<char>, v: Seq<char>)
    requires
        keys_unique(a),
    ensures
        keys_unique(attr_set(a, k, v)),
{
    lemma_attr_index_bounds(a, k, 0);
    let b = attr_set(a, k, v);
    match attr_index(a, k, 0) {
        Some(j) => {
            assert forall|x: int, y: int| 0 <= x < y < b.len() implies b[x].0 != b[y].0 by {
                assert(b[x].0 == a[x].0);
                assert(b[y].0 == a[y].0);
            }
        },
        None => {
            lemma_attr_index_none(a, k, 0);
            assert forall|x: int, y: int| 0 <= x < y < b.len() implies b[x].0 != b[y].0 by {
                assert(b[x] == a[x]);
                if y < a.len() {
                    assert(b[y] == a[y]);
                }
            }
        },
    }
}

/// Where parsing one piece of the grammar at `p` ends, or why it fails.
pub type Step<A> = Result<(A, nat), ParseErrorV>;

/// Consumes a token of kind `k` at `p`.
pub open spec fn expect_at(t: Seq<TokenV>, p: nat, k: ETokenV) -> Result<nat, ParseErrorV> {
    if p < t.len() {
        if t[p as int].kind == k {
            Ok(p + 1)
        } else {
            Err(ParseErrorV::Expected(t[p as int], k))
        }
    } else {
        Err(ParseErrorV::UnexpectedEnd)
    }
}

/// The end of the run of text tokens that starts at `p`.
pub open spec fn texts_end(t: Seq<TokenV>, p: nat) -> nat
    decreases t.len() - p,
{
    if p < t.len() && t[p as int].kind is Text {
        texts_end(t, p + 1)
    } else {
        p
    }
}

/// The text that a text token carries.
pub open spec fn text_of(k: ETokenV) -> Seq<char> {
    match k {
        ETokenV::Text(s) => s,
        _ => Seq::empty(),
    }
}

/// The text tokens in `[i, j)` joined by single spaces.
pub open spec fn attr_value(t: Seq<TokenV>, i: nat, j: nat) -> Seq<char>
    decreases j - i,
{
    if j <= i {
        Seq::empty()
    } else if j == i + 1 {
        text_of(t[i as int].kind)
    } else {
        attr_value(t, i, (j - 1) as nat) + seq![' '] + text_of(t[j - 1].kind)
    }
}

pub proof fn lemma_texts_end_bounds(t: Seq<TokenV>, p: nat)
    requires
        p <= t.len(),
    ensures
        p <= texts_end(t, p) <= t.len(),
    decreases t.len() - p,
{
    if p < t.len() && t[p as int].kind is Text {
        lemma_texts_end_bounds(t, p + 1);
    }
}

/// The attributes from `p` up to the `>` that ends an opening tag,
/// added to `attrs`.
pub open spec fn parse_attributes(t: Seq<TokenV>, p: nat, attrs: AttrsV) -> Step<AttrsV>
    decreases t.len() - p
    via parse_attributes_decreases
{
    if p >= t.len() {
        Ok((attrs, p))
    } else {
        match t[p as int].kind {
            ETokenV::Text(name) => match expect_at(t, p + 1, ETokenV::Equal) {
                Err(e) => Err(e),
                Ok(q) => if q < t.len() && t[q as int].kind is Apostrophe {
                    let r = texts_end(t, q + 1);
                    match expect_at(t, r, ETokenV::Apostrophe) {
                        Err(e) => Err(e),
                        Ok(r2) => parse_attributes(
                            t,
                            r2,
                            attr_set(attrs, name, attr_value(t, q + 1, r)),
                        ),
                    }
                } else {
                    Err(ParseErrorV::MissingAttributeValue)
                },
            },
            ETokenV::GreaterThan => Ok((attrs, p)),
            _ => Err(ParseErrorV::Unexpected(t[p as int])),
        }
    }
}

#[via_fn]
proof fn parse_attributes_decreases(t: Seq<TokenV>, p: nat, attrs: AttrsV) {
    if p + 3 <= t.len() {
        lemma_texts_end_bounds(t, p + 3);
    }
}

pub proof fn lemma_parse_attributes_advances(t: Seq<TokenV>, p: nat, attrs: AttrsV)
    ensures
        parse_attributes(t, p, attrs) matches Ok((a, r)) ==> p <= r,
    decreases t.len() - p,
{
    if p < t.len() && p + 2 <= t.len() {
        lemma_texts_end_bounds(t, p + 2);
        let q = p + 2;
        if t[p as int].kind is Text && t[(p + 1) as int].kind == ETokenV::Equal && q < t.len()
            && t[q as int].kind is Apostrophe {
            let r = texts_end(t, q + 1);
            lemma_texts_end_bounds(t, q + 1);
            if r < t.len() && t[r as int].kind == ETokenV::Apostrophe {
                lemma_parse_attributes_advances(
                    t,
                    r + 1,
                    attr_set(attrs, t[p as int].kind->Text_0, attr_value(t, q + 1, r)),
                );
            }
        }
    }
}

proof fn lemma_parse_attributes_unique(t: Seq<TokenV>, p: nat, attrs: AttrsV)
    requires
        keys_unique(attrs),
    ensures
        parse_attributes(t, p, attrs) matches Ok((a, _)) ==> keys_unique(a),
    decreases t.len() - p,
{
    if p < t.len() {
        if let ETokenV::Text(name) = t[p as int].kind {
            if let Ok(q) = expect_at(t, p + 1, ETokenV::Equal) {
                if q < t.len() && t[q as int].kind is Apostrophe {
                    let r = texts_end(t, q + 1);
                    lemma_texts_end_bounds(t, q + 1);
                    if let Ok(r2) = expect_at(t, r, ETokenV::Apostrophe) {
                        lemma_attr_set_unique(attrs, name, attr_value(t, q + 1, r));
                        lemma_parse_attributes_unique(
                            t,
                            r2,
                            attr_set(attrs, name, attr_value(t, q + 1, r)),
                        );
                    }
                }
            }
        }
    }
}

/// A parsed node has unique attribute names in every element.
pub proof fn lemma_node_well_formed(t: Seq<TokenV>, p: nat)
    ensures
        parse_node(t, p) matches Ok((n, _)) ==> well_formed(n),
    decreases t.len() - p, 1nat,
{
    if p < t.len() && !(t[p as int].kind is Text) {
        lemma_element_well_formed(t, p);
    }
}

/// A parsed element has unique attribute names in every element.
pub proof fn lemma_element_well_formed(t: Seq<TokenV>, p: nat)
    ensures
        parse_element(t, p) matches Ok((n, _)) ==> well_formed(n),
    decreases t.len() - p, 0nat,
{
    let q = if p < t.len() && t[p as int].kind == ETokenV::LessThan {
        p + 1
    } else {
        p
    };
    if q < t.len() {
        if let ETokenV::Text(name) = t[q as int].kind {
            lemma_parse_attributes_unique(t, q + 1, Seq::empty());
            lemma_parse_attributes_advances(t, q + 1, Seq::empty());
            if let Ok((attrs, r)) = parse_attributes(t, q + 1, Seq::empty()) {
                if let Ok(c) = expect_at(t, r, ETokenV::GreaterThan) {
                    lemma_children_well_formed(t, c, name, attrs, Seq::empty());
                }
            }
        }
    }
}

proof fn lemma_children_well_formed(
    t: Seq<TokenV>,
    p: nat,
    tag: Seq<char>,
    attrs: AttrsV,
    kids: Seq<NodeV>,
)
    requires
        keys_unique(attrs),
        forall|i: int| 0 <= i < kids.len() ==> well_formed(#[trigger] kids[i]),
    ensures
        parse_children(t, p, tag, attrs, kids) matches Ok((n, _)) ==> well_formed(n),
    decreases t.len() - p, 2nat,
{
    if p < t.len() && !(t[p as int].kind is LessThanSlash) {
        lemma_node_well_formed(t, p);
        if let Ok((n, q)) = parse_node(t, p) {
            if p < q <= t.len() {
                let more = kids.push(n);
                assert forall|i: int| 0 <= i < more.len() implies well_formed(#[trigger] more[i]) by {
                    if i < kids.len() {
                        assert(more[i] == kids[i]);
                    }
                }
                lemma_children_well_formed(t, q, tag, attrs, more);
            }
        }
    }
}

/// A node at `p`: a text token, or an element.
pub open spec fn parse_node(t: Seq<TokenV>, p: nat) -> Step<NodeV>
    decreases t.len() - p, 1nat,
{
    if p < t.len() {
        match t[p as int].kind {
            ETokenV::Text(s) => Ok((NodeV::Text(s), p + 1)),
            _ => parse_element(t, p),
        }
    } else {
        Err(ParseErrorV::UnexpectedEnd)
    }
}

/// An element at `p`: `<`, tag, attributes, `>`, children, `</`, tag, `>`.
pub open spec fn parse_element(t: Seq<TokenV>, p: nat) -> Step<NodeV>
    decreases t.len() - p, 0nat
    via parse_element_decreases
{
    let q = if p < t.len() && t[p as int].kind == ETokenV::LessThan {
        p + 1
    } else {
        p
    };
    if q >= t.len() {
        Err(ParseErrorV::UnexpectedEnd)
    } else {
        match t[q as int].kind {
            ETokenV::Text(name) => match parse_attributes(t, q + 1, Seq::empty()) {
                Err(e) => Err(e),
                Ok((attrs, r)) => match expect_at(t, r, ETokenV::GreaterThan) {
                    Err(e) => Err(e),
                    Ok(c) => parse_children(t, c, name, attrs, Seq::empty()),
                },
            },
            _ => Err(ParseErrorV::Unexpected(t[q as int])),
        }
    }
}

#[via_fn]
proof fn parse_element_decreases(t: Seq<TokenV>, p: nat) {
    let q = if p < t.len() && t[p as int].kind == ETokenV::LessThan {
        p + 1
    } else {
        p
    };
    lemma_parse_attributes_advances(t, q + 1, Seq::empty());
}

/// The children of an open element from `p` on, through its closing tag.
pub open spec fn parse_children(
    t: Seq<TokenV>,
    p: nat,
    tag: Seq<char>,
    attrs: AttrsV,
    kids: Seq<NodeV>,
) -> Step<NodeV>
    decreases t.len() - p, 2nat,
{
    if p >= t.len() {
        Err(ParseErrorV::Unclosed(tag))
    } else if t[p as int].kind is LessThanSlash {
        match expect_at(t, p + 1, ETokenV::Text(tag)) {
            Err(e) => Err(e),
            Ok(q) => match expect_at(t, q, ETokenV::GreaterThan) {
                Err(e) => Err(e),
                Ok(r) => Ok(
                    (NodeV::Element(ElemV { tag, attributes: attrs, children: kids }), r),
                ),
            },
        }
    } else {
        match parse_node(t, p) {
            Err(e) => Err(e),
            Ok((n, q)) => if p < q <= t.len() {
                parse_children(t, q, tag, attrs, kids.push(n))
            } else {
                Err(ParseErrorV::UnexpectedEnd)
            },
        }
    }
}

/// The tree of a whole template text.
pub open spec fn parse_text(s: Seq<char>) -> Result<NodeV, ParseErrorV> {
    match parse_node(tokens_of(s), 0) {
        Ok((n, _)) => Ok(n),
        Err(e) => Err(e),
    }
}

/// `r` is what `s` describes, with the cursor left at the end of the piece.
pub open spec fn step_matches(r: Result<Node, ParseError>, s: Step<NodeV>, cursor: nat) -> bool {
    match s {
        Ok((n, q)) => r is Ok && r->Ok_0@ == n && cursor == q,
        Err(e) => r is Err && r->Err_0@ == e,
    }
}

/// A recursive-descent parser over the tokens of one template.
#[derive(Debug)]
pub struct Parser {
    pub tokens: Vec<Token>,
    pub cursor: usize,
}

impl Parser {
    /// Index of the next token to consume.
    pub open spec fn cursor_at(&self) -> nat {
        self.cursor as nat
    }

    pub open spec fn wf(&self) -> bool {
        self.cursor_at() <= self.tokens@.len()
    }

    pub open spec fn tokens_v(&self) -> Seq<TokenV> {
        view_tokens(self.tokens@)
    }

    /// A parser over the tokens of `template`, at the first token.
    pub fn new(template: String) -> (r: Self)
        requires
            template@.len() < usize::MAX,
        ensures
            r.wf(),
            r.tokens_v() == tokens_of(template@),
            r.cursor_at() == 0,
    {
        let mut lexer = Lexer::new(template);
        Self { tokens: lexer.tokenize(), cursor: 0 }
    }

    /// The token at the cursor.
    pub fn current_token(&self) -> (r: Option<&Token>)
        ensures
            match r {
                Some(t) => self.cursor_at() < self.tokens@.len() && *t == self.tokens@[self.cursor_at() as int],
                None => self.cursor_at() >= self.tokens@.len(),
            },
    {
        if self.cursor < self.tokens.len() {
            Some(&self.tokens[self.cursor])
        } else {
            None
        }
    }

    /// Moves the cursor one token on.
    fn next_token(&mut self)
        requires
            old(self).cursor_at() < old(self).tokens@.len(),
        ensures
            final(self).tokens == old(self).tokens,
            final(self).cursor_at() == old(self).cursor_at() + 1,
    {
        if self.cursor < self.tokens.len() {
            self.cursor += 1;
        }
    }

    /// The token after the one at the cursor.
    pub fn peek_token(&self) -> (r: Option<&Token>)
        ensures
            match r {
                Some(t) => self.cursor_at() + 1 < self.tokens@.len() && *t == self.tokens@[self.cursor_at() + 1int],
                None => self.cursor_at() + 1 >= self.tokens@.len(),
            },
    {
        if self.cursor < self.tokens.len() && self.cursor + 1 < self.tokens.len() {
            Some(&self.tokens[self.cursor + 1])
        } else {
            None
        }
    }

    /// Consumes a token equal to `expected`; otherwise the cursor stays and
    /// the error names what was found.
    pub fn expect_and_consume_token(&mut self, expected: EToken) -> (r: Result<(), ParseError>)
        requires
            old(self).wf(),
        ensures
            final(self).wf(),
            final(self).tokens == old(self).tokens,
            match expect_at(old(self).tokens_v(), old(self).cursor_at(), expected@) {
                Ok(q) => r is Ok && final(self).cursor_at() == q,
                Err(e) => r is Err && r->Err_0@ == e && final(self).cursor_at() == old(self).cursor_at(),
            },
    {
        if self.cursor < self.tokens.len() {
            if self.tokens[self.cursor].token == expected {
                self.next_token();
                Ok(())
            } else {
                Err(ParseError::ExpectedToken(self.tokens[self.cursor].duplicate(), expected))
            }
        } else {
            Err(ParseError::UnexpectedEnd)
        }
    }

    /// Parses one node at the cursor: a text token, or a whole element.
    pub fn parse(&mut self) -> (r: Result<Node, ParseError>)
        requires
            old(self).wf(),
        ensures
            final(self).wf(),
            final(self).tokens == old(self).tokens,
            step_matches(r, parse_node(old(self).tokens_v(), old(self).cursor_at()), final(self).cursor_at()),
            r is Ok ==> final(self).cursor_at() > old(self).cursor_at(),
            r matches Ok(n) ==> well_formed(n@),
        decreases old(self).tokens@.len() - old(self).cursor_at(), 1nat,
    {
        proof {
            lemma_node_well_formed(self.tokens_v(), self.cursor_at());
        }
        if self.cursor < self.tokens.len() {
            match &self.tokens[self.cursor].token {
                EToken::TEXT(value) => {
                    let node = Node::Text(value.clone());
                    self.next_token();
                    Ok(node)
                },
                _ => self.parse_block(),
            }
        } else {
            Err(ParseError::UnexpectedEnd)
        }
    }

    /// Parses an element at the cursor, through its closing tag.
    pub fn parse_block(&mut self) -> (r: Result<Node, ParseError>)
        requires
            old(self).wf(),
        ensures
            final(self).wf(),
            final(self).tokens == old(self).tokens,
            step_matches(r, parse_element(old(self).tokens_v(), old(self).cursor_at()), final(self).cursor_at()),
            r is Ok ==> final(self).cursor_at() > old(self).cursor_at(),
            r matches Ok(n) ==> well_formed(n@),
        decreases old(self).tokens@.len() - old(self).cursor_at(), 0nat,
    {
        let ghost t = self.tokens_v();
        let ghost p = self.cursor_at();
        let _ = self.expect_and_consume_token(EToken::LESSTHAN);
        if self.cursor >= self.tokens.len() {
            return Err(ParseError::UnexpectedEnd);
        }
        let tag_name = match &self.tokens[self.cursor].token {
            EToken::TEXT(name) => name.clone(),
            _ => {
                return Err(ParseError::UnexpectedToken(self.tokens[self.cursor].duplicate()));
            },
        };
        self.next_token();
        let ghost q = self.cursor_at();
        let mut attributes: Vec<(String, String)> = Vec::new();
        assert(attrs_view(attributes@) =~= Seq::empty());
        proof {
            lemma_parse_attributes_advances(t, q, Seq::empty());
        }
        loop
            invariant
                self.wf(),
                self.tokens == old(self).tokens,
                t == self.tokens_v(),
                t == old(self).tokens_v(),
                p == old(self).cursor_at(),
                parse_element(t, p) == match parse_attributes(t, q, Seq::empty()) {
                    Err(e) => Err(e),
                    Ok((a, r)) => match expect_at(t, r, ETokenV::GreaterThan) {
                        Err(e) => Err(e),
                        Ok(c) => parse_children(t, c, tag_name@, a, Seq::empty()),
                    },
                },
                q <= self.cursor_at(),
                parse_attributes(t, q, Seq::empty()) == parse_attributes(
                    t,
                    self.cursor_at(),
                    attrs_view(attributes@),
                ),
            ensures
                self.wf(),
                self.tokens == old(self).tokens,
                q <= self.cursor_at(),
                parse_element(t, p) == match parse_attributes(t, q, Seq::empty()) {
                    Err(e) => Err(e),
                    Ok((a, r)) => match expect_at(t, r, ETokenV::GreaterThan) {
                        Err(e) => Err(e),
                        Ok(c) => parse_children(t, c, tag_name@, a, Seq::empty()),
                    },
                },
                parse_attributes(t, q, Seq::empty()) == Step::<AttrsV>::Ok(
                    (attrs_view(attributes@), self.cursor_at()),
                ),
            decreases t.len() - self.cursor_at(),
        {
            if self.cursor >= self.tokens.len() {
                break;
            }
            let ghost c0 = self.cursor_at();
            match &self.tokens[self.cursor].token {
                EToken::TEXT(attr_name) => {
                    let name = attr_name.clone();
                    self.next_token();
                    match self.expect_and_consume_token(EToken::EQUAL_SYMBOL) {
                        Ok(_) => {},
                        Err(e) => {
                            return Err(e);
                        },
                    }
                    if self.cursor < self.tokens.len() && matches!(self.tokens[self.cursor].token, EToken::APOSTROPHE) {
                        self.next_token();
                        let ghost v0 = self.cursor_at();
                        proof {
                            lemma_texts_end_bounds(t, v0);
                        }
                        let mut value = String::new();
                        let mut first = true;
                        loop
                            invariant
                                self.wf(),
                                self.tokens == old(self).tokens,
                                t == self.tokens_v(),
                                t == old(self).tokens_v(),
                                p == old(self).cursor_at(),
                                v0 <= self.cursor_at() <= texts_end(t, v0),
                                texts_end(t, self.cursor_at()) == texts_end(t, v0),
                                value@ == attr_value(t, v0, self.cursor_at()),
                                first == (self.cursor_at() == v0),
                            ensures
                                self.wf(),
                                self.tokens == old(self).tokens,
                                self.cursor_at() == texts_end(t, v0),
                                value@ == attr_value(t, v0, self.cursor_at()),
                            decreases t.len() - self.cursor_at(),
                        {
                            if self.cursor >= self.tokens.len() {
                                break;
                            }
                            match &self.tokens[self.cursor].token {
                                EToken::TEXT(fragment) => {
                                    if !first {
                                        value.push(' ');
                                    }
                                    append_string(&mut value, fragment);
                                    first = false;
                                    proof {
                                        lemma_texts_end_bounds(t, self.cursor_at() + 1);
                                    }
                                    self.next_token();
                                },
                                _ => {
                                    break;
                                },
                            }
                        }
                        set_attr(&mut attributes, name, value);
                        match self.expect_and_consume_token(EToken::APOSTROPHE) {
                            Ok(_) => {},
                            Err(e) => {
                                return Err(e);
                            },
                        }
                    } else {
                        return Err(ParseError::MissingAttributeValue);
                    }
                },
                EToken::GREATERTHAN => {
                    break;
                },
                _ => {
                    return Err(ParseError::UnexpectedToken(self.tokens[self.cursor].duplicate()));
                },
            }
        }
        match self.expect_and_consume_token(EToken::GREATERTHAN) {
            Ok(_) => {},
            Err(e) => {
                return Err(e);
            },
        }
        let ghost attrs_v = attrs_view(attributes@);
        let mut children: Vec<Node> = Vec::new();
        assert(nodes_view(children@) =~= Seq::empty());
        loop
            invariant
                self.wf(),
                self.tokens == old(self).tokens,
                t == self.tokens_v(),
                t == old(self).tokens_v(),
                p == old(self).cursor_at(),
                p < self.cursor_at(),
                attrs_view(attributes@) == attrs_v,
                parse_element(t, p) == parse_children(
                    t,
                    self.cursor_at(),
                    tag_name@,
                    attrs_v,
                    nodes_view(children@),
                ),
            decreases t.len() - self.cursor_at(),
        {
            if self.cursor >= self.tokens.len() {
                return Err(ParseError::UnclosedTag(tag_name));
            }
            match &self.tokens[self.cursor].token {
                EToken::LESS_THAN_SLASH => {
                    self.next_token();
                    match self.expect_and_consume_token(EToken::TEXT(tag_name.clone())) {
                        Ok(_) => {},
                        Err(e) => {
                            return Err(e);
                        },
                    }
                    match self.expect_and_consume_token(EToken::GREATERTHAN) {
                        Ok(_) => {},
                        Err(e) => {
                            return Err(e);
                        },
                    }
                    proof {
                        lemma_element_well_formed(t, p);
                    }
                    return Ok(Node::Element(HtmlElement { tag: tag_name, attributes, children }));
                },
                _ => {
                    let ghost before = children@;
                    match self.parse() {
                        Ok(child) => {
                            children.push(child);
                        },
                        Err(e) => {
                            return Err(e);
                        },
                    }
                    assert(children@.drop_last() =~= before);
                },
            }
        }
    }
}

} // verus!
