//! Evaluation of a markup tree against a scope: placeholder substitution
//! and expansion of repetition directives.
use vstd::prelude::*;
use crate::parser::{
    attr_get, attr_remove, attrs_view, lemma_attr_get_after_remove, copy_attrs, duplicate_nodes, elem_view,
    lemma_nodes_view, nodes_view, remove_attr, AttrsV, ElemV, HtmlElement, Node, NodeV,
};
use crate::scope::{
    entries_view, lemma_entries_view, lemma_scopes_view, literal, lookup, scalar_text, scopes_view, Scope, ScopeV,
};
use crate::text::append_string;

verus! {

/// A character allowed in a placeholder path.
pub open spec fn path_char(c: char) -> bool {
    ('a' <= c && c <= 'z') || ('A' <= c && c <= 'Z') || ('0' <= c && c <= '9') || c == '_'
        || c == '.'
}

/// The end of the run of path characters that starts at `i`.
pub open spec fn path_end(s: Seq<char>, i: nat) -> nat
    decreases s.len() - i,
{
    if i < s.len() && path_char(s[i as int]) {
        path_end(s, i + 1)
    } else {
        i
    }
}

/// Whether a marker `!{path}!` starts at `i`, with its path ending at `j`.
pub open spec fn marker_at(s: Seq<char>, i: nat, j: nat) -> bool {
    &&& i + 2 < j
    &&& j + 1 < s.len()
    &&& s[i as int] == '!'
    &&& s[i + 1int] == '{'
    &&& s[j as int] == '}'
    &&& s[j + 1int] == '!'
}

/// `s` from index `i` on, each marker whose path names a scalar of `v`
/// replaced by that scalar's text; markers are recognised left to right
/// without overlapping.
pub open spec fn subst_from(s: Seq<char>, v: ScopeV, i: nat) -> Seq<char>
    decreases s.len() - i,
{
    if i >= s.len() {
        Seq::empty()
    } else {
        let j = path_end(s, i + 2);
        if marker_at(s, i, j) {
            let replaced = match literal(v, s.subrange(i + 2int, j as int)) {
                Some(x) => x,
                None => s.subrange(i as int, j + 2int),
            };
            replaced + subst_from(s, v, j + 2)
        } else {
            seq![s[i as int]] + subst_from(s, v, i + 1)
        }
    }
}

/// `s` with its placeholders resolved against `v`.
pub open spec fn subst(s: Seq<char>, v: ScopeV) -> Seq<char> {
    subst_from(s, v, 0)
}

/// A character of the marker syntax, dropped from directive attributes.
pub open spec fn marker_char(c: char) -> bool {
    c == '{' || c == '}' || c == '!' || c == ' '
}

/// `s` without its marker characters.
pub open spec fn strip_markers(s: Seq<char>) -> Seq<char>
    decreases s.len(),
{
    if s.len() == 0 {
        s
    } else {
        strip_markers(s.drop_last()) + if marker_char(s.last()) {
            Seq::<char>::empty()
        } else {
            seq![s.last()]
        }
    }
}

/// Attribute values resolved against `v`.
pub open spec fn subst_attrs(a: AttrsV, v: ScopeV) -> AttrsV {
    a.map_values(|p: (Seq<char>, Seq<char>)| (p.0, subst(p.1, v)))
}

/// The scope that binds `name` to `item` alone.
pub open spec fn bind(name: Seq<char>, item: ScopeV) -> ScopeV {
    ScopeV::Object(seq![(name, item)])
}

/// The reserved tag of the repetition directive.
pub open spec fn directive_tag() -> Seq<char> {
    "slk-datamap"@
}

/// The tag of the element that wraps the expansion of a directive.
pub open spec fn wrapper_tag() -> Seq<char> {
    "div"@
}

/// The tree that `n` evaluates to against `v`; nothing where a directive
/// has more than one item template.
pub open spec fn eval(n: NodeV, v: ScopeV) -> Option<NodeV>
    decreases n, 0nat,
{
    match n {
        NodeV::Text(t) => Some(NodeV::Text(subst(t, v))),
        NodeV::Element(e) => if e.tag == directive_tag() {
            eval_directive(e, v)
        } else {
            match eval_all(e.children, v) {
                Some(cs) => Some(
                    NodeV::Element(
                        ElemV { tag: e.tag, attributes: subst_attrs(e.attributes, v), children: cs },
                    ),
                ),
                None => None,
            }
        },
    }
}

/// Each of `cs` evaluated against `v`, in order.
pub open spec fn eval_all(cs: Seq<NodeV>, v: ScopeV) -> Option<Seq<NodeV>>
    decreases cs, 0nat,
{
    if cs.len() == 0 {
        Some(Seq::empty())
    } else {
        match eval_all(cs.drop_last(), v) {
            Some(done) => match eval(cs.last(), v) {
                Some(x) => Some(done.push(x)),
                None => None,
            },
            None => None,
        }
    }
}

/// The expansion of a directive element `e` against `v`.
pub open spec fn eval_directive(e: ElemV, v: ScopeV) -> Option<NodeV>
    decreases e, 0nat,
{
    if e.children.len() > 1 {
        None
    } else {
        match attr_get(e.attributes, "data"@) {
            None => Some(NodeV::Element(e)),
            Some(data) => {
                let a1 = attr_remove(e.attributes, "data"@);
                match attr_get(a1, "selector"@) {
                    None => Some(
                        NodeV::Element(ElemV { tag: e.tag, attributes: a1, children: e.children }),
                    ),
                    Some(sel) => {
                        let a2 = attr_remove(a1, "selector"@);
                        let bare = NodeV::Element(
                            ElemV { tag: e.tag, attributes: a2, children: e.children },
                        );
                        match lookup(v, strip_markers(data)) {
                            Some(ScopeV::Array(items)) => if e.children.len() == 0 {
                                Some(NodeV::Element(e))
                            } else {
                                match eval_items(e.children[0], strip_markers(sel), items) {
                                    Some(cs) => Some(
                                        NodeV::Element(
                                            ElemV {
                                                tag: wrapper_tag(),
                                                attributes: a2,
                                                children: cs,
                                            },
                                        ),
                                    ),
                                    None => None,
                                }
                            },
                            _ => Some(bare),
                        }
                    },
                }
            },
        }
    }
}

/// The item template `c` evaluated once per item, each time against the
/// scope that binds `name` to that item.
pub open spec fn eval_items(c: NodeV, name: Seq<char>, items: Seq<ScopeV>) -> Option<Seq<NodeV>>
    decreases c, items.len(),
{
    if items.len() == 0 {
        Some(Seq::empty())
    } else {
        match eval_items(c, name, items.drop_last()) {
            Some(done) => match eval(c, bind(name, items.last())) {
                Some(x) => Some(done.push(x)),
                None => None,
            },
            None => None,
        }
    }
}

proof fn lemma_eval_all_none(cs: Seq<NodeV>, v: ScopeV, m: nat)
    requires
        m <= cs.len(),
        eval_all(cs.take(m as int), v) is None,
    ensures
        eval_all(cs, v) is None,
    decreases cs.len() - m,
{
    if m == cs.len() {
        assert(cs.take(m as int) =~= cs);
    } else {
        assert(cs.take(m + 1int).drop_last() =~= cs.take(m as int));
        lemma_eval_all_none(cs, v, m + 1);
    }
}

proof fn lemma_eval_items_none(c: NodeV, name: Seq<char>, items: Seq<ScopeV>, m: nat)
    requires
        m <= items.len(),
        eval_items(c, name, items.take(m as int)) is None,
    ensures
        eval_items(c, name, items) is None,
    decreases items.len() - m,
{
    if m == items.len() {
        assert(items.take(m as int) =~= items);
    } else {
        assert(items.take(m + 1int).drop_last() =~= items.take(m as int));
        lemma_eval_items_none(c, name, items, m + 1);
    }
}

/// The message for a path that names nothing in the scope.
pub open spec fn path_not_found(path: Seq<char>) -> Seq<char> {
    "Path '"@ + path + "' not found in JSON template."@
}

/// What `get_literal_from_template` returns for `path` against `v`.
pub open spec fn literal_result(v: ScopeV, path: Seq<char>) -> Result<Seq<char>, Seq<char>> {
    match lookup(v, path) {
        None => Err(path_not_found(path)),
        Some(x) => match scalar_text(x) {
            Some(t) => Ok(t),
            None => Err("Value not found"@),
        },
    }
}

/// A repetition directive held more than one item template.
#[derive(Debug, PartialEq, Eq, Structural)]
pub enum DirectiveError {
    MultipleItemTemplates,
}

impl DirectiveError {
    /// The diagnostic text of this error.
    pub fn message(&self) -> (r: String)
        ensures
            r@ == "slk-datamap can only have one child element"@,
    {
        String::from_str("slk-datamap can only have one child element")
    }
}

/// `s` without the marker characters `{`, `}`, `!` and space.
pub fn strip_marker_chars(s: &String) -> (r: String)
    ensures
        r@ == strip_markers(s@),
{
    let n: usize = s.as_str().unicode_len();
    let mut out = String::new();
    let mut i: usize = 0;
    assert(s@.take(0) =~= Seq::<char>::empty());
    while i < n
        invariant
            n == s@.len(),
            i <= n,
            out@ == strip_markers(s@.take(i as int)),
        decreases n - i,
    {
        let c = s.as_str().get_char(i);
        assert(s@.take(i + 1).drop_last() =~= s@.take(i as int));
        if !(c == '{' || c == '}' || c == '!' || c == ' ') {
            out.push(c);
        }
        assert(out@ =~= strip_markers(s@.take(i + 1)));
        i += 1;
    }
    assert(s@.take(n as int) =~= s@);
    out
}

fn is_path_char(c: char) -> (r: bool)
    ensures
        r == path_char(c),
{
    ('a' <= c && c <= 'z') || ('A' <= c && c <= 'Z') || ('0' <= c && c <= '9') || c == '_'
        || c == '.'
}

/// Evaluates trees against one scope value.
pub struct Evaluator {
    pub json_template: Scope,
}

impl Evaluator {
    pub fn new(json_template: Scope) -> (r: Self)
        ensures
            r.json_template == json_template,
    {
        Self { json_template }
    }

    /// The tree that `node` evaluates to against this evaluator's scope.
    pub fn evaluate(&mut self, node: Node) -> (r: Result<Node, DirectiveError>)
        ensures
            *final(self) == *old(self),
            match eval(node@, old(self).json_template@) {
                Some(m) => r is Ok && r->Ok_0@ == m,
                None => r is Err,
            },
    {
        self.eval_node(&node)
    }

    /// The text of the scalar at `path`, or why there is none.
    pub fn get_literal_from_template(&mut self, path: String) -> (r: Result<String, String>)
        ensures
            *final(self) == *old(self),
            match literal_result(old(self).json_template@, path@) {
                Ok(t) => r matches Ok(s) && s@ == t,
                Err(m) => r matches Err(s) && s@ == m,
            },
    {
        self.literal_at(&path)
    }

    /// The array at `path`, or why there is none.
    pub fn get_array_from_template(&mut self, path: String) -> (r: Result<&Vec<Scope>, String>)
        ensures
            *final(self) == *old(self),
            match lookup(old(self).json_template@, path@) {
                None => r matches Err(m) && m@ == path_not_found(path@),
                Some(ScopeV::Array(xs)) => r matches Ok(items) && scopes_view(items@) == xs,
                Some(_) => r matches Err(m) && m@ == "Value not found"@,
            },
    {
        self.array_at(&path)
    }

    /// The object at `path`, or why there is none.
    pub fn get_object_from_template(&mut self, path: String) -> (r: Result<&Vec<(String, Scope)>, String>)
        ensures
            *final(self) == *old(self),
            match lookup(old(self).json_template@, path@) {
                None => r matches Err(m) && m@ == path_not_found(path@),
                Some(ScopeV::Object(es)) => r matches Ok(entries) && entries_view(entries@) == es,
                Some(_) => r matches Err(m) && m@ == "Value not found"@,
            },
    {
        match self.json_template.descend(&path) {
            None => Err(not_found_message(&path)),
            Some(x) => match x {
                Scope::Object(entries) => Ok(entries),
                _ => Err(String::from_str("Value not found")),
            },
        }
    }

    /// `input` with each placeholder that names a scalar replaced by its text.
    pub fn replace_placeholders(&mut self, input: String) -> (r: String)
        ensures
            *final(self) == *old(self),
            r@ == subst(input@, old(self).json_template@),
    {
        self.resolve_text(&input)
    }

    /// `text` without the marker characters, as a bare path or name.
    pub fn unwrap_placeholders(&mut self, text: String) -> (r: String)
        ensures
            *final(self) == *old(self),
            r@ == strip_markers(text@),
    {
        strip_marker_chars(&text)
    }

    /// The expansion of a directive element against this evaluator's scope.
    pub fn process_datamap(&mut self, elt: HtmlElement) -> (r: Result<Node, DirectiveError>)
        ensures
            *final(self) == *old(self),
            match eval_directive(elem_view(&elt), old(self).json_template@) {
                Some(m) => r is Ok && r->Ok_0@ == m,
                None => r is Err,
            },
    {
        self.expand(&elt)
    }

    fn literal_at(&self, path: &String) -> (r: Result<String, String>)
        ensures
            match literal_result(self.json_template@, path@) {
                Ok(t) => r matches Ok(s) && s@ == t,
                Err(m) => r matches Err(s) && s@ == m,
            },
    {
        match self.json_template.descend(path) {
            None => Err(not_found_message(path)),
            Some(x) => match x {
                Scope::Str(a) => Ok(a.clone()),
                Scope::Bool(b) => if *b {
                    Ok(String::from_str("true"))
                } else {
                    Ok(String::from_str("false"))
                },
                Scope::Number(a) => Ok(a.clone()),
                _ => Err(String::from_str("Value not found")),
            },
        }
    }

    fn array_at(&self, path: &String) -> (r: Result<&Vec<Scope>, String>)
        ensures
            match lookup(self.json_template@, path@) {
                None => r matches Err(m) && m@ == path_not_found(path@),
                Some(ScopeV::Array(xs)) => r matches Ok(items) && scopes_view(items@) == xs,
                Some(_) => r matches Err(m) && m@ == "Value not found"@,
            },
    {
        match self.json_template.descend(path) {
            None => Err(not_found_message(path)),
            Some(x) => match x {
                Scope::Array(items) => Ok(items),
                _ => Err(String::from_str("Value not found")),
            },
        }
    }

    fn resolve_text(&self, input: &String) -> (r: String)
        ensures
            r@ == subst(input@, self.json_template@),
    {
        let ghost s = input@;
        let ghost v = self.json_template@;
        let n: usize = input.as_str().unicode_len();
        let mut out = String::new();
        let mut i: usize = 0;
        while i < n
            invariant
                n == s.len(),
                s == input@,
                v == self.json_template@,
                i <= n,
                out@ + subst_from(s, v, i as nat) == subst(s, v),
            decreases n - i,
        {
            let c = input.as_str().get_char(i);
            if c == '!' && i + 1 < n && input.as_str().get_char(i + 1) == '{' {
                let mut j: usize = i + 2;
                while j < n && is_path_char(input.as_str().get_char(j))
                    invariant
                        n == s.len(),
                        s == input@,
                        i + 2 <= j <= n,
                        path_end(s, (i + 2) as nat) == path_end(s, j as nat),
                    decreases n - j,
                {
                    j += 1;
                }
                if j > i + 2 && j < n && j + 1 < n && input.as_str().get_char(j) == '}'
                    && input.as_str().get_char(j + 1) == '!' {
                    assert(marker_at(s, i as nat, j as nat));
                    let ghost before = out@;
                    let path = String::from_str(input.as_str().substring_char(i + 2, j));
                    match self.literal_at(&path) {
                        Ok(val) => {
                            append_string(&mut out, &val);
                        },
                        Err(_) => {
                            let raw = String::from_str(input.as_str().substring_char(i, j + 2));
                            append_string(&mut out, &raw);
                        },
                    }
                    assert(out@ + subst_from(s, v, (j + 2) as nat) =~= before + subst_from(
                        s,
                        v,
                        i as nat,
                    ));
                    i = j + 2;
                    continue;
                }
            }
            assert(!marker_at(s, i as nat, path_end(s, (i + 2) as nat)));
            let ghost before = out@;
            out.push(c);
            assert(out@ + subst_from(s, v, (i + 1) as nat) =~= before + subst_from(s, v, i as nat));
            i += 1;
        }
        assert(out@ + subst_from(s, v, i as nat) =~= out@);
        out
    }

    fn eval_node(&self, node: &Node) -> (r: Result<Node, DirectiveError>)
        ensures
            match eval(node@, self.json_template@) {
                Some(m) => r is Ok && r->Ok_0@ == m,
                None => r is Err,
            },
        decreases node,
    {
        match node {
            Node::Text(t) => Ok(Node::Text(self.resolve_text(t))),
            Node::Element(e) => {
                if e.tag == String::from_str("slk-datamap") {
                    self.expand(e)
                } else {
                    self.eval_element(e)
                }
            },
        }
    }

    fn eval_element(&self, e: &HtmlElement) -> (r: Result<Node, DirectiveError>)
        requires
            e.tag@ != directive_tag(),
        ensures
            match eval(NodeV::Element(elem_view(e)), self.json_template@) {
                Some(m) => r is Ok && r->Ok_0@ == m,
                None => r is Err,
            },
        decreases e,
    {
        let ghost v = self.json_template@;
        let ghost a = attrs_view(e.attributes@);
        let mut attributes: Vec<(String, String)> = Vec::new();
        let mut i: usize = 0;
        while i < e.attributes.len()
            invariant
                v == self.json_template@,
                a == attrs_view(e.attributes@),
                i <= e.attributes@.len(),
                attrs_view(attributes@) == subst_attrs(a, v).take(i as int),
            decreases e.attributes@.len() - i,
        {
            let ghost before = attributes@;
            let value = self.resolve_text(&e.attributes[i].1);
            attributes.push((e.attributes[i].0.clone(), value));
            assert(attrs_view(attributes@) =~= attrs_view(before).push(
                subst_attrs(a, v)[i as int],
            ));
            assert(subst_attrs(a, v).take(i + 1) =~= subst_attrs(a, v).take(i as int).push(
                subst_attrs(a, v)[i as int],
            ));
            i += 1;
        }
        assert(subst_attrs(a, v).take(e.attributes@.len() as int) =~= subst_attrs(a, v));
        let ghost cs = nodes_view(e.children@);
        proof {
            lemma_nodes_view(e.children@);
        }
        let mut children: Vec<Node> = Vec::new();
        let mut k: usize = 0;
        assert(cs.take(0) =~= Seq::<NodeV>::empty());
        assert(nodes_view(children@) =~= Seq::<NodeV>::empty());
        while k < e.children.len()
            invariant
                v == self.json_template@,
                e.tag@ != directive_tag(),
                cs == nodes_view(e.children@),
                cs.len() == e.children@.len(),
                forall|j: int| 0 <= j < e.children@.len() ==> #[trigger] cs[j] == e.children@[j]@,
                k <= e.children@.len(),
                eval_all(cs.take(k as int), v) == Some(nodes_view(children@)),
            decreases e.children@.len() - k,
        {
            proof {
                assert(decreases_to!(e.children => e.children@));
                assert(decreases_to!(e.children@ => e.children@[k as int]));
                assert(cs.take(k + 1).drop_last() =~= cs.take(k as int));
                assert(cs.take(k + 1).last() == cs[k as int]);
            }
            match self.eval_node(&e.children[k]) {
                Ok(x) => {
                    let ghost before = children@;
                    children.push(x);
                    assert(children@.drop_last() =~= before);
                },
                Err(err) => {
                    proof {
                        lemma_eval_all_none(cs, v, (k + 1) as nat);
                        assert(elem_view(e).children == cs);
                    }
                    return Err(err);
                },
            }
            k += 1;
        }
        assert(cs.take(k as int) =~= cs);
        Ok(Node::Element(HtmlElement { tag: e.tag.clone(), attributes, children }))
    }

    fn expand(&self, e: &HtmlElement) -> (r: Result<Node, DirectiveError>)
        ensures
            match eval_directive(elem_view(e), self.json_template@) {
                Some(m) => r is Ok && r->Ok_0@ == m,
                None => r is Err,
            },
        decreases e,
    {
        let ghost v = self.json_template@;
        proof {
            lemma_nodes_view(e.children@);
        }
        if e.children.len() > 1 {
            return Err(DirectiveError::MultipleItemTemplates);
        }
        let mut attributes = copy_attrs(&e.attributes);
        let data = match remove_attr(&mut attributes, &String::from_str("data")) {
            Some(d) => d,
            None => {
                return Ok(
                    Node::Element(
                        HtmlElement {
                            tag: e.tag.clone(),
                            attributes: copy_attrs(&e.attributes),
                            children: duplicate_nodes(&e.children),
                        },
                    ),
                );
            },
        };
        let data_path = strip_marker_chars(&data);
        let selector = match remove_attr(&mut attributes, &String::from_str("selector")) {
            Some(s) => s,
            None => {
                return Ok(
                    Node::Element(
                        HtmlElement {
                            tag: e.tag.clone(),
                            attributes,
                            children: duplicate_nodes(&e.children),
                        },
                    ),
                );
            },
        };
        let name = strip_marker_chars(&selector);
        let items = match self.array_at(&data_path) {
            Ok(items) => items,
            Err(_) => {
                return Ok(
                    Node::Element(
                        HtmlElement {
                            tag: e.tag.clone(),
                            attributes,
                            children: duplicate_nodes(&e.children),
                        },
                    ),
                );
            },
        };
        if e.children.len() == 0 {
            return Ok(
                Node::Element(
                    HtmlElement {
                        tag: e.tag.clone(),
                        attributes: copy_attrs(&e.attributes),
                        children: duplicate_nodes(&e.children),
                    },
                ),
            );
        }
        let ghost xs = scopes_view(items@);
        let ghost c = e.children@[0]@;
        proof {
            lemma_scopes_view(items@);
            lemma_nodes_view(e.children@);
        }
        let mut out: Vec<Node> = Vec::new();
        let mut k: usize = 0;
        assert(xs.take(0) =~= Seq::<ScopeV>::empty());
        assert(nodes_view(out@) =~= Seq::<NodeV>::empty());
        while k < items.len()
            invariant
                v == self.json_template@,
                e.children@.len() == 1,
                c == e.children@[0]@,
                xs == scopes_view(items@),
                xs.len() == items@.len(),
                forall|j: int| 0 <= j < items@.len() ==> #[trigger] xs[j] == items@[j]@,
                k <= items@.len(),
                eval_directive(elem_view(e), v) == match eval_items(c, name@, xs) {
                    Some(cs) => Some(
                        NodeV::Element(
                            ElemV {
                                tag: wrapper_tag(),
                                attributes: attrs_view(attributes@),
                                children: cs,
                            },
                        ),
                    ),
                    None => None,
                },
                eval_items(c, name@, xs.take(k as int)) == Some(nodes_view(out@)),
            decreases items@.len() - k,
        {
            let mut entries: Vec<(String, Scope)> = Vec::new();
            entries.push((name.clone(), items[k].duplicate()));
            let inner = Evaluator { json_template: Scope::Object(entries) };
            proof {
                lemma_entries_view(entries@);
                assert(entries_view(entries@) =~= seq![(name@, xs[k as int])]);
                assert(inner.json_template@ == bind(name@, xs[k as int]));
                assert(decreases_to!(e.children => e.children@));
                assert(decreases_to!(e.children@ => e.children@[0]));
                assert(xs.take(k + 1).drop_last() =~= xs.take(k as int));
                assert(xs.take(k + 1).last() == xs[k as int]);
            }
            match inner.eval_node(&e.children[0]) {
                Ok(x) => {
                    let ghost before = out@;
                    out.push(x);
                    assert(out@.drop_last() =~= before);
                },
                Err(err) => {
                    proof {
                        lemma_eval_items_none(c, name@, xs, (k + 1) as nat);
                    }
                    return Err(err);
                },
            }
            k += 1;
        }
        assert(xs.take(k as int) =~= xs);
        Ok(Node::Element(HtmlElement { tag: String::from_str("div"), attributes, children: out }))
    }
}

fn not_found_message(path: &String) -> (r: String)
    ensures
        r@ == path_not_found(path@),
{
    let mut m = String::from_str("Path '");
    append_string(&mut m, path);
    m.append("' not found in JSON template.");
    m
}

/// No marker in `t` has a path that names a scalar of `v`.
pub open spec fn text_resolved(t: Seq<char>, v: ScopeV) -> bool {
    forall|i: nat|
        #[trigger] marker_at(t, i, path_end(t, i + 2)) ==> literal(
            v,
            t.subrange(i + 2int, path_end(t, i + 2) as int),
        ) is None
}

/// `t` holds no placeholder marker.
pub open spec fn marker_free(t: Seq<char>) -> bool {
    forall|i: nat| !#[trigger] marker_at(t, i, path_end(t, i + 2))
}

/// `n` is fully resolved against `v`: it holds no directive element, and
/// no text or attribute value in it holds a marker that `v` can resolve.
pub open spec fn resolved(n: NodeV, v: ScopeV) -> bool
    decreases n,
{
    match n {
        NodeV::Text(t) => text_resolved(t, v),
        NodeV::Element(e) => {
            &&& e.tag != directive_tag()
            &&& forall|i: int|
                0 <= i < e.attributes.len() ==> text_resolved(#[trigger] e.attributes[i].1, v)
            &&& forall|i: int| 0 <= i < e.children.len() ==> resolved(#[trigger] e.children[i], v)
        },
    }
}

/// `n` holds no directive element and no placeholder marker in any text
/// or attribute value.
pub open spec fn plain(n: NodeV) -> bool
    decreases n,
{
    match n {
        NodeV::Text(t) => marker_free(t),
        NodeV::Element(e) => {
            &&& e.tag != directive_tag()
            &&& forall|i: int|
                0 <= i < e.attributes.len() ==> marker_free(#[trigger] e.attributes[i].1)
            &&& forall|i: int| 0 <= i < e.children.len() ==> plain(#[trigger] e.children[i])
        },
    }
}

proof fn lemma_subst_resolved(t: Seq<char>, v: ScopeV, i: nat)
    requires
        text_resolved(t, v),
        i <= t.len(),
    ensures
        subst_from(t, v, i) == t.skip(i as int),
    decreases t.len() - i,
{
    if i == t.len() {
        assert(t.skip(i as int) =~= Seq::<char>::empty());
    } else {
        let j = path_end(t, i + 2);
        if marker_at(t, i, j) {
            lemma_subst_resolved(t, v, j + 2);
            assert(t.subrange(i as int, j + 2int) + t.skip(j + 2int) =~= t.skip(i as int));
        } else {
            lemma_subst_resolved(t, v, i + 1);
            assert(seq![t[i as int]] + t.skip(i + 1int) =~= t.skip(i as int));
        }
    }
}

proof fn lemma_text_fixed(t: Seq<char>, v: ScopeV)
    requires
        text_resolved(t, v),
    ensures
        subst(t, v) == t,
{
    lemma_subst_resolved(t, v, 0);
    assert(t.skip(0) =~= t);
}

pub proof fn lemma_eval_resolved(n: NodeV, v: ScopeV)
    requires
        resolved(n, v),
    ensures
        eval(n, v) == Some(n),
    decreases n, 1nat,
{
    match n {
        NodeV::Text(t) => {
            lemma_text_fixed(t, v);
        },
        NodeV::Element(e) => {
            assert forall|i: int| 0 <= i < e.attributes.len() implies subst(
                e.attributes[i].1,
                v,
            ) == e.attributes[i].1 by {
                lemma_text_fixed(e.attributes[i].1, v);
            }
            assert(subst_attrs(e.attributes, v) =~= e.attributes);
            lemma_eval_all_resolved(e.children, v);
        },
    }
}

proof fn lemma_eval_all_resolved(cs: Seq<NodeV>, v: ScopeV)
    requires
        forall|i: int| 0 <= i < cs.len() ==> resolved(#[trigger] cs[i], v),
    ensures
        eval_all(cs, v) == Some(cs),
    decreases cs, 0nat,
{
    if cs.len() > 0 {
        lemma_eval_all_resolved(cs.drop_last(), v);
        lemma_eval_resolved(cs.last(), v);
        assert(cs.drop_last().push(cs.last()) =~= cs);
    }
}

pub proof fn lemma_plain_resolved(n: NodeV, v: ScopeV)
    requires
        plain(n),
    ensures
        resolved(n, v),
    decreases n,
{
    match n {
        NodeV::Text(t) => {},
        NodeV::Element(e) => {
            assert forall|i: int| 0 <= i < e.children.len() implies resolved(
                #[trigger] e.children[i],
                v,
            ) by {
                lemma_plain_resolved(e.children[i], v);
            }
        },
    }
}

/// Evaluating a tree a second time with the same scope changes nothing
/// once the first result is fully resolved against that scope.
pub proof fn law_evaluation_idempotent(n: NodeV, m: NodeV, v: ScopeV)
    requires
        eval(n, v) == Some(m),
        resolved(m, v),
    ensures
        eval(m, v) == Some(m),
{
    lemma_eval_resolved(m, v);
}

proof fn lemma_eval_items_some(c: NodeV, name: Seq<char>, items: Seq<ScopeV>)
    requires
        forall|i: int| 0 <= i < items.len() ==> #[trigger] eval(c, bind(name, items[i])) is Some,
    ensures
        eval_items(c, name, items) matches Some(cs) && cs.len() == items.len() && forall|i: int|
            0 <= i < items.len() ==> Some(#[trigger] cs[i]) == eval(c, bind(name, items[i])),
    decreases items.len(),
{
    if items.len() > 0 {
        let init = items.drop_last();
        assert forall|i: int| 0 <= i < init.len() implies #[trigger] eval(c, bind(name, init[i])) is Some by {
            assert(init[i] == items[i]);
        }
        lemma_eval_items_some(c, name, init);
        let cs = eval_items(c, name, items)->Some_0;
        let done = eval_items(c, name, init)->Some_0;
        assert(eval(c, bind(name, items[items.len() - 1])) is Some);
        assert forall|i: int| 0 <= i < items.len() implies Some(#[trigger] cs[i]) == eval(
            c,
            bind(name, items[i]),
        ) by {
            if i < init.len() {
                assert(init[i] == items[i]);
                assert(cs[i] == done[i]);
            }
        }
    }
}

/// A directive whose data path resolves to an array of N items, with one
/// item template, evaluates to a wrapper element with exactly N children:
/// child i is the item template evaluated against the scope that binds the
/// selector name to item i. With no items the wrapper has no children.
pub proof fn law_directive_expansion(
    e: ElemV,
    v: ScopeV,
    data: Seq<char>,
    sel: Seq<char>,
    items: Seq<ScopeV>,
)
    requires
        e.tag == directive_tag(),
        e.children.len() == 1,
        attr_get(e.attributes, "data"@) == Some(data),
        attr_get(e.attributes, "selector"@) == Some(sel),
        lookup(v, strip_markers(data)) == Some(ScopeV::Array(items)),
        forall|i: int|
            0 <= i < items.len() ==> #[trigger] eval(
                e.children[0],
                bind(strip_markers(sel), items[i]),
            ) is Some,
    ensures
        eval(NodeV::Element(e), v) matches Some(NodeV::Element(w)) && w.tag == wrapper_tag()
            && w.children.len() == items.len() && forall|i: int|
            0 <= i < items.len() ==> Some(#[trigger] w.children[i]) == eval(
                e.children[0],
                bind(strip_markers(sel), items[i]),
            ),
{
    reveal_strlit("data");
    reveal_strlit("selector");
    assert("data"@.len() != "selector"@.len());
    lemma_attr_get_after_remove(e.attributes, "data"@, "selector"@);
    lemma_eval_items_some(e.children[0], strip_markers(sel), items);
}

} // verus!
