//! Facts that link the template text to the evaluated tree: text without
//! placeholder markers yields a tree whose texts hold none either.
use vstd::prelude::*;
use crate::evaluator::{
    directive_tag, eval, lemma_eval_resolved, lemma_plain_resolved, marker_at, marker_free,
    path_char, path_end, plain,
};
use crate::lexer::{lemma_text_end_bounds, lex, text_end, tokens_of, ETokenV, TokenV};
use crate::parser::{
    attr_index, attr_set, attr_value, expect_at, lemma_attr_index_bounds,
    lemma_parse_attributes_advances, lemma_texts_end_bounds, parse_attributes, parse_children,
    parse_element, parse_node, parse_text, texts_end, AttrsV, NodeV, ParseErrorV,
};
use crate::scope::ScopeV;

verus! {

proof fn lemma_path_end_bounds(s: Seq<char>, i: nat)
    ensures
        i <= path_end(s, i),
        i <= s.len() ==> path_end(s, i) <= s.len(),
        forall|m: int| i <= m < path_end(s, i) ==> path_char(#[trigger] s[m]),
    decreases s.len() - i,
{
    if i < s.len() && path_char(s[i as int]) {
        lemma_path_end_bounds(s, i + 1);
    }
}

/// The path run in a slice ends where the run in the whole text ends, or
/// at the end of the slice.
proof fn lemma_path_end_slice(s: Seq<char>, a: nat, b: nat, p: nat)
    requires
        a <= b <= s.len(),
        p <= b - a,
    ensures
        path_end(s.subrange(a as int, b as int), p) + a == if path_end(s, a + p) < b {
            path_end(s, a + p)
        } else {
            b
        },
    decreases b - a - p,
{
    let u = s.subrange(a as int, b as int);
    lemma_path_end_bounds(s, a + p);
    if p < u.len() {
        assert(u[p as int] == s[(a + p) as int]);
        if path_char(u[p as int]) {
            lemma_path_end_slice(s, a, b, p + 1);
        }
    }
}

/// A slice of a text without markers holds none.
proof fn lemma_marker_free_slice(s: Seq<char>, a: nat, b: nat)
    requires
        marker_free(s),
        a <= b <= s.len(),
    ensures
        marker_free(s.subrange(a as int, b as int)),
{
    let u = s.subrange(a as int, b as int);
    assert forall|k: nat| !#[trigger] marker_at(u, k, path_end(u, k + 2)) by {
        let j = path_end(u, k + 2);
        if marker_at(u, k, j) {
            lemma_path_end_slice(s, a, b, k + 2);
            assert(path_end(s, a + k + 2) == a + j);
            assert(u[k as int] == s[(a + k) as int]);
            assert(u[k + 1int] == s[(a + k + 1) as int]);
            assert(u[j as int] == s[(a + j) as int]);
            assert(u[j + 1int] == s[(a + j + 1) as int]);
            assert(marker_at(s, a + k, path_end(s, a + k + 2)));
        }
    }
}

/// Joining two texts without markers by a space gives a text without markers.
pub proof fn lemma_marker_free_join(x: Seq<char>, y: Seq<char>)
    requires
        marker_free(x),
        marker_free(y),
    ensures
        marker_free(x + seq![' '] + y),
{
    let w = x + seq![' '] + y;
    assert forall|k: nat| !#[trigger] marker_at(w, k, path_end(w, k + 2)) by {
        let j = path_end(w, k + 2);
        if marker_at(w, k, j) {
            lemma_path_end_bounds(w, k + 2);
            if j + 1 < x.len() {
                assert(w.subrange(0, x.len() as int) =~= x);
                lemma_path_end_slice(w, 0, x.len(), k + 2);
                assert(marker_at(x, k, path_end(x, k + 2)));
            } else if k >= x.len() + 1 {
                let a = (x.len() + 1) as nat;
                let k2 = (k - a) as nat;
                assert(w.subrange(a as int, w.len() as int) =~= y);
                lemma_path_end_slice(w, a, w.len(), k2 + 2);
                assert(marker_at(y, k2, path_end(y, k2 + 2)));
            } else {
                assert(w[x.len() as int] == ' ');
                if x.len() >= k + 2 && x.len() < j {
                    assert(path_char(w[x.len() as int]));
                }
            }
        }
    }
}

/// Every token of a text carries a text without markers.
pub open spec fn tokens_marker_free(t: Seq<TokenV>) -> bool {
    forall|i: int| 0 <= i < t.len() ==> marker_free(#[trigger] crate::parser::text_of(t[i].kind))
}

proof fn lemma_lex_marker_free(s: Seq<char>, i: nat)
    requires
        marker_free(s),
    ensures
        tokens_marker_free(lex(s, i)),
    decreases s.len() - i,
{
    assert(marker_free(Seq::<char>::empty()));
    if i < s.len() {
        let c = s[i as int];
        if crate::text::white_space(c) {
            lemma_lex_marker_free(s, i + 1);
        } else if c == '<' {
            if i + 1 < s.len() && s[i + 1int] == '/' {
                lemma_lex_marker_free(s, i + 2);
            } else {
                lemma_lex_marker_free(s, i + 1);
            }
            let t = lex(s, i);
            assert forall|m: int| 0 <= m < t.len() implies marker_free(
                #[trigger] crate::parser::text_of(t[m].kind),
            ) by {
                if m > 0 {
                    if i + 1 < s.len() && s[i + 1int] == '/' {
                        assert(t[m] == lex(s, i + 2)[m - 1]);
                    } else {
                        assert(t[m] == lex(s, i + 1)[m - 1]);
                    }
                }
            }
        } else if c == '>' || c == '=' || c == '\'' || c == '"' {
            lemma_lex_marker_free(s, i + 1);
            let t = lex(s, i);
            assert forall|m: int| 0 <= m < t.len() implies marker_free(
                #[trigger] crate::parser::text_of(t[m].kind),
            ) by {
                if m > 0 {
                    assert(t[m] == lex(s, i + 1)[m - 1]);
                }
            }
        } else {
            let j = text_end(s, i + 1);
            lemma_text_end_bounds(s, i + 1);
            lemma_lex_marker_free(s, j);
            lemma_marker_free_slice(s, i, j);
            let t = lex(s, i);
            assert forall|m: int| 0 <= m < t.len() implies marker_free(
                #[trigger] crate::parser::text_of(t[m].kind),
            ) by {
                if m > 0 {
                    assert(t[m] == lex(s, j)[m - 1]);
                }
            }
        }
    }
}

/// The tokens of a text without markers carry no markers.
pub proof fn lemma_tokens_marker_free(s: Seq<char>)
    requires
        marker_free(s),
    ensures
        tokens_marker_free(tokens_of(s)),
{
    lemma_lex_marker_free(s, 0);
}

/// Every attribute value is free of markers.
pub open spec fn attrs_marker_free(a: AttrsV) -> bool {
    forall|i: int| 0 <= i < a.len() ==> marker_free(#[trigger] a[i].1)
}

/// Every text and attribute value in `n` is free of markers.
pub open spec fn texts_marker_free(n: NodeV) -> bool
    decreases n,
{
    match n {
        NodeV::Text(t) => marker_free(t),
        NodeV::Element(e) => {
            &&& attrs_marker_free(e.attributes)
            &&& forall|i: int|
                0 <= i < e.children.len() ==> texts_marker_free(#[trigger] e.children[i])
        },
    }
}

/// `n` holds no directive element.
pub open spec fn directive_free(n: NodeV) -> bool
    decreases n,
{
    match n {
        NodeV::Text(_) => true,
        NodeV::Element(e) => {
            &&& e.tag != directive_tag()
            &&& forall|i: int| 0 <= i < e.children.len() ==> directive_free(#[trigger] e.children[i])
        },
    }
}

proof fn lemma_attr_value_free(t: Seq<TokenV>, i: nat, j: nat)
    requires
        tokens_marker_free(t),
        j <= t.len(),
    ensures
        marker_free(attr_value(t, i, j)),
    decreases j - i,
{
    if j <= i {
        assert(marker_free(Seq::<char>::empty()));
    } else if j == i + 1 {
        assert(marker_free(crate::parser::text_of(t[i as int].kind)));
    } else {
        lemma_attr_value_free(t, i, (j - 1) as nat);
        assert(marker_free(crate::parser::text_of(t[j - 1].kind)));
        lemma_marker_free_join(attr_value(t, i, (j - 1) as nat), crate::parser::text_of(t[j - 1].kind));
    }
}

proof fn lemma_attr_set_free(a: AttrsV, k: Seq<char>, v: Seq<char>)
    requires
        attrs_marker_free(a),
        marker_free(v),
    ensures
        attrs_marker_free(attr_set(a, k, v)),
{
    lemma_attr_index_bounds(a, k, 0);
    let b = attr_set(a, k, v);
    assert forall|i: int| 0 <= i < b.len() implies marker_free(#[trigger] b[i].1) by {
        match attr_index(a, k, 0) {
            Some(j) => {
                if i != j {
                    assert(b[i] == a[i]);
                }
            },
            None => {
                if i < a.len() {
                    assert(b[i] == a[i]);
                }
            },
        }
    }
}

proof fn lemma_parse_attributes_free(t: Seq<TokenV>, p: nat, attrs: AttrsV)
    requires
        tokens_marker_free(t),
        attrs_marker_free(attrs),
    ensures
        parse_attributes(t, p, attrs) matches Ok((a, _)) ==> attrs_marker_free(a),
    decreases t.len() - p,
{
    if p < t.len() {
        if let ETokenV::Text(name) = t[p as int].kind {
            if let Ok(q) = expect_at(t, p + 1, ETokenV::Equal) {
                if q < t.len() && t[q as int].kind is Apostrophe {
                    let r = texts_end(t, q + 1);
                    lemma_texts_end_bounds(t, q + 1);
                    if let Ok(r2) = expect_at(t, r, ETokenV::Apostrophe) {
                        lemma_attr_value_free(t, q + 1, r);
                        lemma_attr_set_free(attrs, name, attr_value(t, q + 1, r));
                        lemma_parse_attributes_free(
                            t,
                            r2,
                            attr_set(attrs, name, attr_value(t, q + 1, r)),
                        );
                    }
                }
            }
        }
    }
}

proof fn lemma_node_free(t: Seq<TokenV>, p: nat)
    requires
        tokens_marker_free(t),
    ensures
        parse_node(t, p) matches Ok((n, _)) ==> texts_marker_free(n),
    decreases t.len() - p, 1nat,
{
    if p < t.len() {
        if t[p as int].kind is Text {
            assert(marker_free(crate::parser::text_of(t[p as int].kind)));
        } else {
            lemma_element_free(t, p);
        }
    }
}

proof fn lemma_element_free(t: Seq<TokenV>, p: nat)
    requires
        tokens_marker_free(t),
    ensures
        parse_element(t, p) matches Ok((n, _)) ==> texts_marker_free(n),
    decreases t.len() - p, 0nat,
{
    let q = if p < t.len() && t[p as int].kind == ETokenV::LessThan {
        p + 1
    } else {
        p
    };
    if q < t.len() {
        if let ETokenV::Text(name) = t[q as int].kind {
            lemma_parse_attributes_free(t, q + 1, Seq::empty());
            lemma_parse_attributes_advances(t, q + 1, Seq::empty());
            if let Ok((attrs, r)) = parse_attributes(t, q + 1, Seq::empty()) {
                if let Ok(c) = expect_at(t, r, ETokenV::GreaterThan) {
                    lemma_children_free(t, c, name, attrs, Seq::empty());
                }
            }
        }
    }
}

proof fn lemma_children_free(
    t: Seq<TokenV>,
    p: nat,
    tag: Seq<char>,
    attrs: AttrsV,
    kids: Seq<NodeV>,
)
    requires
        tokens_marker_free(t),
        attrs_marker_free(attrs),
        forall|i: int| 0 <= i < kids.len() ==> texts_marker_free(#[trigger] kids[i]),
    ensures
        parse_children(t, p, tag, attrs, kids) matches Ok((n, _)) ==> texts_marker_free(n),
    decreases t.len() - p, 2nat,
{
    if p < t.len() && !(t[p as int].kind is LessThanSlash) {
        lemma_node_free(t, p);
        if let Ok((n, q)) = parse_node(t, p) {
            if p < q <= t.len() {
                let more = kids.push(n);
                assert forall|i: int| 0 <= i < more.len() implies texts_marker_free(
                    #[trigger] more[i],
                ) by {
                    if i < kids.len() {
                        assert(more[i] == kids[i]);
                    }
                }
                lemma_children_free(t, q, tag, attrs, more);
            }
        }
    }
}

proof fn lemma_free_is_plain(n: NodeV)
    requires
        texts_marker_free(n),
        directive_free(n),
    ensures
        plain(n),
    decreases n,
{
    if let NodeV::Element(e) = n {
        assert forall|i: int| 0 <= i < e.children.len() implies plain(#[trigger] e.children[i]) by {
            lemma_free_is_plain(e.children[i]);
        }
    }
}

/// A template text without placeholder markers whose tree holds no
/// directive element evaluates, against any scope, to the very tree it
/// parses to.
pub proof fn law_plain_template_unchanged(s: Seq<char>, n: NodeV, v: ScopeV)
    requires
        marker_free(s),
        parse_text(s) == Ok::<NodeV, ParseErrorV>(n),
        directive_free(n),
    ensures
        eval(n, v) == Some(n),
{
    lemma_tokens_marker_free(s);
    lemma_node_free(tokens_of(s), 0);
    lemma_free_is_plain(n);
    lemma_plain_resolved(n, v);
    lemma_eval_resolved(n, v);
}

proof fn lemma_children_unclosed(
    t: Seq<TokenV>,
    p: nat,
    tag: Seq<char>,
    attrs: AttrsV,
    kids: Seq<NodeV>,
)
    requires
        forall|i: int| p <= i < t.len() ==> #[trigger] t[i].kind is Text,
    ensures
        parse_children(t, p, tag, attrs, kids) == Err::<(NodeV, nat), ParseErrorV>(
            ParseErrorV::Unclosed(tag),
        ),
    decreases t.len() - p,
{
    if p < t.len() {
        assert(t[p as int].kind is Text);
        let n = NodeV::Text(t[p as int].kind->Text_0);
        assert(parse_node(t, p) == Ok::<(NodeV, nat), ParseErrorV>((n, p + 1)));
        assert(!(t[p as int].kind is LessThanSlash));
        lemma_children_unclosed(t, p + 1, tag, attrs, kids.push(n));
    }
}

/// An element that is opened and followed only by text, never closed,
/// is reported as an unclosed tag that names it.
pub proof fn law_unclosed_element(t: Seq<TokenV>, tag: Seq<char>)
    requires
        t.len() >= 3,
        t[0].kind == ETokenV::LessThan,
        t[1].kind == ETokenV::Text(tag),
        t[2].kind == ETokenV::GreaterThan,
        forall|i: int| 3 <= i < t.len() ==> #[trigger] t[i].kind is Text,
    ensures
        parse_node(t, 0) == Err::<(NodeV, nat), ParseErrorV>(ParseErrorV::Unclosed(tag)),
{
    assert(parse_attributes(t, 2, Seq::empty()) == Ok::<(AttrsV, nat), ParseErrorV>(
        (Seq::empty(), 2),
    ));
    lemma_children_unclosed(t, 3, tag, Seq::empty(), Seq::empty());
}

} // verus!
