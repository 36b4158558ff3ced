//! Rendering a tree back to markup text.
use vstd::prelude::*;
use crate::parser::{attrs_view, elem_view, lemma_nodes_view, nodes_view, AttrsV, HtmlElement, Node, NodeV};
use crate::text::append_string;

verus! {

/// The attributes as ` name="value"` pairs, in order.
pub open spec fn attrs_markup(a: AttrsV) -> Seq<char>
    decreases a.len(),
{
    if a.len() == 0 {
        Seq::empty()
    } else {
        attrs_markup(a.drop_last()) + " "@ + a.last().0 + "=\""@ + a.last().1 + "\""@
    }
}

/// The markup text of a node.
pub open spec fn markup(n: NodeV) -> Seq<char>
    decreases n, 0nat,
{
    match n {
        NodeV::Text(t) => t,
        NodeV::Element(e) => "<"@ + e.tag + attrs_markup(e.attributes) + ">"@ + markup_all(
            e.children,
        ) + "</"@ + e.tag + ">"@,
    }
}

/// The markup texts of `cs`, one after the other.
pub open spec fn markup_all(cs: Seq<NodeV>) -> Seq<char>
    decreases cs, 0nat,
{
    if cs.len() == 0 {
        Seq::empty()
    } else {
        markup_all(cs.drop_last()) + markup(cs.last())
    }
}

impl Node {
    /// This tree as markup text.
    pub fn node_to_html(&self) -> (r: String)
        ensures
            r@ == markup(self@),
        decreases self,
    {
        match self {
            Node::Text(t) => t.clone(),
            Node::Element(e) => element_to_html(e),
        }
    }
}

fn element_to_html(e: &HtmlElement) -> (r: String)
    ensures
        r@ == markup(NodeV::Element(elem_view(e))),
    decreases e,
{
    let ghost a = attrs_view(e.attributes@);
    let mut out = String::from_str("<");
    append_string(&mut out, &e.tag);
    let ghost head = out@;
    let mut i: usize = 0;
    assert(a.take(0) =~= Seq::<(Seq<char>, Seq<char>)>::empty());
    assert(out@ =~= head + attrs_markup(a.take(0)));
    while i < e.attributes.len()
        invariant
            a == attrs_view(e.attributes@),
            i <= e.attributes@.len(),
            out@ == head + attrs_markup(a.take(i as int)),
        decreases e.attributes@.len() - i,
    {
        out.append(" ");
        append_string(&mut out, &e.attributes[i].0);
        out.append("=\"");
        append_string(&mut out, &e.attributes[i].1);
        out.append("\"");
        assert(a.take(i + 1).drop_last() =~= a.take(i as int));
        assert(out@ =~= head + attrs_markup(a.take(i + 1)));
        i += 1;
    }
    assert(a.take(i as int) =~= a);
    out.append(">");
    let ghost mid = out@;
    let ghost cs = nodes_view(e.children@);
    proof {
        lemma_nodes_view(e.children@);
    }
    let mut k: usize = 0;
    assert(cs.take(0) =~= Seq::<NodeV>::empty());
    assert(out@ =~= mid + markup_all(cs.take(0)));
    while k < e.children.len()
        invariant
            cs == nodes_view(e.children@),
            cs.len() == e.children@.len(),
            forall|j: int| 0 <= j < e.children@.len() ==> #[trigger] cs[j] == e.children@[j]@,
            k <= e.children@.len(),
            out@ == mid + markup_all(cs.take(k as int)),
        decreases e.children@.len() - k,
    {
        proof {
            assert(decreases_to!(e.children => e.children@));
            assert(decreases_to!(e.children@ => e.children@[k as int]));
            assert(cs.take(k + 1).drop_last() =~= cs.take(k as int));
            assert(cs.take(k + 1).last() == cs[k as int]);
        }
        let child = e.children[k].node_to_html();
        append_string(&mut out, &child);
        assert(out@ =~= mid + markup_all(cs.take(k + 1)));
        k += 1;
    }
    assert(cs.take(k as int) =~= cs);
    out.append("</");
    append_string(&mut out, &e.tag);
    out.append(">");
    assert(out@ =~= markup(NodeV::Element(elem_view(e))));
    out
}

} // verus!
