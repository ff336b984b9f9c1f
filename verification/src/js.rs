use vstd::prelude::*;

use crate::dom::{node_view, nodes_view, KindView, Node, NodeKind, NodeView};
use crate::resolve::{attr_of, attr_value, element_attrs, element_attrs_of};
use crate::text::{chars_of, string_from_str, string_of};

verus! {

/// What running a page's scripts produced: the text they passed to `document.write`.
#[derive(Debug)]
pub struct JsExecutionResult {
    pub document_write_buffer: String,
}

/// `html` with the text written by scripts placed before the last `</body>`, or at the end
/// without one; `html` itself when nothing was written.
pub open spec fn with_writes(html: Seq<char>, written: Seq<char>) -> Seq<char> {
    if written.len() == 0 {
        html
    } else {
        match crate::text::rfind(html, "</body>"@) {
            Some(p) => html.subrange(0, p) + written + html.subrange(p, html.len() as int),
            None => html + written,
        }
    }
}

/// Places the text that scripts wrote into the document.
pub fn insert_document_writes(html: &str, result: &JsExecutionResult) -> (r: String)
    ensures
        r@ == with_writes(html@, result.document_write_buffer@),
{
    let w = chars_of(result.document_write_buffer.as_str());
    if w.len() == 0 {
        return string_from_str(html);
    }
    let s = chars_of(html);
    let close = chars_of("</body>");
    match crate::text::rfind_chars(s.as_slice(), close.as_slice()) {
        Some(p) => {
            proof {
                crate::text::lemma_rfind_upto_props(s@, close@, s@.len() - close@.len());
            }
            let mut out = crate::text::subrange_vec(s.as_slice(), 0, p);
            crate::text::extend_vec(&mut out, w.as_slice());
            let rest = crate::text::subrange_vec(s.as_slice(), p, s.len());
            crate::text::extend_vec(&mut out, rest.as_slice());
            string_of(out.as_slice())
        },
        None => {
            let mut out = s;
            crate::text::extend_vec(&mut out, w.as_slice());
            string_of(out.as_slice())
        },
    }
}

/// Whether a script's code is worth running: not empty or only white space.
pub fn has_script_code(code: &str) -> (r: bool)
    ensures
        r == (crate::text::trim(code@).len() > 0),
{
    let t = crate::text::trim_vec(chars_of(code).as_slice());
    t.len() > 0
}

// ---------------------------------------------------------------------------
// Scripts of a document
// ---------------------------------------------------------------------------

/// Where a script's code comes from: the address in its `src`, or its own text.
#[derive(Clone, Debug, PartialEq, Eq)]
pub enum ScriptSource {
    External(String),
    Inline(String),
}

/// A `ScriptSource` by its characters.
pub enum SourceView {
    External(Seq<char>),
    Inline(Seq<char>),
}

pub open spec fn source_view(s: ScriptSource) -> SourceView {
    match s {
        ScriptSource::External(a) => SourceView::External(a@),
        ScriptSource::Inline(c) => SourceView::Inline(c@),
    }
}

/// Script sources by their characters.
pub open spec fn sources_view(v: Seq<ScriptSource>) -> Seq<SourceView> {
    v.map_values(|s: ScriptSource| source_view(s))
}

/// The text of the text nodes in the tree `v`, in document order.
pub open spec fn text_content(v: NodeView) -> Seq<char>
    decreases v, 1int, 0int,
{
    let own = match v.kind {
        KindView::Text(t) => t,
        _ => seq![],
    };
    own + text_content_from(v.children, 0)
}

/// `text_content` of the trees of `cs` from index `i` on, one after another.
pub open spec fn text_content_from(cs: Seq<NodeView>, i: int) -> Seq<char>
    decreases cs, 0int, cs.len() - i,
{
    if 0 <= i < cs.len() {
        text_content(cs[i]) + text_content_from(cs, i + 1)
    } else {
        seq![]
    }
}

/// The script that the node `v` itself stands for: a `script` element with a `src` is an
/// external script; one without runs its text, when that is not only white space.
pub open spec fn own_script(v: NodeView) -> Seq<SourceView> {
    match element_attrs(v, "script"@) {
        Some(attrs) => match attr_of(attrs, "src"@) {
            Some(a) => seq![SourceView::External(a)],
            None => {
                let code = text_content_from(v.children, 0);
                if crate::text::trim(code).len() > 0 {
                    seq![SourceView::Inline(code)]
                } else {
                    seq![]
                }
            },
        },
        None => seq![],
    }
}

/// The scripts of the tree `v` that run, in document order.
pub open spec fn script_sources(v: NodeView) -> Seq<SourceView>
    decreases v, 1int, 0int,
{
    own_script(v) + script_sources_from(v.children, 0)
}

/// `script_sources` of the trees of `cs` from index `i` on, one after another.
pub open spec fn script_sources_from(cs: Seq<NodeView>, i: int) -> Seq<SourceView>
    decreases cs, 0int, cs.len() - i,
{
    if 0 <= i < cs.len() {
        script_sources(cs[i]) + script_sources_from(cs, i + 1)
    } else {
        seq![]
    }
}

/// Adds to `out` the text of the text nodes of the tree of `node`.
fn push_text_content(node: &Node, out: &mut Vec<char>)
    ensures
        final(out)@ == old(out)@ + text_content(node_view(*node)),
    decreases node,
{
    let ghost v = node_view(*node);
    let ghost start = out@;
    proof {
        crate::dom::lemma_node_view(*node);
    }
    match &node.kind {
        NodeKind::Text(t) => {
            let c = chars_of(t.as_str());
            crate::text::extend_vec(out, c.as_slice());
        },
        _ => {},
    }
    let ghost own = match v.kind {
        KindView::Text(t) => t,
        _ => Seq::<char>::empty(),
    };
    assert(out@ =~= start + own);
    let mut i: usize = 0;
    while i < node.children.len()
        invariant
            v == node_view(*node),
            v.children == nodes_view(node.children@),
            i <= node.children@.len(),
            out@ + text_content_from(v.children, i as int) == start + text_content(v),
        decreases node.children@.len() - i,
    {
        let ghost before = out@;
        push_text_content(&node.children[i], out);
        assert(v.children[i as int] == node_view(node.children@[i as int]));
        assert(before + text_content_from(v.children, i as int) =~= out@ + text_content_from(
            v.children,
            i + 1,
        ));
        i = i + 1;
    }
    assert(out@ + text_content_from(v.children, i as int) =~= out@);
}

/// The text of the text nodes under the children of `node`, in document order.
fn children_text(node: &Node) -> (r: Vec<char>)
    ensures
        r@ == text_content_from(node_view(*node).children, 0),
{
    let ghost v = node_view(*node);
    proof {
        crate::dom::lemma_node_view(*node);
    }
    let mut out: Vec<char> = Vec::new();
    let mut i: usize = 0;
    while i < node.children.len()
        invariant
            v == node_view(*node),
            v.children == nodes_view(node.children@),
            i <= node.children@.len(),
            out@ + text_content_from(v.children, i as int) == text_content_from(v.children, 0),
        decreases node.children@.len() - i,
    {
        let ghost before = out@;
        push_text_content(&node.children[i], &mut out);
        assert(v.children[i as int] == node_view(node.children@[i as int]));
        assert(before + text_content_from(v.children, i as int) =~= out@ + text_content_from(
            v.children,
            i + 1,
        ));
        i = i + 1;
    }
    assert(out@ + text_content_from(v.children, i as int) =~= out@);
    out
}

/// Adds to `out` the scripts of the tree of `node` that run, in document order: the `src`
/// of each `script` element that has one, else its text when that is not only white space.
pub fn collect_scripts(node: &Node, out: &mut Vec<ScriptSource>)
    ensures
        sources_view(final(out)@) == sources_view(old(out)@) + script_sources(node_view(*node)),
    decreases node,
{
    let ghost v = node_view(*node);
    let ghost start = sources_view(out@);
    proof {
        crate::dom::lemma_node_view(*node);
    }
    match element_attrs_of(node, "script") {
        Some(attrs) => match attr_value(attrs, "src") {
            Some(a) => {
                out.push(ScriptSource::External(a));
            },
            None => {
                let code = children_text(node);
                let text = string_of(code.as_slice());
                if has_script_code(text.as_str()) {
                    out.push(ScriptSource::Inline(text));
                }
            },
        },
        None => {},
    }
    assert(sources_view(out@) =~= start + own_script(v));
    let mut i: usize = 0;
    while i < node.children.len()
        invariant
            v == node_view(*node),
            v.children == nodes_view(node.children@),
            i <= node.children@.len(),
            sources_view(out@) + script_sources_from(v.children, i as int) == start
                + script_sources(v),
        decreases node.children@.len() - i,
    {
        let ghost before = sources_view(out@);
        collect_scripts(&node.children[i], out);
        assert(v.children[i as int] == node_view(node.children@[i as int]));
        assert(before + script_sources_from(v.children, i as int) =~= sources_view(out@)
            + script_sources_from(v.children, i + 1));
        i = i + 1;
    }
    assert(sources_view(out@) + script_sources_from(v.children, i as int) =~= sources_view(out@));
}

} // verus!
