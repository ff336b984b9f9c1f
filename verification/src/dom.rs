use vstd::prelude::*;

use ego_tree::iter::Edge;
use scraper::{Html, Node as ScraperNode};

verus! {

// ---------------------------------------------------------------------------
// Document tree
// ---------------------------------------------------------------------------

/// What a node of a document is.
#[derive(Clone, Debug)]
pub enum NodeKind {
    Document,
    Element { tag: String, attrs: Vec<(String, String)> },
    Text(String),
    Comment(String),
    Doctype,
}

/// A node of a document and its children, in document order.
#[derive(Debug)]
pub struct Node {
    pub kind: NodeKind,
    pub children: Vec<Node>,
}

/// A `NodeKind` with its texts as character sequences.
pub enum KindView {
    Document,
    Element { tag: Seq<char>, attrs: Seq<(Seq<char>, Seq<char>)> },
    Text(Seq<char>),
    Comment(Seq<char>),
    Doctype,
}

/// A `Node` with its texts as character sequences.
pub struct NodeView {
    pub kind: KindView,
    pub children: Seq<NodeView>,
}

pub open spec fn pairs_view(v: Seq<(String, String)>) -> Seq<(Seq<char>, Seq<char>)> {
    v.map_values(|a: (String, String)| (a.0@, a.1@))
}

pub open spec fn kind_view(k: NodeKind) -> KindView {
    match k {
        NodeKind::Document => KindView::Document,
        NodeKind::Element { tag, attrs } => KindView::Element { tag: tag@, attrs: pairs_view(attrs@) },
        NodeKind::Text(t) => KindView::Text(t@),
        NodeKind::Comment(t) => KindView::Comment(t@),
        NodeKind::Doctype => KindView::Doctype,
    }
}

pub open spec fn empty_node_view() -> NodeView {
    NodeView { kind: KindView::Document, children: seq![] }
}

/// The tree that a `Node` stands for.
pub open spec fn node_view(n: Node) -> NodeView
    decreases n,
{
    NodeView {
        kind: kind_view(n.kind),
        children: Seq::new(
            n.children@.len(),
            |i: int|
                if 0 <= i < n.children@.len() {
                    node_view(n.children@[i])
                } else {
                    empty_node_view()
                },
        ),
    }
}

// ---------------------------------------------------------------------------
// Parsing
// ---------------------------------------------------------------------------

/// The kinds of node that the HTML parser makes.
#[derive(Clone, Debug)]
pub enum RawNode {
    Document,
    Fragment,
    Doctype,
    ProcessingInstruction,
    Comment(String),
    Text(String),
    Element(String, Vec<(String, String)>),
}

/// One step of a walk over a parsed document: entering a node, or leaving the node entered
/// last.
#[derive(Clone, Debug)]
pub enum HtmlEvent {
    Open(RawNode),
    Close,
}

pub enum RawView {
    Document,
    Fragment,
    Doctype,
    ProcessingInstruction,
    Comment(Seq<char>),
    Text(Seq<char>),
    Element(Seq<char>, Seq<(Seq<char>, Seq<char>)>),
}

pub enum EventView {
    Open(RawView),
    Close,
}

pub open spec fn raw_view(r: RawNode) -> RawView {
    match r {
        RawNode::Document => RawView::Document,
        RawNode::Fragment => RawView::Fragment,
        RawNode::Doctype => RawView::Doctype,
        RawNode::ProcessingInstruction => RawView::ProcessingInstruction,
        RawNode::Comment(t) => RawView::Comment(t@),
        RawNode::Text(t) => RawView::Text(t@),
        RawNode::Element(n, a) => RawView::Element(n@, pairs_view(a@)),
    }
}

pub open spec fn events_view(v: Seq<HtmlEvent>) -> Seq<EventView> {
    v.map_values(
        |e: HtmlEvent|
            match e {
                HtmlEvent::Open(r) => EventView::Open(raw_view(r)),
                HtmlEvent::Close => EventView::Close,
            },
    )
}

/// The walk over the tree that the HTML5 parser builds from `html` (the `scraper` crate's
/// `Html::parse_document`, walked with `ego_tree`'s `traverse`).
pub uninterp spec fn html_walk(html: Seq<char>) -> Seq<EventView>;

/// Parses `html` as a document with `scraper::Html::parse_document` and walks the tree with
/// `ego_tree`'s `traverse`, one event a step. The contract names the result: it is the walk
/// of the parsed document, a function of the text alone.
#[verifier::external_body]
fn parse_walk(html: &str) -> (r: Vec<HtmlEvent>)
    ensures
        events_view(r@) == html_walk(html@),
{
    Html::parse_document(html).tree.root().traverse().map(|edge| match edge {
        Edge::Close(_) => HtmlEvent::Close,
        Edge::Open(n) => HtmlEvent::Open(match n.value() {
            ScraperNode::Document => RawNode::Document,
            ScraperNode::Fragment => RawNode::Fragment,
            ScraperNode::Doctype(_) => RawNode::Doctype,
            ScraperNode::ProcessingInstruction(_) => RawNode::ProcessingInstruction,
            ScraperNode::Comment(c) => RawNode::Comment(c.to_string()),
            ScraperNode::Text(t) => RawNode::Text(t.to_string()),
            ScraperNode::Element(e) => RawNode::Element(e.name().to_string(), e.attrs().map(|(k, v)| (k.to_string(), v.to_string())).collect()),
        }),
    }).collect()
}

/// Whether a node of this kind is left out of the tree: comments, doctypes and processing
/// instructions.
pub open spec fn ignored(r: RawView) -> bool {
    r is Comment || r is Doctype || r is ProcessingInstruction
}

pub fn is_ignored(node: &RawNode) -> (r: bool)
    ensures
        r == ignored(raw_view(*node)),
{
    match node {
        RawNode::Comment(_) | RawNode::Doctype | RawNode::ProcessingInstruction => true,
        _ => false,
    }
}

/// The kind of tree node that a parsed node becomes.
pub open spec fn converted_kind(r: RawView) -> KindView {
    match r {
        RawView::Document | RawView::Fragment => KindView::Document,
        RawView::Doctype | RawView::ProcessingInstruction => KindView::Doctype,
        RawView::Element(n, a) => KindView::Element { tag: n, attrs: a },
        RawView::Text(t) => KindView::Text(t),
        RawView::Comment(t) => KindView::Comment(t),
    }
}

/// The node whose `Open` event stands at `i`, built from the walk, and the index after its
/// `Close` (or the end of the walk).
pub open spec fn tree_from(ev: Seq<EventView>, i: int) -> (NodeView, int)
    decreases ev.len() - i, 1int,
{
    if 0 <= i < ev.len() {
        match ev[i] {
            EventView::Open(r) => {
                let (children, j) = forest_from(ev, i + 1, seq![]);
                let end = if 0 <= j < ev.len() && ev[j] is Close {
                    j + 1
                } else {
                    j
                };
                (NodeView { kind: converted_kind(r), children }, end)
            },
            EventView::Close => (empty_node_view(), i + 1),
        }
    } else {
        (empty_node_view(), i)
    }
}

/// The children met from index `i` until a `Close` or the end of the walk, added to `acc`,
/// leaving out the ignored ones; and the index where they end.
pub open spec fn forest_from(ev: Seq<EventView>, i: int, acc: Seq<NodeView>) -> (Seq<NodeView>, int)
    decreases ev.len() - i, 2int,
{
    if 0 <= i < ev.len() && ev[i] is Open {
        let (child, k) = tree_from(ev, i);
        let acc2 = if ignored(ev[i]->Open_0) {
            acc
        } else {
            acc.push(child)
        };
        if i < k <= ev.len() {
            forest_from(ev, k, acc2)
        } else {
            (acc2, k)
        }
    } else {
        (acc, i)
    }
}

/// The tree that a walk describes: the node of its first event.
pub open spec fn tree_of_walk(ev: Seq<EventView>) -> NodeView {
    tree_from(ev, 0).0
}

} // verus!

verus! {

/// The trees of a sequence of nodes.
pub open spec fn nodes_view(v: Seq<Node>) -> Seq<NodeView> {
    Seq::new(v.len(), |i: int| node_view(v[i]))
}

/// The view of a node is made of the views of its kind and children.
pub proof fn lemma_node_view(n: Node)
    ensures
        node_view(n).kind == kind_view(n.kind),
        node_view(n).children == nodes_view(n.children@),
{
    assert(node_view(n).children =~= nodes_view(n.children@));
}

fn copy_string(s: &String) -> (r: String)
    ensures
        r@ == s@,
{
    crate::text::string_from_str(s.as_str())
}

fn copy_pairs(v: &Vec<(String, String)>) -> (r: Vec<(String, String)>)
    ensures
        pairs_view(r@) == pairs_view(v@),
{
    let mut r: Vec<(String, String)> = Vec::new();
    let mut i: usize = 0;
    while i < v.len()
        invariant
            i <= v@.len(),
            pairs_view(r@) == pairs_view(v@).take(i as int),
        decreases v@.len() - i,
    {
        let ghost before = pairs_view(r@);
        let a = copy_string(&v[i].0);
        let b = copy_string(&v[i].1);
        r.push((a, b));
        assert(pairs_view(r@) =~= before.push((v@[i as int].0@, v@[i as int].1@)));
        assert(pairs_view(v@).take(i + 1) =~= pairs_view(v@).take(i as int).push(
            pairs_view(v@)[i as int],
        ));
        i = i + 1;
    }
    assert(pairs_view(v@).take(i as int) =~= pairs_view(v@));
    r
}

fn convert_kind(r: &RawNode) -> (k: NodeKind)
    ensures
        kind_view(k) == converted_kind(raw_view(*r)),
{
    match r {
        RawNode::Document | RawNode::Fragment => NodeKind::Document,
        RawNode::Doctype | RawNode::ProcessingInstruction => NodeKind::Doctype,
        RawNode::Element(n, a) => NodeKind::Element { tag: copy_string(n), attrs: copy_pairs(a) },
        RawNode::Text(t) => NodeKind::Text(copy_string(t)),
        RawNode::Comment(t) => NodeKind::Comment(copy_string(t)),
    }
}

fn empty_node() -> (n: Node)
    ensures
        node_view(n) == empty_node_view(),
{
    let n = Node { kind: NodeKind::Document, children: Vec::new() };
    assert(node_view(n).children =~= Seq::<NodeView>::empty());
    n
}

fn opens(e: &HtmlEvent) -> (r: bool)
    ensures
        r == (*e is Open),
{
    match e {
        HtmlEvent::Open(_) => true,
        HtmlEvent::Close => false,
    }
}

/// Builds the node whose `Open` event stands at `i`; returns it and the index after it.
fn tree_exec(ev: &Vec<HtmlEvent>, i: usize) -> (r: (Node, usize))
    requires
        i < ev@.len(),
    ensures
        (node_view(r.0), r.1 as int) == tree_from(events_view(ev@), i as int),
        i < r.1 <= ev@.len(),
    decreases ev@.len() - i,
{
    let ghost evs = events_view(ev@);
    let n = ev.len();
    assert(i + 1 <= n);
    match &ev[i] {
        HtmlEvent::Close => {
            (empty_node(), i + 1)
        },
        HtmlEvent::Open(raw) => {
            assert(evs[i as int] == EventView::Open(raw_view(*raw)));
            let kind = convert_kind(raw);
            let mut children: Vec<Node> = Vec::new();
            let mut j = i + 1;
            assert(nodes_view(children@) =~= seq![]);
            while j < ev.len() && opens(&ev[j])
                invariant
                    evs == events_view(ev@),
                    i < j <= ev@.len(),
                    forest_from(evs, j as int, nodes_view(children@)) == forest_from(
                        evs,
                        i + 1,
                        seq![],
                    ),
                decreases ev@.len() - j,
            {
                let (child, k) = tree_exec(ev, j);
                let ghost before = nodes_view(children@);
                let skip = match &ev[j] {
                    HtmlEvent::Open(r) => is_ignored(r),
                    HtmlEvent::Close => false,
                };
                assert(evs[j as int] is Open);
                if !skip {
                    children.push(child);
                    assert(nodes_view(children@) =~= before.push(node_view(child)));
                }
                j = k;
            }
            let end = if j < ev.len() && !opens(&ev[j]) {
                j + 1
            } else {
                j
            };
            let node = Node { kind, children };
            proof {
                lemma_node_view(node);
            }
            (node, end)
        },
    }
}

/// The tree that a walk over a parsed document describes.
pub fn tree_of_events(events: &Vec<HtmlEvent>) -> (r: Node)
    ensures
        node_view(r) == tree_of_walk(events_view(events@)),
{
    if events.len() > 0 {
        tree_exec(events, 0).0
    } else {
        empty_node()
    }
}

/// Parses an HTML document into a tree, leaving out comments, doctypes and processing
/// instructions.
pub fn parse(html: &str) -> (r: Node)
    ensures
        node_view(r) == tree_of_walk(html_walk(html@)),
{
    let events = parse_walk(html);
    tree_of_events(&events)
}

} // verus!
