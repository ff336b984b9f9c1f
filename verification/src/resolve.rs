use vstd::prelude::*;

use crate::dom::{node_view, nodes_view, pairs_view, KindView, Node, NodeKind, NodeView};
use crate::text::{
    chars_of, eq_ignore_case, eq_ignore_case_vec, is_word, string_from_str, string_of,
    strings_view,
};

verus! {

// ---------------------------------------------------------------------------
// Attributes and elements
// ---------------------------------------------------------------------------

/// The value of the first attribute named `name`.
pub open spec fn attr_of(attrs: Seq<(Seq<char>, Seq<char>)>, name: Seq<char>) -> Option<Seq<char>>
    decreases attrs.len(),
{
    if attrs.len() == 0 {
        None
    } else if attrs[0].0 == name {
        Some(attrs[0].1)
    } else {
        attr_of(attrs.subrange(1, attrs.len() as int), name)
    }
}

/// The value of the attribute `name` of an element.
pub fn attr_value(attrs: &Vec<(String, String)>, name: &str) -> (r: Option<String>)
    ensures
        match r {
            Some(v) => attr_of(pairs_view(attrs@), name@) == Some(v@),
            None => attr_of(pairs_view(attrs@), name@) is None,
        },
{
    let ghost pv = pairs_view(attrs@);
    let target = chars_of(name);
    let mut i: usize = 0;
    assert(pv.subrange(0, pv.len() as int) =~= pv);
    while i < attrs.len()
        invariant
            pv == pairs_view(attrs@),
            target@ == name@,
            i <= attrs@.len(),
            attr_of(pv, name@) == attr_of(pv.subrange(i as int, pv.len() as int), name@),
        decreases attrs@.len() - i,
    {
        let key = chars_of(attrs[i].0.as_str());
        let ghost rest = pv.subrange(i as int, pv.len() as int);
        assert(rest[0] == (attrs@[i as int].0@, attrs@[i as int].1@));
        assert(rest.subrange(1, rest.len() as int) =~= pv.subrange(i + 1, pv.len() as int));
        if is_word(key.as_slice(), name) {
            return Some(string_from_str(attrs[i].1.as_str()));
        }
        i = i + 1;
    }
    assert(pv.subrange(i as int, pv.len() as int) =~= Seq::<(Seq<char>, Seq<char>)>::empty());
    None
}

/// The attributes of `v` when it is an element named `tag` (in any ASCII case).
pub open spec fn element_attrs(v: NodeView, tag: Seq<char>) -> Option<Seq<(Seq<char>, Seq<char>)>> {
    match v.kind {
        KindView::Element { tag: t, attrs } => if eq_ignore_case(t, tag) {
            Some(attrs)
        } else {
            None
        },
        _ => None,
    }
}

/// The attributes of `node` when it is an element named `tag` (in any ASCII case).
pub fn element_attrs_of<'a>(node: &'a Node, tag: &str) -> (r: Option<&'a Vec<(String, String)>>)
    ensures
        match r {
            Some(a) => element_attrs(node_view(*node), tag@) == Some(pairs_view(a@)),
            None => element_attrs(node_view(*node), tag@) is None,
        },
{
    match &node.kind {
        NodeKind::Element { tag: t, attrs } => {
            let tc = chars_of(t.as_str());
            let want = chars_of(tag);
            if eq_ignore_case_vec(tc.as_slice(), want.as_slice()) {
                Some(attrs)
            } else {
                None
            }
        },
        _ => None,
    }
}

// ---------------------------------------------------------------------------
// Collecting attribute values
// ---------------------------------------------------------------------------

/// The `attr` values of the elements named `tag` in the tree `v`, in document order.
pub open spec fn tagged_values(v: NodeView, tag: Seq<char>, attr: Seq<char>) -> Seq<Seq<char>>
    decreases v, 1int, 0int,
{
    let own = match element_attrs(v, tag) {
        Some(attrs) => match attr_of(attrs, attr) {
            Some(x) => seq![x],
            None => seq![],
        },
        None => seq![],
    };
    own + tagged_values_from(v.children, 0, tag, attr)
}

/// `tagged_values` of the trees of `cs` from index `i` on, one after another.
pub open spec fn tagged_values_from(cs: Seq<NodeView>, i: int, tag: Seq<char>, attr: Seq<char>) -> Seq<
    Seq<char>,
>
    decreases cs, 0int, cs.len() - i,
{
    if 0 <= i < cs.len() {
        tagged_values(cs[i], tag, attr) + tagged_values_from(cs, i + 1, tag, attr)
    } else {
        seq![]
    }
}

/// Adds to `out` the `attr` values of the elements named `tag` in the tree of `node`.
pub fn collect_tagged_values(node: &Node, tag: &str, attr: &str, out: &mut Vec<String>)
    ensures
        strings_view(final(out)@) == strings_view(old(out)@) + tagged_values(
            node_view(*node),
            tag@,
            attr@,
        ),
    decreases node,
{
    let ghost v = node_view(*node);
    let ghost start = strings_view(out@);
    proof {
        crate::dom::lemma_node_view(*node);
    }
    let ghost own: Seq<Seq<char>> = match element_attrs(v, tag@) {
        Some(attrs) => match attr_of(attrs, attr@) {
            Some(x) => seq![x],
            None => seq![],
        },
        None => seq![],
    };
    match element_attrs_of(node, tag) {
        Some(attrs) => match attr_value(attrs, attr) {
            Some(x) => {
                out.push(x);
                assert(strings_view(out@) =~= start + own);
            },
            None => {
                assert(strings_view(out@) =~= start + own);
            },
        },
        None => {
            assert(strings_view(out@) =~= start + own);
        },
    }
    let mut i: usize = 0;
    while i < node.children.len()
        invariant
            v == node_view(*node),
            v.children == nodes_view(node.children@),
            i <= node.children@.len(),
            strings_view(out@) + tagged_values_from(v.children, i as int, tag@, attr@) == start
                + tagged_values(v, tag@, attr@),
        decreases node.children@.len() - i,
    {
        let ghost before = strings_view(out@);
        collect_tagged_values(&node.children[i], tag, attr, out);
        assert(v.children[i as int] == node_view(node.children@[i as int]));
        assert(before + tagged_values_from(v.children, i as int, tag@, attr@) =~= strings_view(out@)
            + tagged_values_from(v.children, i + 1, tag@, attr@));
        i = i + 1;
    }
    assert(strings_view(out@) + tagged_values_from(v.children, i as int, tag@, attr@) =~= strings_view(out@));
}

/// Adds to `out` the `src` of each `frame` element of the tree of `node`, in document order.
pub fn collect_frame_srcs(node: &Node, out: &mut Vec<String>)
    ensures
        strings_view(final(out)@) == strings_view(old(out)@) + tagged_values(
            node_view(*node),
            "frame"@,
            "src"@,
        ),
{
    collect_tagged_values(node, "frame", "src", out)
}

/// Adds to `out` the `src` of each `iframe` element of the tree of `node`, in document order.
pub fn collect_iframe_srcs(node: &Node, out: &mut Vec<String>)
    ensures
        strings_view(final(out)@) == strings_view(old(out)@) + tagged_values(
            node_view(*node),
            "iframe"@,
            "src"@,
        ),
{
    collect_tagged_values(node, "iframe", "src", out)
}

} // verus!

verus! {

/// The `href` of `v` when it is a `link` element whose `rel` is `stylesheet` (both in any
/// ASCII case).
pub open spec fn own_stylesheet_href(v: NodeView) -> Seq<Seq<char>> {
    match element_attrs(v, "link"@) {
        Some(attrs) => {
            let rel = match attr_of(attrs, "rel"@) {
                Some(r) => r,
                None => seq![],
            };
            if eq_ignore_case(rel, "stylesheet"@) {
                match attr_of(attrs, "href"@) {
                    Some(h) => seq![h],
                    None => seq![],
                }
            } else {
                seq![]
            }
        },
        None => seq![],
    }
}

/// The `href` of each stylesheet `link` in the tree `v`, in document order.
pub open spec fn stylesheet_hrefs(v: NodeView) -> Seq<Seq<char>>
    decreases v, 1int, 0int,
{
    own_stylesheet_href(v) + stylesheet_hrefs_from(v.children, 0)
}

pub open spec fn stylesheet_hrefs_from(cs: Seq<NodeView>, i: int) -> Seq<Seq<char>>
    decreases cs, 0int, cs.len() - i,
{
    if 0 <= i < cs.len() {
        stylesheet_hrefs(cs[i]) + stylesheet_hrefs_from(cs, i + 1)
    } else {
        seq![]
    }
}

fn own_link_href(node: &Node) -> (r: Option<String>)
    ensures
        match r {
            Some(h) => own_stylesheet_href(node_view(*node)) == seq![h@],
            None => own_stylesheet_href(node_view(*node)) == Seq::<Seq<char>>::empty(),
        },
{
    match element_attrs_of(node, "link") {
        Some(attrs) => {
            let rel = match attr_value(attrs, "rel") {
                Some(r) => chars_of(r.as_str()),
                None => Vec::new(),
            };
            let sheet = chars_of("stylesheet");
            if eq_ignore_case_vec(rel.as_slice(), sheet.as_slice()) {
                attr_value(attrs, "href")
            } else {
                None
            }
        },
        None => None,
    }
}

/// Adds to `out` the `href` of each stylesheet `link` in the tree of `node`.
pub fn collect_link_hrefs(node: &Node, out: &mut Vec<String>)
    ensures
        strings_view(final(out)@) == strings_view(old(out)@) + stylesheet_hrefs(node_view(*node)),
    decreases node,
{
    let ghost v = node_view(*node);
    let ghost start = strings_view(out@);
    proof {
        crate::dom::lemma_node_view(*node);
    }
    match own_link_href(node) {
        Some(h) => {
            out.push(h);
        },
        None => {},
    }
    assert(strings_view(out@) =~= start + own_stylesheet_href(v));
    let mut i: usize = 0;
    while i < node.children.len()
        invariant
            v == node_view(*node),
            v.children == nodes_view(node.children@),
            i <= node.children@.len(),
            strings_view(out@) + stylesheet_hrefs_from(v.children, i as int) == start
                + stylesheet_hrefs(v),
        decreases node.children@.len() - i,
    {
        let ghost before = strings_view(out@);
        collect_link_hrefs(&node.children[i], out);
        assert(v.children[i as int] == node_view(node.children@[i as int]));
        assert(before + stylesheet_hrefs_from(v.children, i as int) =~= strings_view(out@)
            + stylesheet_hrefs_from(v.children, i + 1));
        i = i + 1;
    }
    assert(strings_view(out@) + stylesheet_hrefs_from(v.children, i as int) =~= strings_view(out@));
}

// ---------------------------------------------------------------------------
// Framesets
// ---------------------------------------------------------------------------

/// A `frameset` element: its `cols` and `rows` and the `src` of its frames.
#[derive(Debug)]
pub struct FramesetSpec {
    pub cols: Option<String>,
    pub rows: Option<String>,
    pub frames: Vec<String>,
}

pub struct FramesetView {
    pub cols: Option<Seq<char>>,
    pub rows: Option<Seq<char>>,
    pub frames: Seq<Seq<char>>,
}

pub open spec fn frameset_view(f: FramesetSpec) -> FramesetView {
    FramesetView {
        cols: crate::style::opt_view(f.cols),
        rows: crate::style::opt_view(f.rows),
        frames: strings_view(f.frames@),
    }
}

pub open spec fn framesets_view(v: Seq<FramesetSpec>) -> Seq<FramesetView> {
    v.map_values(|f: FramesetSpec| frameset_view(f))
}

/// The outermost `frameset` elements of the tree `v`, in document order: a frameset's own
/// frames are gathered from its whole subtree, and nothing inside it is searched further.
pub open spec fn framesets(v: NodeView) -> Seq<FramesetView>
    decreases v, 1int, 0int,
{
    match element_attrs(v, "frameset"@) {
        Some(attrs) => seq![
            FramesetView {
                cols: attr_of(attrs, "cols"@),
                rows: attr_of(attrs, "rows"@),
                frames: tagged_values(v, "frame"@, "src"@),
            },
        ],
        None => framesets_from(v.children, 0),
    }
}

pub open spec fn framesets_from(cs: Seq<NodeView>, i: int) -> Seq<FramesetView>
    decreases cs, 0int, cs.len() - i,
{
    if 0 <= i < cs.len() {
        framesets(cs[i]) + framesets_from(cs, i + 1)
    } else {
        seq![]
    }
}

/// Adds to `out` the outermost `frameset` elements of the tree of `node`.
pub fn collect_framesets(node: &Node, out: &mut Vec<FramesetSpec>)
    ensures
        framesets_view(final(out)@) == framesets_view(old(out)@) + framesets(node_view(*node)),
    decreases node,
{
    let ghost v = node_view(*node);
    let ghost start = framesets_view(out@);
    proof {
        crate::dom::lemma_node_view(*node);
    }
    if let Some(attrs) = element_attrs_of(node, "frameset") {
        let mut frames: Vec<String> = Vec::new();
        collect_frame_srcs(node, &mut frames);
        assert(strings_view(Seq::<String>::empty()) =~= Seq::<Seq<char>>::empty());
        let spec = FramesetSpec {
            cols: attr_value(attrs, "cols"),
            rows: attr_value(attrs, "rows"),
            frames,
        };
        out.push(spec);
        assert(framesets_view(out@) =~= start.push(frameset_view(spec)));
        assert(framesets_view(out@) =~= start + framesets(v));
        return;
    }
    let mut i: usize = 0;
    assert(framesets(v) == framesets_from(v.children, 0));
    assert(start + framesets(v) =~= framesets_view(out@) + framesets_from(v.children, 0));
    while i < node.children.len()
        invariant
            v == node_view(*node),
            v.children == nodes_view(node.children@),
            i <= node.children@.len(),
            framesets_view(out@) + framesets_from(v.children, i as int) == start + framesets(v),
        decreases node.children@.len() - i,
    {
        let ghost before = framesets_view(out@);
        collect_framesets(&node.children[i], out);
        assert(v.children[i as int] == node_view(node.children@[i as int]));
        assert(before + framesets_from(v.children, i as int) =~= framesets_view(out@)
            + framesets_from(v.children, i + 1));
        i = i + 1;
    }
    assert(framesets_view(out@) + framesets_from(v.children, i as int) =~= framesets_view(out@));
}

} // verus!

verus! {

// ---------------------------------------------------------------------------
// Attribute escaping and the body's presentational attributes
// ---------------------------------------------------------------------------

/// How one character is written inside a double-quoted attribute value.
pub open spec fn escape_char(c: char) -> Seq<char> {
    if c == '&' {
        "&amp;"@
    } else if c == '"' {
        "&quot;"@
    } else if c == '<' {
        "&lt;"@
    } else if c == '>' {
        "&gt;"@
    } else {
        seq![c]
    }
}

/// `s` with `&`, `"`, `<` and `>` written as character references.
pub open spec fn escaped(s: Seq<char>) -> Seq<char>
    decreases s.len(),
{
    if s.len() == 0 {
        seq![]
    } else {
        escaped(s.drop_last()) + escape_char(s.last())
    }
}

/// Escapes a value for use inside a double-quoted attribute.
pub fn escape_html_attr(value: &str) -> (r: String)
    ensures
        r@ == escaped(value@),
{
    let s = chars_of(value);
    let amp = chars_of("&amp;");
    let quot = chars_of("&quot;");
    let lt = chars_of("&lt;");
    let gt = chars_of("&gt;");
    let mut r: Vec<char> = Vec::new();
    let mut i: usize = 0;
    while i < s.len()
        invariant
            s@ == value@,
            amp@ == "&amp;"@,
            quot@ == "&quot;"@,
            lt@ == "&lt;"@,
            gt@ == "&gt;"@,
            i <= s@.len(),
            r@ == escaped(s@.take(i as int)),
        decreases s@.len() - i,
    {
        let c = s[i];
        assert(s@.take(i + 1).drop_last() =~= s@.take(i as int));
        assert(s@.take(i + 1).last() == c);
        if c == '&' {
            crate::text::extend_vec(&mut r, amp.as_slice());
        } else if c == '"' {
            crate::text::extend_vec(&mut r, quot.as_slice());
        } else if c == '<' {
            crate::text::extend_vec(&mut r, lt.as_slice());
        } else if c == '>' {
            crate::text::extend_vec(&mut r, gt.as_slice());
        } else {
            r.push(c);
            assert(r@ =~= escaped(s@.take(i as int)) + seq![c]);
        }
        i = i + 1;
    }
    assert(s@.take(i as int) =~= s@);
    string_of(r.as_slice())
}

/// Law: an escaped value holds no `"`, `<` or `>`, so it cannot end the attribute or open a
/// tag.
pub proof fn escaped_value_is_inert(s: Seq<char>)
    ensures
        forall|k: int|
            0 <= k < escaped(s).len() ==> #[trigger] escaped(s)[k] != '"' && escaped(s)[k] != '<'
                && escaped(s)[k] != '>',
    decreases s.len(),
{
    if s.len() > 0 {
        escaped_value_is_inert(s.drop_last());
        reveal_strlit("&amp;");
        reveal_strlit("&quot;");
        reveal_strlit("&lt;");
        reveal_strlit("&gt;");
        let a = escaped(s.drop_last());
        let b = escape_char(s.last());
        assert forall|k: int| 0 <= k < escaped(s).len() implies #[trigger] escaped(s)[k] != '"'
            && escaped(s)[k] != '<' && escaped(s)[k] != '>' by {
            if k < a.len() {
                assert(escaped(s)[k] == a[k]);
            } else {
                assert(escaped(s)[k] == b[k - a.len()]);
            }
        }
    }
}

/// ` name="value"`, the value escaped, when the attribute is there.
pub open spec fn attr_text(attrs: Seq<(Seq<char>, Seq<char>)>, name: Seq<char>) -> Seq<char> {
    match attr_of(attrs, name) {
        Some(v) => " "@ + name + "=\""@ + escaped(v) + "\""@,
        None => seq![],
    }
}

/// The `background` and `bgcolor` attributes of a body, as attribute text.
pub open spec fn presentational(attrs: Seq<(Seq<char>, Seq<char>)>) -> Seq<char> {
    attr_text(attrs, "background"@) + attr_text(attrs, "bgcolor"@)
}

/// The presentational attributes of the first `body` element of the tree `v`, in document
/// order.
pub open spec fn body_attrs(v: NodeView) -> Option<Seq<char>>
    decreases v, 1int, 0int,
{
    match element_attrs(v, "body"@) {
        Some(attrs) => Some(presentational(attrs)),
        None => body_attrs_from(v.children, 0),
    }
}

pub open spec fn body_attrs_from(cs: Seq<NodeView>, i: int) -> Option<Seq<char>>
    decreases cs, 0int, cs.len() - i,
{
    if 0 <= i < cs.len() {
        match body_attrs(cs[i]) {
            Some(a) => Some(a),
            None => body_attrs_from(cs, i + 1),
        }
    } else {
        None
    }
}

fn push_attr_text(out: &mut Vec<char>, attrs: &Vec<(String, String)>, name: &str)
    ensures
        final(out)@ == old(out)@ + attr_text(pairs_view(attrs@), name@),
{
    match attr_value(attrs, name) {
        Some(v) => {
            let ghost before = out@;
            let sp = chars_of(" ");
            crate::text::extend_vec(out, sp.as_slice());
            let n = chars_of(name);
            crate::text::extend_vec(out, n.as_slice());
            let eq = chars_of("=\"");
            crate::text::extend_vec(out, eq.as_slice());
            let e = escape_html_attr(v.as_str());
            let ec = chars_of(e.as_str());
            crate::text::extend_vec(out, ec.as_slice());
            let q = chars_of("\"");
            crate::text::extend_vec(out, q.as_slice());
            assert(out@ =~= before + (" "@ + name@ + "=\""@ + escaped(v@) + "\""@));
        },
        None => {
            assert(out@ =~= old(out)@ + Seq::<char>::empty());
        },
    }
}

/// The presentational attributes of the first `body` element in the tree of `node`.
pub fn collect_body_presentational_attrs(node: &Node) -> (r: Option<String>)
    ensures
        match r {
            Some(a) => body_attrs(node_view(*node)) == Some(a@),
            None => body_attrs(node_view(*node)) is None,
        },
    decreases node,
{
    let ghost v = node_view(*node);
    proof {
        crate::dom::lemma_node_view(*node);
    }
    if let Some(attrs) = element_attrs_of(node, "body") {
        let mut text: Vec<char> = Vec::new();
        push_attr_text(&mut text, attrs, "background");
        push_attr_text(&mut text, attrs, "bgcolor");
        assert(text@ =~= presentational(pairs_view(attrs@)));
        return Some(string_of(text.as_slice()));
    }
    let mut i: usize = 0;
    while i < node.children.len()
        invariant
            v == node_view(*node),
            v.children == nodes_view(node.children@),
            element_attrs(v, "body"@) is None,
            i <= node.children@.len(),
            body_attrs(v) == body_attrs_from(v.children, i as int),
        decreases node.children@.len() - i,
    {
        assert(v.children[i as int] == node_view(node.children@[i as int]));
        if let Some(a) = collect_body_presentational_attrs(&node.children[i]) {
            return Some(a);
        }
        i = i + 1;
    }
    None
}

} // verus!

verus! {

// ---------------------------------------------------------------------------
// Documents inside frames
// ---------------------------------------------------------------------------

/// Where the content of the body of `html` begins and ends: after the `>` that closes the
/// first `<body` tag, up to the last `</body>` (both tags in any ASCII case).
pub open spec fn body_span(html: Seq<char>) -> Option<(int, int)> {
    let lower = crate::text::ascii_lower_seq(html);
    match (crate::text::find(lower, "<body"@), crate::text::rfind(lower, "</body>"@)) {
        (Some(s), Some(e)) => match crate::text::find(html.subrange(s, html.len() as int), seq!['>']) {
            Some(o) => Some((s + o + 1, e)),
            None => None,
        },
        _ => None,
    }
}

/// Where the content of the body of `html` begins and ends, when both tags are found.
pub fn body_bounds(html: &str) -> (r: Option<(usize, usize)>)
    ensures
        match r {
            Some((a, b)) => body_span(html@) == Some((a as int, b as int)),
            None => body_span(html@) is None,
        },
{
    let s = chars_of(html);
    let lower = crate::text::ascii_lower_vec(s.as_slice());
    let open_tag = chars_of("<body");
    let close_tag = chars_of("</body>");
    let start = match crate::text::find_chars(lower.as_slice(), open_tag.as_slice()) {
        Some(k) => k,
        None => {
            return None;
        },
    };
    let end = match crate::text::rfind_chars(lower.as_slice(), close_tag.as_slice()) {
        Some(k) => k,
        None => {
            return None;
        },
    };
    proof {
        crate::text::lemma_find_from_props(lower@, open_tag@, 0);
        reveal_strlit("<body");
    }
    assert(start < s.len());
    let rest = crate::text::subrange_vec(s.as_slice(), start, s.len());
    let gt: [char; 1] = ['>'];
    assert(gt@ =~= seq!['>']);
    match crate::text::find_chars(rest.as_slice(), &gt) {
        Some(o) => {
            proof {
                crate::text::lemma_find_from_props(rest@, seq!['>'], 0);
            }
            Some((start + o + 1, end))
        },
        None => None,
    }
}

/// What `extract_body_like` gives: the content of the body when both tags are found, else
/// the whole text.
pub open spec fn body_like(html: Seq<char>) -> Seq<char> {
    match body_span(html) {
        Some((a, b)) => html.subrange(a, b),
        None => html,
    }
}

/// Whether the body's content does not begin after its end (the slice is well formed).
pub open spec fn body_span_ordered(html: Seq<char>) -> bool {
    match body_span(html) {
        Some((a, b)) => a <= b,
        None => true,
    }
}

/// The content of the body of `html`, or the whole of `html` when it has no body tags.
pub fn extract_body_like(html: &str) -> (r: String)
    requires
        body_span_ordered(html@),
    ensures
        r@ == body_like(html@),
{
    match body_bounds(html) {
        Some((a, b)) => {
            let s = chars_of(html);
            proof {
                let lower = crate::text::ascii_lower_seq(html@);
                crate::text::lemma_rfind_upto_props(lower, "</body>"@, lower.len() - "</body>"@.len());
                reveal_strlit("</body>");
            }
            assert(b <= s.len());
            let inner = crate::text::subrange_vec(s.as_slice(), a, b);
            string_of(inner.as_slice())
        },
        None => string_from_str(html),
    }
}

/// The markup that stands for a document shown inside a frame: a `div` holding the content of
/// its body, with the body's presentational attributes (`attrs`, already attribute text).
pub open spec fn frame_markup(attrs: Seq<char>, html: Seq<char>) -> Seq<char> {
    "<div class=\"carmine-frame-document\""@ + attrs + ">"@ + body_like(html) + "</div>"@
}

/// The presentational attributes of the body of the parsed `html`, or none.
pub open spec fn body_attrs_of(html: Seq<char>) -> Seq<char> {
    match body_attrs(crate::dom::tree_of_walk(crate::dom::html_walk(html))) {
        Some(a) => a,
        None => seq![],
    }
}

/// The presentational attributes of the body of `html`, parsed as a document.
pub fn body_presentational_attrs(html: &str) -> (r: String)
    ensures
        r@ == body_attrs_of(html@),
{
    let tree = crate::dom::parse(html);
    match collect_body_presentational_attrs(&tree) {
        Some(a) => a,
        None => String::new(),
    }
}

/// The markup for a document shown inside a frame.
pub fn frame_document_markup(html: &str) -> (r: String)
    requires
        body_span_ordered(html@),
    ensures
        r@ == frame_markup(body_attrs_of(html@), html@),
{
    let attrs = body_presentational_attrs(html);
    let body = extract_body_like(html);
    let mut out = chars_of("<div class=\"carmine-frame-document\"");
    let a = chars_of(attrs.as_str());
    crate::text::extend_vec(&mut out, a.as_slice());
    let gt = chars_of(">");
    crate::text::extend_vec(&mut out, gt.as_slice());
    let b = chars_of(body.as_str());
    crate::text::extend_vec(&mut out, b.as_slice());
    let close = chars_of("</div>");
    crate::text::extend_vec(&mut out, close.as_slice());
    string_of(out.as_slice())
}

/// Where the first `<iframe` element of `html` begins and ends: through its `</iframe>` when
/// there is one after it, else through the `>` of its start tag (tags in any ASCII case).
pub open spec fn iframe_span(html: Seq<char>) -> Option<(int, int)> {
    let lower = crate::text::ascii_lower_seq(html);
    match crate::text::find(lower, "<iframe"@) {
        None => None,
        Some(s) => {
            let after = lower.subrange(s, lower.len() as int);
            match crate::text::find(after, "</iframe>"@) {
                Some(c) => Some((s, s + c + 9)),
                None => match crate::text::find(after, seq!['>']) {
                    Some(g) => Some((s, s + g + 1)),
                    None => None,
                },
            }
        },
    }
}

/// `html` with its first `iframe` element replaced by `replacement`; `None` without one.
pub open spec fn replaced_first_iframe(html: Seq<char>, replacement: Seq<char>) -> Option<Seq<char>> {
    match iframe_span(html) {
        Some((a, b)) => Some(html.subrange(0, a) + replacement + html.subrange(b, html.len() as int)),
        None => None,
    }
}

pub fn replace_first_iframe(html: &str, replacement: &str) -> (r: Option<String>)
    ensures
        match r {
            Some(x) => replaced_first_iframe(html@, replacement@) == Some(x@),
            None => replaced_first_iframe(html@, replacement@) is None,
        },
{
    let s = chars_of(html);
    let lower = crate::text::ascii_lower_vec(s.as_slice());
    let open_tag = chars_of("<iframe");
    let start = match crate::text::find_chars(lower.as_slice(), open_tag.as_slice()) {
        Some(k) => k,
        None => {
            return None;
        },
    };
    proof {
        crate::text::lemma_find_from_props(lower@, open_tag@, 0);
        reveal_strlit("</iframe>");
        reveal_strlit("<iframe");
    }
    assert(start < lower.len());
    let after = crate::text::subrange_vec(lower.as_slice(), start, lower.len());
    let close_tag = chars_of("</iframe>");
    let end = match crate::text::find_chars(after.as_slice(), close_tag.as_slice()) {
        Some(c) => {
            proof {
                crate::text::lemma_find_from_props(after@, close_tag@, 0);
            }
            start + c + 9
        },
        None => {
            let gt: [char; 1] = ['>'];
            assert(gt@ =~= seq!['>']);
            match crate::text::find_chars(after.as_slice(), &gt) {
                Some(g) => {
                    proof {
                        crate::text::lemma_find_from_props(after@, seq!['>'], 0);
                    }
                    start + g + 1
                },
                None => {
                    return None;
                },
            }
        },
    };
    let mut out = crate::text::subrange_vec(s.as_slice(), 0, start);
    let rep = chars_of(replacement);
    crate::text::extend_vec(&mut out, rep.as_slice());
    let tail = crate::text::subrange_vec(s.as_slice(), end, s.len());
    crate::text::extend_vec(&mut out, tail.as_slice());
    Some(string_of(out.as_slice()))
}

} // verus!

verus! {

// ---------------------------------------------------------------------------
// Resolving references
// ---------------------------------------------------------------------------

/// Whether `s` is an absolute `http` or `https` URL.
pub open spec fn is_http_url(s: Seq<char>) -> bool {
    crate::text::starts_with(s, "http://"@) || crate::text::starts_with(s, "https://"@)
}

/// The serialization of `href` resolved against the URL `base`, as the `url` crate gives it
/// (WHATWG URL parsing); `None` when `base` does not parse or `href` does not resolve.
pub uninterp spec fn url_joined(base: Seq<char>, href: Seq<char>) -> Option<Seq<char>>;

/// Parses `base` with `url::Url::parse`, resolves `href` against it with `Url::join` and
/// serializes the result. The contract names the result: a function of the two texts alone.
#[verifier::external_body]
fn join_url(base: &str, href: &str) -> (r: Option<String>)
    ensures
        crate::style::opt_view(r) == url_joined(base@, href@),
{
    match url::Url::parse(base) {
        Ok(b) => match b.join(href) {
            Ok(u) => Some(u.to_string()),
            Err(_) => None,
        },
        Err(_) => None,
    }
}

/// Where a reference `href` found in the document at `base` points, given what joining them
/// as URLs gave (`joined`): an absolute URL stays; against an absolute base the joined URL is
/// taken when there is one; otherwise a rooted path stays, and a relative one replaces what
/// follows the last `/` of the base.
pub open spec fn resolved_href(href: Seq<char>, base: Seq<char>, joined: Option<Seq<char>>) -> Seq<char> {
    if is_http_url(href) {
        href
    } else if is_http_url(base) && joined is Some {
        joined.unwrap()
    } else if crate::text::starts_with(href, "/"@) {
        href
    } else {
        match crate::text::rfind(base, seq!['/']) {
            Some(k) => base.subrange(0, k) + seq!['/'] + href,
            None => href,
        }
    }
}

fn http_url(s: &[char]) -> (r: bool)
    ensures
        r == is_http_url(s@),
{
    let a = chars_of("http://");
    let b = chars_of("https://");
    crate::text::starts_with_vec(s, a.as_slice()) || crate::text::starts_with_vec(s, b.as_slice())
}

/// Resolves `href` against `base_path`, given what joining them as URLs gave.
pub fn resolve_href_with(href: &str, base_path: &str, joined: Option<&str>) -> (r: String)
    ensures
        r@ == resolved_href(
            href@,
            base_path@,
            match joined {
                Some(j) => Some(j@),
                None => None,
            },
        ),
{
    let h = chars_of(href);
    let b = chars_of(base_path);
    if http_url(h.as_slice()) {
        return string_from_str(href);
    }
    if http_url(b.as_slice()) {
        if let Some(j) = joined {
            return string_from_str(j);
        }
    }
    let slash = chars_of("/");
    if crate::text::starts_with_vec(h.as_slice(), slash.as_slice()) {
        return string_from_str(href);
    }
    let one: [char; 1] = ['/'];
    assert(one@ =~= seq!['/']);
    match crate::text::rfind_chars(b.as_slice(), &one) {
        Some(k) => {
            proof {
                crate::text::lemma_rfind_upto_props(b@, seq!['/'], b@.len() - 1);
            }
            assert(k < b.len());
            let mut out = crate::text::subrange_vec(b.as_slice(), 0, k);
            out.push('/');
            crate::text::extend_vec(&mut out, h.as_slice());
            string_of(out.as_slice())
        },
        None => string_from_str(href),
    }
}

/// Resolves a reference found in the document at `base_path`.
pub fn resolve_href_public(href: &str, base_path: &str) -> (r: String)
    ensures
        r@ == resolved_href(href@, base_path@, url_joined(base_path@, href@)),
{
    let h = chars_of(href);
    let b = chars_of(base_path);
    if !http_url(h.as_slice()) && http_url(b.as_slice()) {
        let joined = join_url(base_path, href);
        match joined {
            Some(j) => resolve_href_with(href, base_path, Some(j.as_str())),
            None => resolve_href_with(href, base_path, None),
        }
    } else {
        resolve_href_with(href, base_path, None)
    }
}

/// Resolves a reference found in the document at `base_path`.
pub fn resolve_href(href: &str, base_path: &str) -> (r: String)
    ensures
        r@ == resolved_href(href@, base_path@, url_joined(base_path@, href@)),
{
    resolve_href_public(href, base_path)
}

} // verus!

verus! {

/// `html` with the style sheet text `css` added in a `style` element: before the first
/// `</head>`, or at the very start without one; `html` itself when `css` is empty.
pub open spec fn with_style_block(html: Seq<char>, css: Seq<char>) -> Seq<char> {
    if css.len() == 0 {
        html
    } else {
        let tag = "<style>\n"@ + css + "\n</style>"@;
        match crate::text::find(html, "</head>"@) {
            Some(p) => html.subrange(0, p) + tag + html.subrange(p, html.len() as int),
            None => tag + html,
        }
    }
}

/// Adds the style sheet text `css` to `html` in a `style` element.
pub fn inject_style_block(html: &str, css: &str) -> (r: String)
    ensures
        r@ == with_style_block(html@, css@),
{
    let c = chars_of(css);
    if c.len() == 0 {
        return string_from_str(html);
    }
    let s = chars_of(html);
    let mut tag = chars_of("<style>\n");
    crate::text::extend_vec(&mut tag, c.as_slice());
    let close = chars_of("\n</style>");
    crate::text::extend_vec(&mut tag, close.as_slice());
    let head = chars_of("</head>");
    match crate::text::find_chars(s.as_slice(), head.as_slice()) {
        Some(p) => {
            proof {
                crate::text::lemma_find_from_props(s@, head@, 0);
            }
            let mut out = crate::text::subrange_vec(s.as_slice(), 0, p);
            crate::text::extend_vec(&mut out, tag.as_slice());
            let rest = crate::text::subrange_vec(s.as_slice(), p, s.len());
            crate::text::extend_vec(&mut out, rest.as_slice());
            string_of(out.as_slice())
        },
        None => {
            crate::text::extend_vec(&mut tag, s.as_slice());
            string_of(tag.as_slice())
        },
    }
}

/// The markup that takes the place of an `iframe`: a scrolling block holding the framed
/// document (`html`).
pub open spec fn iframe_markup(attrs: Seq<char>, html: Seq<char>) -> Seq<char> {
    "<div class=\"carmine-iframe\" style=\"display:block;border:2px inset #ddd;overflow:auto;\">"@
        + frame_markup(attrs, html) + "</div>"@
}

/// The markup that takes the place of an `iframe` showing the document `html`.
pub fn iframe_replacement(html: &str) -> (r: String)
    requires
        body_span_ordered(html@),
    ensures
        r@ == iframe_markup(body_attrs_of(html@), html@),
{
    let inner = frame_document_markup(html);
    let mut out = chars_of(
        "<div class=\"carmine-iframe\" style=\"display:block;border:2px inset #ddd;overflow:auto;\">",
    );
    let i = chars_of(inner.as_str());
    crate::text::extend_vec(&mut out, i.as_slice());
    let close = chars_of("</div>");
    crate::text::extend_vec(&mut out, close.as_slice());
    string_of(out.as_slice())
}

} // verus!

verus! {

/// Law: a relative reference (not rooted, not an `http(s)` URL) found in a document at a local
/// path `dir/file` points into that document's directory: `dir/` followed by the reference.
/// Only the part after the last `/` of the base is replaced.
pub proof fn relative_href_stays_in_directory(
    href: Seq<char>,
    dir: Seq<char>,
    file: Seq<char>,
    joined: Option<Seq<char>>,
)
    requires
        forall|i: int| 0 <= i < file.len() ==> file[i] != '/',
        !is_http_url(href),
        !crate::text::starts_with(href, "/"@),
        !is_http_url(dir + seq!['/'] + file),
    ensures
        resolved_href(href, dir + seq!['/'] + file, joined) == dir + seq!['/'] + href,
{
    let base = dir + seq!['/'] + file;
    let pat = seq!['/'];
    let i = base.len() - 1;
    assert(base.len() - pat.len() == i);
    crate::text::lemma_rfind_upto_props(base, pat, i);
    assert(base.subrange(dir.len() as int, dir.len() + 1int) =~= pat);
    assert(crate::text::matches_at(base, pat, dir.len() as int));
    match crate::text::rfind_upto(base, pat, i) {
        Some(k) => {
            if k > dir.len() {
                assert(base.subrange(k, k + 1) == pat);
                assert(base[k] == base.subrange(k, k + 1)[0]);
                assert(base[k] == file[k - dir.len() - 1]);
            }
            if k < dir.len() {
                assert(!crate::text::matches_at(base, pat, dir.len() as int));
            }
            assert(k == dir.len());
            assert(base.subrange(0, k) =~= dir);
        },
        None => {
            assert(!crate::text::matches_at(base, pat, dir.len() as int));
        },
    }
}

} // verus!
