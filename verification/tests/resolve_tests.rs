use carmine::dom::{parse, Node, NodeKind};
use carmine::resolve::{
    body_bounds, collect_body_presentational_attrs, collect_frame_srcs, collect_framesets,
    collect_iframe_srcs, collect_link_hrefs, escape_html_attr, extract_body_like,
    frame_document_markup, iframe_replacement, inject_style_block, replace_first_iframe,
    resolve_href, resolve_href_public, resolve_href_with, attr_value,
};

fn find_element<'a>(node: &'a Node, name: &str) -> Option<&'a Node> {
    if let NodeKind::Element { tag, .. } = &node.kind {
        if tag == name {
            return Some(node);
        }
    }
    node.children.iter().find_map(|c| find_element(c, name))
}

#[test]
fn parse_builds_the_document_tree_without_comments() {
    let doc = parse("<!doctype html><html><body><p class=\"x\">Hi</p><!-- c --></body></html>");
    assert!(matches!(doc.kind, NodeKind::Document));
    assert_eq!(doc.children.len(), 1);
    let body = find_element(&doc, "body").expect("body");
    assert_eq!(body.children.len(), 1);
    let p = &body.children[0];
    match &p.kind {
        NodeKind::Element { tag, attrs } => {
            assert_eq!(tag, "p");
            assert_eq!(attr_value(attrs, "class"), Some("x".to_string()));
        }
        _ => panic!("expected the p element"),
    }
    match &p.children[0].kind {
        NodeKind::Text(t) => assert_eq!(t, "Hi"),
        _ => panic!("expected text"),
    }
}

#[test]
fn stylesheet_links_are_collected() {
    let doc = parse("<head><link rel=\"StyleSheet\" href=\"a.css\"><link rel=\"icon\" href=\"x.ico\"><link href=\"b.css\"></head>");
    let mut out = Vec::new();
    collect_link_hrefs(&doc, &mut out);
    assert_eq!(out, vec!["a.css".to_string()]);
}

#[test]
fn frames_and_iframes_are_collected() {
    let doc = parse("<frameset cols=\"30%,70%\"><frame src=\"a.html\"><frame src=\"b.html\"></frameset>");
    let mut sets = Vec::new();
    collect_framesets(&doc, &mut sets);
    assert_eq!(sets.len(), 1);
    assert_eq!(sets[0].cols, Some("30%,70%".to_string()));
    assert_eq!(sets[0].rows, None);
    assert_eq!(sets[0].frames, vec!["a.html".to_string(), "b.html".to_string()]);
    let mut frames = Vec::new();
    collect_frame_srcs(&doc, &mut frames);
    assert_eq!(frames.len(), 2);

    let page = parse("<body><iframe src=\"one.html\"></iframe><div><IFRAME SRC=\"two.html\"></IFRAME></div></body>");
    let mut srcs = Vec::new();
    collect_iframe_srcs(&page, &mut srcs);
    assert_eq!(srcs, vec!["one.html".to_string(), "two.html".to_string()]);
}

#[test]
fn body_presentational_attributes_are_escaped() {
    let doc = parse("<body bgcolor=\"red\" background=\"a&amp;b.png\"><p>x</p></body>");
    assert_eq!(
        collect_body_presentational_attrs(&doc),
        Some(" background=\"a&amp;b.png\" bgcolor=\"red\"".to_string())
    );
    let plain = parse("<body></body>");
    assert_eq!(collect_body_presentational_attrs(&plain), Some(String::new()));
}

#[test]
fn attribute_values_are_escaped() {
    assert_eq!(escape_html_attr("a<b>&\"c\""), "a&lt;b&gt;&amp;&quot;c&quot;");
    assert_eq!(escape_html_attr("plain"), "plain");
}

#[test]
fn body_content_is_extracted() {
    assert_eq!(extract_body_like("<html><BODY class=x>hello</body></html>"), "hello");
    assert_eq!(extract_body_like("no body here"), "no body here");
    assert_eq!(body_bounds("</body><body>"), Some((13, 0)));
    assert_eq!(body_bounds("<body>x</body>"), Some((6, 7)));
}

#[test]
fn framed_documents_are_wrapped() {
    assert_eq!(
        frame_document_markup("<body bgcolor=red>x</body>"),
        "<div class=\"carmine-frame-document\" bgcolor=\"red\">x</div>"
    );
    assert_eq!(
        iframe_replacement("<p>y</p>"),
        "<div class=\"carmine-iframe\" style=\"display:block;border:2px inset #ddd;overflow:auto;\"><div class=\"carmine-frame-document\"><p>y</p></div></div>"
    );
}

#[test]
fn first_iframe_is_replaced() {
    assert_eq!(replace_first_iframe("a<IFRAME src=x></iframe>b", "R"), Some("aRb".to_string()));
    assert_eq!(replace_first_iframe("a<iframe src=x>b", "R"), Some("aRb".to_string()));
    assert_eq!(replace_first_iframe("a<iframe", "R"), None);
    assert_eq!(replace_first_iframe("nothing", "R"), None);
}

#[test]
fn references_resolve_against_the_base() {
    assert_eq!(resolve_href_public("http://x/a", "whatever"), "http://x/a");
    assert_eq!(resolve_href_public("b.css", "http://h/dir/page.html"), "http://h/dir/b.css");
    assert_eq!(resolve_href_public("../c.css", "https://h/dir/sub/p.html"), "https://h/dir/c.css");
    assert_eq!(resolve_href_public("/abs.css", "dir/page.html"), "/abs.css");
    assert_eq!(resolve_href_public("b.css", "dir/page.html"), "dir/b.css");
    assert_eq!(resolve_href("b.css", "page.html"), "b.css");
    assert_eq!(resolve_href_with("x", "http://a/b", Some("J")), "J");
    assert_eq!(resolve_href_with("x", "http://a/b", None), "http://a/x");
}

#[test]
fn style_blocks_are_injected() {
    assert_eq!(inject_style_block("<head></head>", "p{}"), "<head><style>\np{}\n</style></head>");
    assert_eq!(inject_style_block("<p>x</p>", "p{}"), "<style>\np{}\n</style><p>x</p>");
    assert_eq!(inject_style_block("<p>x</p>", ""), "<p>x</p>");
}
