use carmine::css::{
    compute_specificity, declares_property, specificity_fits, extract_style_text, find_matching_brace,
    is_custom_property, is_root_selector, make_declaration, media_query_parts,
    media_query_width_features, sort_by_precedence, split_media_blocks, split_pseudo_selector,
    strip_comments, strip_important, substitute_vars, substitute_vars_bounded, CssSegment,
    CssVariables, Declaration, PseudoElement,
};
use carmine::dom::parse;

fn decl(property: &str, value: &str, important: bool) -> Declaration {
    Declaration { property: property.to_string(), value: value.to_string(), important }
}

#[test]
fn strip_comments_removes_closed_and_open_comments() {
    assert_eq!(strip_comments("a /* x */ b"), "a  b");
    assert_eq!(strip_comments("p{}/* never closed"), "p{}");
    assert_eq!(strip_comments("no comments"), "no comments");
}

#[test]
fn find_matching_brace_skips_nested_blocks() {
    assert_eq!(find_matching_brace("a{b{c}d}e", 1), Some(7));
    assert_eq!(find_matching_brace("{", 0), None);
}

#[test]
fn strip_important_splits_trailing_flag() {
    assert_eq!(strip_important(" red !important "), ("red".to_string(), true));
    assert_eq!(strip_important("red !IMPORTANT"), ("red".to_string(), true));
    assert_eq!(strip_important("red ! important"), ("red ! important".to_string(), false));
    assert_eq!(strip_important(" blue "), ("blue".to_string(), false));
}

#[test]
fn split_pseudo_selector_finds_markers() {
    assert_eq!(split_pseudo_selector("a::before"), ("a".to_string(), Some(PseudoElement::Before)));
    assert_eq!(split_pseudo_selector("::after"), ("*".to_string(), Some(PseudoElement::After)));
    assert_eq!(split_pseudo_selector(" li:after "), ("li".to_string(), Some(PseudoElement::After)));
    assert_eq!(split_pseudo_selector(" p "), ("p".to_string(), None));
}

#[test]
fn compute_specificity_counts_ids_classes_types() {
    assert_eq!(compute_specificity("#id .cls p"), 273);
    assert_eq!(compute_specificity("div.a#b"), 273);
    assert_eq!(compute_specificity("*"), 0);
    assert_eq!(compute_specificity("a:hover"), 0);
}

#[test]
fn specificity_fits_only_below_u32_overflow() {
    assert!(specificity_fits("#id .cls p"));
    assert!(specificity_fits(""));
    let just_fits = "#".repeat((1usize << 24) - 1);
    assert!(specificity_fits(&just_fits));
    assert_eq!(compute_specificity(&just_fits), 0xFFFF_FF00);
    let overflows = "#".repeat(1usize << 24);
    assert!(!specificity_fits(&overflows));
}

#[test]
fn variables_substitute_with_fallback_and_nesting() {
    let mut vars = CssVariables::new();
    vars.insert("--a".to_string(), "red".to_string());
    vars.insert("--c".to_string(), "var(--a)".to_string());
    assert_eq!(vars.get("--a"), Some("red".to_string()));
    assert_eq!(vars.get("--zz"), None);
    assert_eq!(substitute_vars("var(--a)", &vars), "red");
    assert_eq!(substitute_vars("1px solid var(--b, blue)", &vars), "1px solid blue");
    assert_eq!(substitute_vars("var(--c)", &vars), "red");
    assert_eq!(substitute_vars("plain", &vars), "plain");
    assert_eq!(substitute_vars("var(--a", &vars), "var(--a");
}

#[test]
fn later_variable_declaration_wins() {
    let mut vars = CssVariables::new();
    vars.insert("--a".to_string(), "red".to_string());
    vars.insert("--a".to_string(), "green".to_string());
    assert_eq!(vars.get("--a"), Some("green".to_string()));
}

#[test]
fn self_referring_variable_runs_out_of_fuel() {
    let mut vars = CssVariables::new();
    vars.insert("--x".to_string(), "var(--x)".to_string());
    assert_eq!(substitute_vars_bounded("var(--x)", &vars, 10), None);
    let mut ok = CssVariables::new();
    ok.insert("--y".to_string(), "1px".to_string());
    assert_eq!(substitute_vars_bounded("var(--y)", &ok, 10), Some("1px".to_string()));
}

#[test]
fn extract_style_text_joins_style_elements() {
    let doc = parse("<html><head><style>p{color:red}</style></head><body><STYLE>a{}</STYLE><p>x</p></body></html>");
    assert_eq!(extract_style_text(&doc), "p{color:red}a{}");
}

#[test]
fn split_media_blocks_separates_plain_and_media() {
    let segs = split_media_blocks("a{} @media screen { b{} } c{}");
    assert_eq!(segs.len(), 3);
    match &segs[0] {
        CssSegment::Plain(t) => assert_eq!(t, "a{} "),
        _ => panic!("expected plain text"),
    }
    match &segs[1] {
        CssSegment::Media(c, b) => {
            assert_eq!(c, "screen");
            assert_eq!(b, " b{} ");
        }
        _ => panic!("expected a media block"),
    }
    match &segs[2] {
        CssSegment::Plain(t) => assert_eq!(t, " c{}"),
        _ => panic!("expected plain text"),
    }
}

#[test]
fn split_media_blocks_stops_at_unclosed_media() {
    let segs = split_media_blocks("a{} @media screen { b{}");
    assert_eq!(segs.len(), 1);
    match &segs[0] {
        CssSegment::Plain(t) => assert_eq!(t, "a{} "),
        _ => panic!("expected plain text"),
    }
}

#[test]
fn media_queries_split_and_read_features() {
    assert_eq!(media_query_parts("screen , print"), vec!["screen".to_string(), "print".to_string()]);
    assert_eq!(
        media_query_width_features("Screen and (max-width: 600px)"),
        Some(vec![("max-width".to_string(), "600px".to_string())])
    );
    assert_eq!(media_query_width_features("print"), None);
    assert_eq!(media_query_width_features("not screen"), None);
    assert_eq!(media_query_width_features("tv"), None);
    assert_eq!(
        media_query_width_features("(min-width:10px) and (orientation)"),
        Some(vec![("min-width".to_string(), "10px".to_string())])
    );
}

#[test]
fn sort_by_precedence_is_stable_and_puts_important_last() {
    let input = vec![
        (decl("a", "1", false), 10),
        (decl("b", "2", true), 1),
        (decl("c", "3", false), 10),
        (decl("d", "4", false), 5),
    ];
    let sorted = sort_by_precedence(input);
    let names: Vec<&str> = sorted.iter().map(|(d, _)| d.property.as_str()).collect();
    assert_eq!(names, vec!["d", "a", "c", "b"]);
}

#[test]
fn declarations_are_built_and_recognized() {
    let d = make_declaration("COLOR", " red !important ");
    assert_eq!(d.property, "color");
    assert_eq!(d.value, "red");
    assert!(d.important);
    assert!(is_custom_property("--main"));
    assert!(!is_custom_property("-webkit-x"));
    assert!(is_root_selector(" :root "));
    assert!(!is_root_selector(":root p"));
    let decls = vec![(decl("font-size", "12px", false), 1)];
    assert!(declares_property(&decls, "font-size"));
    assert!(!declares_property(&decls, "color"));
}

#[test]
fn media_blocks_of_width_queries() {
    let segs = split_media_blocks(".wide{display:block}@media screen and (max-width: 56rem){.narrow{display:none}}");
    assert_eq!(segs.len(), 2);
    match &segs[1] {
        CssSegment::Media(c, b) => {
            assert_eq!(c, "screen and (max-width: 56rem)");
            assert_eq!(b, ".narrow{display:none}");
            assert_eq!(
                media_query_width_features(c),
                Some(vec![("max-width".to_string(), "56rem".to_string())])
            );
        }
        _ => panic!("expected a media block"),
    }
}

#[test]
fn substituting_twice_changes_nothing() {
    let mut vars = CssVariables::new();
    vars.insert("--a".to_string(), "var(--b, 2px)".to_string());
    vars.insert("--c".to_string(), "x var(--a) y".to_string());
    for value in ["var(--c)", "calc(var(--a) + var(--zz, 1px))", "plain", "var(--open"] {
        let once = substitute_vars(value, &vars);
        assert!(!once.contains("var(") || !once[once.find("var(").unwrap()..].contains(')'));
        assert_eq!(substitute_vars(&once, &vars), once);
    }
    assert_eq!(substitute_vars("var(--c)", &vars), "x 2px y");
}
