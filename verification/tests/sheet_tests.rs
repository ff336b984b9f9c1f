use carmine::cascade::{cascade_order, inherit_keywords, inherited_properties, InheritFlags};
use carmine::css::Declaration;
use carmine::sheet::{parse_declarations, parse_rules};
use carmine::style::{KeywordStyle, TextTransform, Visibility, WhiteSpace};

fn decl(property: &str, value: &str, important: bool) -> Declaration {
    Declaration { property: property.to_string(), value: value.to_string(), important }
}

fn triples(decls: &[Declaration]) -> Vec<(String, String, bool)> {
    decls.iter().map(|d| (d.property.clone(), d.value.clone(), d.important)).collect()
}

#[test]
fn declarations_are_read_with_importance_and_lower_cased_names() {
    let decls = parse_declarations(" COLOR : Red ; font-size:12px !important;margin: 0 auto");
    assert_eq!(
        triples(&decls),
        vec![
            ("color".to_string(), "Red".to_string(), false),
            ("font-size".to_string(), "12px".to_string(), true),
            ("margin".to_string(), "0 auto".to_string(), false),
        ]
    );
}

#[test]
fn declaration_values_keep_functions_and_comments() {
    let decls = parse_declarations("background: rgb(1, 2; 3) /* c */ ; width: calc(1px + 2px)");
    assert_eq!(
        triples(&decls),
        vec![
            ("background".to_string(), "rgb(1, 2; 3) /* c */".to_string(), false),
            ("width".to_string(), "calc(1px + 2px)".to_string(), false),
        ]
    );
}

#[test]
fn malformed_declarations_are_dropped() {
    let decls = parse_declarations("12px: a; color; b: c; d: e; ; x");
    assert_eq!(triples(&decls), vec![("d".to_string(), "e".to_string(), false)]);
    assert!(parse_declarations("").is_empty());
    assert!(parse_declarations("--x: 1px").is_empty());
}

#[test]
fn rules_are_read_with_root_variables() {
    let (rules, vars) = parse_rules(
        ":root { --main: #f00; color: blue }\n p.note , h1 { color: var(--main); margin: 0 }\n .x{}",
    );
    assert_eq!(rules.len(), 3);
    assert_eq!(rules[0].selector, ":root");
    assert_eq!(triples(&rules[0].declarations), vec![("color".to_string(), "blue".to_string(), false)]);
    assert_eq!(rules[1].selector, "p.note , h1");
    assert_eq!(
        triples(&rules[1].declarations),
        vec![
            ("color".to_string(), "var(--main)".to_string(), false),
            ("margin".to_string(), "0".to_string(), false),
        ]
    );
    assert_eq!(rules[2].selector, ".x");
    assert!(rules[2].declarations.is_empty());
    assert_eq!(vars.get("--main"), Some("#f00".to_string()));
    assert_eq!(vars.get("--other"), None);
}

#[test]
fn variables_outside_root_are_not_collected_and_later_ones_win() {
    let (rules, vars) = parse_rules("p { --a: 1 } :root { --a: 2 } :root { --a: 3; --b: 4 } tail");
    assert_eq!(rules.len(), 3);
    assert_eq!(vars.get("--a"), Some("3".to_string()));
    assert_eq!(vars.get("--b"), Some("4".to_string()));
    let (rules, _) = parse_rules("a { color: red");
    assert_eq!(rules.len(), 1);
    assert_eq!(triples(&rules[0].declarations), vec![("color".to_string(), "red".to_string(), false)]);
}

#[test]
fn declarations_apply_by_precedence_with_font_size_first() {
    let matched = vec![
        (decl("color", "red", true), 1),
        (decl("font-size", "10px", false), 100),
        (decl("color", "blue", false), 300),
    ];
    let inline = vec![decl("margin", "1px", false), decl("font-size", "2em", false)];
    let order = cascade_order(&matched, &inline);
    assert_eq!(
        triples(&order),
        vec![
            ("font-size".to_string(), "10px".to_string(), false),
            ("color".to_string(), "blue".to_string(), false),
            ("color".to_string(), "red".to_string(), true),
            ("font-size".to_string(), "2em".to_string(), false),
            ("margin".to_string(), "1px".to_string(), false),
        ]
    );
}

#[test]
fn inherited_properties_come_from_matches_and_style_text() {
    let matched = vec![(decl("letter-spacing", "1px", false), 1)];
    let flags = inherited_properties(&matched, Some("background-color: red; white-space: pre"));
    assert!(flags.letter_spacing);
    assert!(flags.color);
    assert!(flags.white_space);
    assert!(!flags.font_size);
    assert!(!flags.font_weight);
    assert!(!flags.visibility);
    assert!(!flags.text_transform);
    let none = inherited_properties(&Vec::new(), None);
    assert!(!none.color && !none.font_size && !none.white_space && !none.letter_spacing);
}

#[test]
fn keyword_inheritance_takes_unset_properties_from_the_parent() {
    let mut parent = KeywordStyle::default_block();
    parent.font_weight = 700;
    parent.visibility = Visibility::Hidden;
    parent.white_space = WhiteSpace::Pre;
    parent.text_transform = TextTransform::Uppercase;
    let mut style = KeywordStyle::default_block();
    style.font_weight = 300;
    let flags = InheritFlags {
        font_size: false,
        color: false,
        font_weight: true,
        letter_spacing: false,
        text_transform: false,
        visibility: false,
        white_space: false,
    };
    inherit_keywords(&mut style, &parent, &flags);
    assert_eq!(style.font_weight, 300);
    assert_eq!(style.visibility, Visibility::Hidden);
    assert_eq!(style.white_space, WhiteSpace::Pre);
    assert_eq!(style.text_transform, TextTransform::Uppercase);
}
