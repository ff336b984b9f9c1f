use carmine::cascade::input_presentation;
use carmine::dom::parse;
use carmine::js::{collect_scripts, ScriptSource};
use carmine::sheet::{flat_rules, SheetError};
use carmine::css::PseudoElement;
use carmine::style::{parse_color, Color};

fn attrs(pairs: &[(&str, &str)]) -> Vec<(String, String)> {
    pairs.iter().map(|(k, v)| (k.to_string(), v.to_string())).collect()
}

#[test]
fn scripts_are_collected_in_document_order() {
    let doc = parse(
        "<html><head><script src=\"a.js\"></script><script>  </script></head>\
         <body><p>x</p><script>var x = 1;</script><SCRIPT src='b.js'>ignored()</SCRIPT></body></html>",
    );
    let mut out = Vec::new();
    collect_scripts(&doc, &mut out);
    assert_eq!(
        out,
        vec![
            ScriptSource::External("a.js".to_string()),
            ScriptSource::Inline("var x = 1;".to_string()),
            ScriptSource::External("b.js".to_string()),
        ]
    );
    let mut none = Vec::new();
    collect_scripts(&parse("<p>no scripts</p>"), &mut none);
    assert!(none.is_empty());
}

#[test]
fn flat_rules_keep_readable_selectors_and_substitute_variables() {
    let (rules, vars) = flat_rules(
        ":root { --c: red } p::before { color: var(--c, blue) } ### { color: green } \
         #a .b p { margin: var(--m, 1px) }",
        1000,
    )
    .unwrap();
    assert_eq!(vars.get("--c"), Some("red".to_string()));
    assert_eq!(rules.len(), 3);
    assert_eq!(rules[0].selector_text, ":root");
    assert_eq!(rules[1].selector_text, "p");
    assert_eq!(rules[1].pseudo, Some(PseudoElement::Before));
    assert_eq!(rules[1].declarations[0].value, "red");
    assert_eq!(rules[1].specificity, 1);
    assert_eq!(rules[2].selector_text, "#a .b p");
    assert_eq!(rules[2].specificity, 273);
    assert_eq!(rules[2].declarations[0].value, "1px");
}

#[test]
fn flat_rules_report_unfinished_substitutions() {
    assert_eq!(
        flat_rules(":root { --a: var(--a) } p { color: var(--a) }", 50).err(),
        Some(SheetError::UnfinishedSubstitution)
    );
    assert!(flat_rules("p { color: var(--a, var(--b, red)) }", 3).is_ok());
    assert_eq!(
        flat_rules("p { color: var(--a, var(--b, red)) }", 1).err(),
        Some(SheetError::UnfinishedSubstitution)
    );
}

#[test]
fn inputs_present_as_hidden_or_as_buttons() {
    let hidden = input_presentation("INPUT", &attrs(&[("type", "Hidden"), ("value", "v")]));
    assert!(hidden.hidden);
    assert_eq!(hidden.shown_text, None);
    let button = input_presentation("input", &attrs(&[("value", "Go")]));
    assert!(!button.hidden);
    assert_eq!(button.shown_text, Some("Go".to_string()));
    let submit = input_presentation("input", &attrs(&[("type", "submit"), ("value", "Send")]));
    assert_eq!(submit.shown_text, Some("Send".to_string()));
    let text = input_presentation("input", &attrs(&[("type", "text"), ("value", "t")]));
    assert_eq!(text.shown_text, None);
    let empty = input_presentation("input", &attrs(&[("type", "reset")]));
    assert_eq!(empty.shown_text, None);
    let div = input_presentation("div", &attrs(&[("type", "hidden"), ("value", "x")]));
    assert!(!div.hidden);
    assert_eq!(div.shown_text, None);
}

#[test]
fn colors_are_read_after_trimming_white_space() {
    assert_eq!(parse_color("\u{a0}red\u{3000}"), Some(Color { r: 255, g: 0, b: 0, a: 255 }));
    assert_eq!(parse_color("  #00ff00 "), Some(Color { r: 0, g: 255, b: 0, a: 255 }));
    assert_eq!(parse_color("r\u{e9}d"), None);
}
