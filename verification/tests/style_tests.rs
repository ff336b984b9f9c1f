use carmine::css::Declaration;
use carmine::style::{
    apply_html_attributes, apply_keyword_declaration, box_shorthand_sides, contains_top_level_slash,
    default_keywords_for_tag, extract_css_function, is_heading_tag, parse_align_items,
    parse_background_image_url, parse_background_repeat, parse_color, parse_display,
    parse_flex_direction, parse_flex_wrap, parse_font_weight, parse_justify_content,
    parse_span_value, split_css_tokens, split_top_level_commas, AlignItems, BoxSizing, Color,
    Display, FlexDirection, FlexWrap, JustifyContent, KeywordStyle, TextAlign, TextDecoration,
    TextTransform, Visibility, WhiteSpace,
};

fn decl(property: &str, value: &str) -> Declaration {
    Declaration { property: property.to_string(), value: value.to_string(), important: false }
}

#[test]
fn visibility_hidden_does_not_change_display() {
    let mut style = KeywordStyle::default_block();
    let handled = apply_keyword_declaration(&mut style, &decl("visibility", "hidden"));
    assert!(handled);
    assert_eq!(style.display, Display::Block);
    assert_eq!(style.visibility, Visibility::Hidden);
}

#[test]
fn keyword_declarations_set_their_fields() {
    let mut style = KeywordStyle::default_block();
    apply_keyword_declaration(&mut style, &decl("display", " inline-flex "));
    apply_keyword_declaration(&mut style, &decl("display", "bogus"));
    apply_keyword_declaration(&mut style, &decl("font-weight", "bold"));
    apply_keyword_declaration(&mut style, &decl("text-decoration", "underline dotted"));
    apply_keyword_declaration(&mut style, &decl("text-wrap", "nowrap"));
    apply_keyword_declaration(&mut style, &decl("box-sizing", "border-box"));
    apply_keyword_declaration(&mut style, &decl("text-transform", "uppercase"));
    apply_keyword_declaration(&mut style, &decl("text-align", "justify"));
    apply_keyword_declaration(&mut style, &decl("background-repeat", "repeat-y"));
    apply_keyword_declaration(&mut style, &decl("background-image", "url(\"bg.png\")"));
    apply_keyword_declaration(&mut style, &decl("grid-template-columns", " 1fr 2fr "));
    assert_eq!(style.display, Display::InlineFlex);
    assert_eq!(style.font_weight, 700);
    assert_eq!(style.text_decoration, TextDecoration::Underline);
    assert_eq!(style.white_space, WhiteSpace::Nowrap);
    assert_eq!(style.box_sizing, BoxSizing::BorderBox);
    assert_eq!(style.text_transform, TextTransform::Uppercase);
    assert_eq!(style.text_align, TextAlign::Justify);
    assert!(!style.background_repeat_x);
    assert!(style.background_repeat_y);
    assert_eq!(style.background_image_src, Some("bg.png".to_string()));
    assert_eq!(style.grid_template_columns, "1fr 2fr");
    let before = style.font_weight;
    assert!(!apply_keyword_declaration(&mut style, &decl("margin", "4px")));
    assert_eq!(style.font_weight, before);
}

#[test]
fn keyword_parsers_read_their_keywords() {
    assert_eq!(parse_display(" flex "), Some(Display::Flex));
    assert_eq!(parse_display("none"), Some(Display::NoBox));
    assert_eq!(parse_display("table"), None);
    assert_eq!(parse_flex_direction("row-reverse"), FlexDirection::RowReverse);
    assert_eq!(parse_flex_direction("sideways"), FlexDirection::Unspecified);
    assert_eq!(parse_justify_content("start"), JustifyContent::FlexStart);
    assert_eq!(parse_justify_content("space-around"), JustifyContent::SpaceAround);
    assert_eq!(parse_align_items("stretch"), AlignItems::Stretch);
    assert_eq!(parse_align_items("end"), AlignItems::FlexEnd);
    assert_eq!(parse_flex_wrap("wrap"), FlexWrap::Wrap);
    assert_eq!(parse_flex_wrap("wrap-reverse"), FlexWrap::Unspecified);
}

#[test]
fn font_weight_reads_keywords_and_numbers() {
    assert_eq!(parse_font_weight("bold"), 700);
    assert_eq!(parse_font_weight("lighter"), 300);
    assert_eq!(parse_font_weight(" 550 "), 550);
    assert_eq!(parse_font_weight("+300"), 300);
    assert_eq!(parse_font_weight("abc"), 400);
    assert_eq!(parse_font_weight("99999999999"), 400);
}

#[test]
fn background_repeat_and_image() {
    assert_eq!(parse_background_repeat(" Repeat-X "), Some((true, false)));
    assert_eq!(parse_background_repeat("no-repeat"), Some((false, false)));
    assert_eq!(parse_background_repeat("space"), None);
    assert_eq!(parse_background_image_url("url('img.png')"), Some("img.png".to_string()));
    assert_eq!(parse_background_image_url("NONE"), None);
    assert_eq!(parse_background_image_url("url()"), None);
    assert_eq!(parse_background_image_url("linear-gradient(red, blue)"), None);
}

#[test]
fn span_values_are_at_least_one() {
    assert_eq!(parse_span_value(" '3' "), Some(3));
    assert_eq!(parse_span_value("0"), Some(1));
    assert_eq!(parse_span_value("x"), None);
    assert_eq!(parse_span_value("70000"), None);
}

#[test]
fn headings_are_recognized_in_any_case() {
    assert!(is_heading_tag("H2"));
    assert!(is_heading_tag("h6"));
    assert!(!is_heading_tag("header"));
    assert!(!is_heading_tag("h7"));
}

#[test]
fn css_functions_and_top_level_splits() {
    assert_eq!(extract_css_function("x url(a(b)) y", "url"), Some("a(b)".to_string()));
    assert_eq!(extract_css_function("url(a", "url"), None);
    assert_eq!(extract_css_function("rgb(1,2)", "url"), None);
    assert_eq!(
        split_top_level_commas("a, rgb(1,2,3) , b"),
        vec!["a".to_string(), "rgb(1,2,3)".to_string(), "b".to_string()]
    );
    assert_eq!(split_top_level_commas(""), vec!["".to_string()]);
    assert!(contains_top_level_slash("a / b"));
    assert!(!contains_top_level_slash("calc(1/2)"));
    assert_eq!(
        split_css_tokens("1px  solid\trgb(0, 0, 0)"),
        vec!["1px".to_string(), "solid".to_string(), "rgb(0, 0, 0)".to_string()]
    );
    assert_eq!(split_css_tokens("   "), Vec::<String>::new());
}

#[test]
fn box_shorthand_distributes_tokens() {
    assert_eq!(
        box_shorthand_sides("1px"),
        Some(("1px".to_string(), "1px".to_string(), "1px".to_string(), "1px".to_string()))
    );
    assert_eq!(
        box_shorthand_sides("1px 2px"),
        Some(("1px".to_string(), "2px".to_string(), "1px".to_string(), "2px".to_string()))
    );
    assert_eq!(
        box_shorthand_sides("1px 2px 3px"),
        Some(("1px".to_string(), "2px".to_string(), "3px".to_string(), "2px".to_string()))
    );
    assert_eq!(
        box_shorthand_sides("1 2 3 4"),
        Some(("1".to_string(), "2".to_string(), "3".to_string(), "4".to_string()))
    );
    assert_eq!(box_shorthand_sides("1 2 3 4 5"), None);
    assert_eq!(box_shorthand_sides(""), None);
}

#[test]
fn colors_parse_through_csscolorparser() {
    let red = parse_color("#ff0000").unwrap();
    assert_eq!((red.r, red.g, red.b, red.a), (255, 0, 0, 255));
    assert_eq!(parse_color("blue"), Some(Color { r: 0, g: 0, b: 255, a: 255 }));
    assert_eq!(parse_color("not a color"), None);
    assert_eq!(parse_color("hsl(\u{e9}ab 50% 50%)"), None);
    assert_eq!(parse_color("r\u{e9}d"), None);
    assert_eq!(Color::crimson(), Color { r: 220, g: 20, b: 60, a: 255 });
}

#[test]
fn tag_defaults_and_html_attributes() {
    let table = default_keywords_for_tag("table");
    assert_eq!(table.display, Display::Flex);
    assert_eq!(table.flex_direction, FlexDirection::Column);
    assert_eq!(default_keywords_for_tag("span").display, Display::Inline);
    assert_eq!(default_keywords_for_tag("head").display, Display::NoBox);
    assert_eq!(default_keywords_for_tag("div").display, Display::Block);
    assert_eq!(default_keywords_for_tag("strong").font_weight, 700);

    let mut cell = default_keywords_for_tag("td");
    let attrs = vec![
        ("colspan".to_string(), "2".to_string()),
        ("align".to_string(), " Middle ".to_string()),
        ("nowrap".to_string(), "".to_string()),
    ];
    apply_html_attributes(&mut cell, "TD", &attrs);
    assert_eq!(cell.table_colspan, 2);
    assert_eq!(cell.table_rowspan, 1);
    assert_eq!(cell.text_align, TextAlign::Center);
    assert_eq!(cell.align_items, AlignItems::Center);
    assert_eq!(cell.white_space, WhiteSpace::Nowrap);

    let mut body = default_keywords_for_tag("body");
    apply_html_attributes(&mut body, "body", &vec![("background".to_string(), " tile.gif ".to_string())]);
    assert_eq!(body.background_image_src, Some("tile.gif".to_string()));
    assert!(body.background_repeat_x && body.background_repeat_y);
}
