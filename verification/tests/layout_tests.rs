use carmine::layout::{
    cell_columns, count_max_columns, is_table_cell_tag, load_image_for_layout,
    collapse_html_whitespace, collapse_inline_text_node_whitespace, extract_function,
    group_children, inline_tokens, is_cjk_char, is_inline_text_container_tag,
    is_naturally_inline_kind, is_naturally_inline_tag, normalize_html_text,
    normalize_inline_runs, normalize_inline_text_node, push_inline_run, split_track_list,
    ChildGroup, InlineTextRun, LayoutImage,
};
use carmine::style::{StyledKind, WhiteSpace};

fn run(text: &str, style: u64) -> InlineTextRun {
    InlineTextRun { text: text.to_string(), style }
}

fn texts(runs: &[InlineTextRun]) -> Vec<(String, u64)> {
    runs.iter().map(|r| (r.text.clone(), r.style)).collect()
}

#[test]
fn block_text_collapses_white_space() {
    assert_eq!(collapse_html_whitespace("  a \n\t b  "), "a b");
    assert_eq!(collapse_html_whitespace("   "), "");
    assert_eq!(collapse_html_whitespace("x\u{a0}y"), "x y");
}

#[test]
fn inline_text_keeps_edge_spaces() {
    assert_eq!(collapse_inline_text_node_whitespace("  a  b "), " a b ");
    assert_eq!(collapse_inline_text_node_whitespace(""), "");
}

#[test]
fn preformatted_text_is_kept() {
    assert_eq!(normalize_html_text(" a  b ", WhiteSpace::Pre), " a  b ");
    assert_eq!(normalize_html_text(" a  b ", WhiteSpace::Nowrap), "a b");
    assert_eq!(normalize_inline_text_node(" a  b ", WhiteSpace::PreWrap), " a  b ");
    assert_eq!(normalize_inline_text_node(" a  b ", WhiteSpace::Normal), " a b ");
}

#[test]
fn inline_tags_and_kinds() {
    assert!(is_naturally_inline_tag("SPAN"));
    assert!(is_naturally_inline_tag("img"));
    assert!(!is_naturally_inline_tag("div"));
    assert!(is_inline_text_container_tag("em"));
    assert!(!is_inline_text_container_tag("img"));
    assert!(is_naturally_inline_kind(&StyledKind::Text("x".to_string())));
    assert!(!is_naturally_inline_kind(&StyledKind::Document));
    assert!(is_naturally_inline_kind(&StyledKind::Element { tag: "B".to_string() }));
    assert!(!is_naturally_inline_kind(&StyledKind::Element { tag: "p".to_string() }));
}

#[test]
fn cjk_characters_are_recognized() {
    assert!(is_cjk_char('漢'));
    assert!(is_cjk_char('カ'));
    assert!(!is_cjk_char('a'));
    assert!(!is_cjk_char('é'));
}

#[test]
fn track_lists_split_outside_parentheses() {
    assert_eq!(extract_function("repeat(3, 1fr)", "repeat"), Some("3, 1fr".to_string()));
    assert_eq!(extract_function("minmax(1px", "minmax"), None);
    assert_eq!(extract_function("fit(1px)", "repeat"), None);
    assert_eq!(
        split_track_list("  repeat(2, 1fr)  100px "),
        vec!["repeat(2, 1fr)".to_string(), "100px".to_string()]
    );
    assert_eq!(split_track_list(""), Vec::<String>::new());
}

#[test]
fn inline_runs_normalize_and_join() {
    let out = normalize_inline_runs(vec![run(" Hello ", 1), run("world ", 1), run("!", 2)]);
    assert_eq!(texts(&out), vec![("Hello world ".to_string(), 1), ("!".to_string(), 2)]);
    let out = normalize_inline_runs(vec![run("a  \n  b ", 1), run("   ", 2)]);
    assert_eq!(texts(&out), vec![("a\nb".to_string(), 1)]);
    let out = normalize_inline_runs(vec![run("  ", 1)]);
    assert!(out.is_empty());
}

#[test]
fn push_inline_run_joins_same_style() {
    let mut runs = vec![run("a", 1)];
    push_inline_run(&mut runs, run("b", 1));
    push_inline_run(&mut runs, run("c", 2));
    assert_eq!(texts(&runs), vec![("ab".to_string(), 1), ("c".to_string(), 2)]);
}

#[test]
fn inline_tokens_cut_words_spaces_and_cjk() {
    let toks = inline_tokens(&[run("ab cd", 1), run("ef", 1), run("g漢字", 2)]);
    assert_eq!(
        texts(&toks),
        vec![
            ("ab".to_string(), 1),
            (" ".to_string(), 1),
            ("cdef".to_string(), 1),
            ("g".to_string(), 2),
            ("漢".to_string(), 2),
            ("字".to_string(), 2),
        ]
    );
    let all: String = toks.iter().map(|t| t.text.as_str()).collect();
    assert_eq!(all, "ab cdefg漢字");
}

#[test]
fn children_group_into_inline_rows() {
    assert_eq!(
        group_children(&[true, true, false, true]),
        vec![ChildGroup::InlineRow(0, 2), ChildGroup::Alone(2), ChildGroup::InlineRow(3, 4)]
    );
    assert_eq!(group_children(&[false, false]), vec![ChildGroup::Alone(0), ChildGroup::Alone(1)]);
    assert_eq!(group_children(&[]), Vec::<ChildGroup>::new());
}

#[test]
fn layout_image_holds_pixels() {
    let img = LayoutImage { rgba: vec![0; 16], width: 2, height: 2 };
    assert_eq!(img.rgba.len() as u32, img.width * img.height * 4);
}

#[test]
fn collapsing_twice_changes_nothing_more() {
    for text in ["  a \n b  ", "x", "\t\t", "a  b   c"] {
        let once = collapse_html_whitespace(text);
        assert_eq!(collapse_html_whitespace(&once), once);
        assert!(!once.contains("  "));
        assert!(!once.starts_with(' ') && !once.ends_with(' '));
    }
}

#[test]
fn table_cells_take_their_columns() {
    assert_eq!(cell_columns(&[1, 2, 0, 3]), vec![0, 1, 3, 4]);
    assert_eq!(cell_columns(&[]), Vec::<usize>::new());
    assert_eq!(count_max_columns(&vec![vec![1, 2], vec![1, 1, 1, 1], vec![]]), 4);
    assert_eq!(count_max_columns(&vec![]), 0);
    assert!(is_table_cell_tag("TD"));
    assert!(is_table_cell_tag("th"));
    assert!(!is_table_cell_tag("tr"));
}

#[test]
fn images_decode_to_rgba() {
    let img = image::RgbaImage::from_raw(2, 1, vec![1, 2, 3, 4, 5, 6, 7, 8]).unwrap();
    let mut png = Vec::new();
    img.write_to(&mut std::io::Cursor::new(&mut png), image::ImageFormat::Png).unwrap();
    let decoded = load_image_for_layout(&png).unwrap();
    assert_eq!((decoded.width, decoded.height), (2, 1));
    assert_eq!(decoded.rgba, vec![1, 2, 3, 4, 5, 6, 7, 8]);
    assert!(load_image_for_layout(b"not an image").is_none());
}

#[test]
fn collapsing_joins_the_words_with_single_spaces() {
    for text in ["  a \n\t b  ", "one", "", " \u{3000} ", "x  y\u{a0}z\n"] {
        let words: Vec<&str> = text.split_whitespace().collect();
        assert_eq!(collapse_html_whitespace(text), words.join(" "));
    }
    assert_eq!(collapse_html_whitespace("  a \n\t b  "), "a b");
}

#[test]
fn groups_count_block_children_and_inline_runs() {
    let flags = [true, true, false, true, false, false, true];
    let groups = group_children(&flags);
    // three children that do not flow inline, and three maximal inline runs
    assert_eq!(groups.len(), 6);
    assert_eq!(group_children(&[]).len(), 0);
    assert_eq!(group_children(&[true, true]).len(), 1);
}

#[test]
fn tokens_are_single_breaks_or_words() {
    let runs = vec![run("ab c\n", 1), run("d\u{4e00}e", 1), run("f g", 2), run("h", 3)];
    let tokens = inline_tokens(&runs);
    for t in &tokens {
        let chars: Vec<char> = t.text.chars().collect();
        assert!(!chars.is_empty());
        let breaks = |c: &char| *c == ' ' || *c == '\n' || is_cjk_char(*c);
        if chars.iter().any(breaks) {
            assert_eq!(chars.len(), 1);
        }
    }
    for w in tokens.windows(2) {
        let word = |t: &InlineTextRun| !t.text.chars().any(|c| c == ' ' || c == '\n' || is_cjk_char(c));
        if word(&w[0]) && word(&w[1]) {
            assert_ne!(w[0].style, w[1].style);
        }
    }
    assert_eq!(
        texts(&tokens),
        vec![
            ("ab".to_string(), 1),
            (" ".to_string(), 1),
            ("c".to_string(), 1),
            ("\n".to_string(), 1),
            ("d".to_string(), 1),
            ("\u{4e00}".to_string(), 1),
            ("e".to_string(), 1),
            ("f".to_string(), 2),
            (" ".to_string(), 2),
            ("g".to_string(), 2),
            ("h".to_string(), 3),
        ]
    );
}

#[test]
fn normalized_text_is_single_spaced_and_keeps_words() {
    let runs = vec![
        run("  Hello \t", 1),
        run("  big ", 2),
        run("\n world  ", 1),
        run("   ", 3),
        run("again\u{a0} ", 1),
    ];
    let input: String = runs.iter().map(|r| r.text.as_str()).collect();
    let out = normalize_inline_runs(runs);
    let joined: String = out.iter().map(|r| r.text.as_str()).collect();
    assert!(!joined.starts_with(' ') && !joined.ends_with(' '));
    assert!(!joined.contains("  "));
    assert!(joined.chars().all(|c| !c.is_whitespace() || c == ' ' || c == '\n'));
    let words = |s: &str| s.chars().filter(|c| !c.is_whitespace()).collect::<String>();
    assert_eq!(words(&joined), words(&input));
}
