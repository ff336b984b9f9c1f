use vstd::prelude::*;

use crate::css::{paren_close, paren_close_exec, lemma_paren_close, Declaration};
use crate::numbers::{parse_unsigned, parse_unsigned_exec};
use crate::text::{
    ascii_lower_seq, ascii_lower_vec, chars_of, eq_ignore_case, eq_ignore_case_vec, find,
    find_chars, is_word, lemma_find_from_props, string_of, subrange_vec, trim, trim_class,
    trim_class_vec, trim_vec, CharClass, unicode_lowercase, to_lowercase,
};

verus! {

// ---------------------------------------------------------------------------
// Keyword-valued properties
// ---------------------------------------------------------------------------

/// `box-sizing`.
#[derive(Clone, Copy, Debug, PartialEq, Eq)]
pub enum BoxSizing {
    ContentBox,
    BorderBox,
}

/// `text-align`.
#[derive(Clone, Copy, Debug, PartialEq, Eq)]
pub enum TextAlign {
    Start,
    Left,
    Right,
    Center,
    Justify,
}

/// `text-decoration`.
#[derive(Clone, Copy, Debug, PartialEq, Eq)]
pub enum TextDecoration {
    NoDecoration,
    Underline,
    LineThrough,
    Overline,
}

/// `white-space`.
#[derive(Clone, Copy, Debug, PartialEq, Eq)]
pub enum WhiteSpace {
    Normal,
    Nowrap,
    Pre,
    PreWrap,
}

/// `text-transform`.
#[derive(Clone, Copy, Debug, PartialEq, Eq)]
pub enum TextTransform {
    NoTransform,
    Uppercase,
    Lowercase,
    Capitalize,
}

/// `display`.
#[derive(Clone, Copy, Debug, PartialEq, Eq)]
pub enum Display {
    Block,
    Inline,
    Flex,
    InlineFlex,
    Grid,
    InlineGrid,
    NoBox,
}

/// `visibility`.
#[derive(Clone, Copy, Debug, PartialEq, Eq)]
pub enum Visibility {
    Visible,
    Hidden,
}

/// `flex-direction`.
#[derive(Clone, Copy, Debug, PartialEq, Eq)]
pub enum FlexDirection {
    Row,
    Column,
    RowReverse,
    ColumnReverse,
    Unspecified,
}

/// `justify-content`.
#[derive(Clone, Copy, Debug, PartialEq, Eq)]
pub enum JustifyContent {
    FlexStart,
    Center,
    FlexEnd,
    SpaceBetween,
    SpaceAround,
    Unspecified,
}

/// `align-items`.
#[derive(Clone, Copy, Debug, PartialEq, Eq)]
pub enum AlignItems {
    FlexStart,
    Center,
    FlexEnd,
    Stretch,
    Unspecified,
}

/// `flex-wrap`.
#[derive(Clone, Copy, Debug, PartialEq, Eq)]
pub enum FlexWrap {
    NoWrap,
    Wrap,
    Unspecified,
}

/// An RGBA color, eight bits a channel.
#[derive(Clone, Copy, Debug, PartialEq, Eq)]
pub struct Color {
    pub r: u8,
    pub g: u8,
    pub b: u8,
    pub a: u8,
}

impl Color {
    pub fn black() -> (c: Color)
        ensures
            c == (Color { r: 0, g: 0, b: 0, a: 255 }),
    {
        Color { r: 0, g: 0, b: 0, a: 255 }
    }

    pub fn white() -> (c: Color)
        ensures
            c == (Color { r: 255, g: 255, b: 255, a: 255 }),
    {
        Color { r: 255, g: 255, b: 255, a: 255 }
    }

    pub fn crimson() -> (c: Color)
        ensures
            c == (Color { r: 220, g: 20, b: 60, a: 255 }),
    {
        Color { r: 220, g: 20, b: 60, a: 255 }
    }

    pub fn gray() -> (c: Color)
        ensures
            c == (Color { r: 128, g: 128, b: 128, a: 255 }),
    {
        Color { r: 128, g: 128, b: 128, a: 255 }
    }
}

/// What a styled node stands for.
#[derive(Clone, Debug)]
pub enum StyledKind {
    Element { tag: String },
    Text(String),
    Document,
}

// ---------------------------------------------------------------------------
// Keyword parsers
// ---------------------------------------------------------------------------

/// What `display: v` selects, `v` trimmed; `None` for an unknown keyword.
pub open spec fn display_keyword(v: Seq<char>) -> Option<Display> {
    let t = trim(v);
    if t == "block"@ {
        Some(Display::Block)
    } else if t == "inline"@ {
        Some(Display::Inline)
    } else if t == "flex"@ {
        Some(Display::Flex)
    } else if t == "grid"@ {
        Some(Display::Grid)
    } else if t == "inline-flex"@ {
        Some(Display::InlineFlex)
    } else if t == "inline-grid"@ {
        Some(Display::InlineGrid)
    } else if t == "none"@ {
        Some(Display::NoBox)
    } else {
        None
    }
}

pub fn parse_display(value: &str) -> (r: Option<Display>)
    ensures
        r == display_keyword(value@),
{
    let t = trim_vec(chars_of(value).as_slice());
    let t = t.as_slice();
    if is_word(t, "block") {
        Some(Display::Block)
    } else if is_word(t, "inline") {
        Some(Display::Inline)
    } else if is_word(t, "flex") {
        Some(Display::Flex)
    } else if is_word(t, "grid") {
        Some(Display::Grid)
    } else if is_word(t, "inline-flex") {
        Some(Display::InlineFlex)
    } else if is_word(t, "inline-grid") {
        Some(Display::InlineGrid)
    } else if is_word(t, "none") {
        Some(Display::NoBox)
    } else {
        None
    }
}

/// What `flex-direction: v` selects, `v` trimmed.
pub open spec fn flex_direction_keyword(v: Seq<char>) -> FlexDirection {
    let t = trim(v);
    if t == "row"@ {
        FlexDirection::Row
    } else if t == "column"@ {
        FlexDirection::Column
    } else if t == "row-reverse"@ {
        FlexDirection::RowReverse
    } else if t == "column-reverse"@ {
        FlexDirection::ColumnReverse
    } else {
        FlexDirection::Unspecified
    }
}

pub fn parse_flex_direction(value: &str) -> (r: FlexDirection)
    ensures
        r == flex_direction_keyword(value@),
{
    let t = trim_vec(chars_of(value).as_slice());
    let t = t.as_slice();
    if is_word(t, "row") {
        FlexDirection::Row
    } else if is_word(t, "column") {
        FlexDirection::Column
    } else if is_word(t, "row-reverse") {
        FlexDirection::RowReverse
    } else if is_word(t, "column-reverse") {
        FlexDirection::ColumnReverse
    } else {
        FlexDirection::Unspecified
    }
}

/// What `justify-content: v` selects, `v` trimmed.
pub open spec fn justify_content_keyword(v: Seq<char>) -> JustifyContent {
    let t = trim(v);
    if t == "flex-start"@ || t == "start"@ {
        JustifyContent::FlexStart
    } else if t == "center"@ {
        JustifyContent::Center
    } else if t == "flex-end"@ || t == "end"@ {
        JustifyContent::FlexEnd
    } else if t == "space-between"@ {
        JustifyContent::SpaceBetween
    } else if t == "space-around"@ {
        JustifyContent::SpaceAround
    } else {
        JustifyContent::Unspecified
    }
}

pub fn parse_justify_content(value: &str) -> (r: JustifyContent)
    ensures
        r == justify_content_keyword(value@),
{
    let t = trim_vec(chars_of(value).as_slice());
    let t = t.as_slice();
    if is_word(t, "flex-start") || is_word(t, "start") {
        JustifyContent::FlexStart
    } else if is_word(t, "center") {
        JustifyContent::Center
    } else if is_word(t, "flex-end") || is_word(t, "end") {
        JustifyContent::FlexEnd
    } else if is_word(t, "space-between") {
        JustifyContent::SpaceBetween
    } else if is_word(t, "space-around") {
        JustifyContent::SpaceAround
    } else {
        JustifyContent::Unspecified
    }
}

/// What `align-items: v` selects, `v` trimmed.
pub open spec fn align_items_keyword(v: Seq<char>) -> AlignItems {
    let t = trim(v);
    if t == "flex-start"@ || t == "start"@ {
        AlignItems::FlexStart
    } else if t == "center"@ {
        AlignItems::Center
    } else if t == "flex-end"@ || t == "end"@ {
        AlignItems::FlexEnd
    } else if t == "stretch"@ {
        AlignItems::Stretch
    } else {
        AlignItems::Unspecified
    }
}

pub fn parse_align_items(value: &str) -> (r: AlignItems)
    ensures
        r == align_items_keyword(value@),
{
    let t = trim_vec(chars_of(value).as_slice());
    let t = t.as_slice();
    if is_word(t, "flex-start") || is_word(t, "start") {
        AlignItems::FlexStart
    } else if is_word(t, "center") {
        AlignItems::Center
    } else if is_word(t, "flex-end") || is_word(t, "end") {
        AlignItems::FlexEnd
    } else if is_word(t, "stretch") {
        AlignItems::Stretch
    } else {
        AlignItems::Unspecified
    }
}

/// What `flex-wrap: v` selects, `v` trimmed.
pub open spec fn flex_wrap_keyword(v: Seq<char>) -> FlexWrap {
    let t = trim(v);
    if t == "wrap"@ {
        FlexWrap::Wrap
    } else if t == "nowrap"@ {
        FlexWrap::NoWrap
    } else {
        FlexWrap::Unspecified
    }
}

pub fn parse_flex_wrap(value: &str) -> (r: FlexWrap)
    ensures
        r == flex_wrap_keyword(value@),
{
    let t = trim_vec(chars_of(value).as_slice());
    let t = t.as_slice();
    if is_word(t, "wrap") {
        FlexWrap::Wrap
    } else if is_word(t, "nowrap") {
        FlexWrap::NoWrap
    } else {
        FlexWrap::Unspecified
    }
}

/// The weight that `font-weight: v` selects: the four keywords, else `v` (trimmed) read as a
/// `u32`, else 400.
pub open spec fn font_weight_of(v: Seq<char>) -> nat {
    let t = trim(v);
    if t == "bold"@ {
        700
    } else if t == "normal"@ {
        400
    } else if t == "lighter"@ {
        300
    } else if t == "bolder"@ {
        600
    } else {
        match parse_unsigned(t, 10, u32::MAX as nat) {
            Some(n) => n,
            None => 400,
        }
    }
}

pub fn parse_font_weight(value: &str) -> (r: u32)
    ensures
        r as nat == font_weight_of(value@),
{
    let t = trim_vec(chars_of(value).as_slice());
    let t = t.as_slice();
    if is_word(t, "bold") {
        700
    } else if is_word(t, "normal") {
        400
    } else if is_word(t, "lighter") {
        300
    } else if is_word(t, "bolder") {
        600
    } else {
        match parse_unsigned_exec(t, 10, 4294967295) {
            Some(n) => n as u32,
            None => 400,
        }
    }
}

/// The horizontal and vertical repetition that `background-repeat: v` selects, `v` trimmed
/// and in any ASCII case; `None` for an unknown keyword.
pub open spec fn background_repeat_of(v: Seq<char>) -> Option<(bool, bool)> {
    let t = ascii_lower_seq(trim(v));
    if t == "repeat"@ {
        Some((true, true))
    } else if t == "repeat-x"@ {
        Some((true, false))
    } else if t == "repeat-y"@ {
        Some((false, true))
    } else if t == "no-repeat"@ {
        Some((false, false))
    } else {
        None
    }
}

pub fn parse_background_repeat(value: &str) -> (r: Option<(bool, bool)>)
    ensures
        r == background_repeat_of(value@),
{
    let t = trim_vec(chars_of(value).as_slice());
    let t = ascii_lower_vec(t.as_slice());
    let t = t.as_slice();
    if is_word(t, "repeat") {
        Some((true, true))
    } else if is_word(t, "repeat-x") {
        Some((true, false))
    } else if is_word(t, "repeat-y") {
        Some((false, true))
    } else if is_word(t, "no-repeat") {
        Some((false, false))
    } else {
        None
    }
}

/// The span that a `colspan`/`rowspan` attribute gives: trimmed, unquoted, read as a `u16`,
/// and at least 1.
pub open spec fn span_value_of(v: Seq<char>) -> Option<nat> {
    match parse_unsigned(trim_class(trim(v), CharClass::Quote), 10, u16::MAX as nat) {
        Some(n) => Some(if n < 1 { 1 } else { n }),
        None => None,
    }
}

pub fn parse_span_value(value: &str) -> (r: Option<u16>)
    ensures
        match r {
            Some(n) => span_value_of(value@) == Some(n as nat),
            None => span_value_of(value@) is None,
        },
{
    let t = trim_vec(chars_of(value).as_slice());
    let t = trim_class_vec(t.as_slice(), CharClass::Quote);
    match parse_unsigned_exec(t.as_slice(), 10, 65535) {
        Some(n) => {
            let n = n as u16;
            Some(if n < 1 { 1 } else { n })
        },
        None => None,
    }
}

/// Whether a lower-cased tag name is `h1` to `h6`.
pub open spec fn heading_name(t: Seq<char>) -> bool {
    t == "h1"@ || t == "h2"@ || t == "h3"@ || t == "h4"@ || t == "h5"@ || t == "h6"@
}

/// Whether `lowered`, a tag name already lower-cased, is a heading.
pub fn is_heading_name(lowered: &str) -> (r: bool)
    ensures
        r == heading_name(lowered@),
{
    let t = chars_of(lowered);
    let t = t.as_slice();
    is_word(t, "h1") || is_word(t, "h2") || is_word(t, "h3") || is_word(t, "h4") || is_word(
        t,
        "h5",
    ) || is_word(t, "h6")
}

/// Whether `tag`, lower-cased as `str::to_lowercase` does, is a heading.
pub fn is_heading_tag(tag: &str) -> (r: bool)
    ensures
        r == heading_name(unicode_lowercase(tag@)),
{
    let lowered = to_lowercase(tag);
    is_heading_name(lowered.as_str())
}

} // verus!

verus! {

// ---------------------------------------------------------------------------
// Functional notation and top-level splitting
// ---------------------------------------------------------------------------

/// The arguments of the first `name(...)` in `text`: what stands between `name(` and the `)`
/// that closes it; `None` when there is no `name(` or it is not closed.
pub open spec fn css_function_args(text: Seq<char>, name: Seq<char>) -> Option<Seq<char>> {
    let prefix = name.push('(');
    match find(text, prefix) {
        None => None,
        Some(start) => match paren_close(text, start + prefix.len(), 1) {
            Some(e) => Some(text.subrange(start + prefix.len(), e)),
            None => None,
        },
    }
}

pub fn extract_css_function(text: &str, name: &str) -> (r: Option<String>)
    ensures
        match r {
            Some(a) => css_function_args(text@, name@) == Some(a@),
            None => css_function_args(text@, name@) is None,
        },
{
    let s = chars_of(text);
    let mut prefix = chars_of(name);
    prefix.push('(');
    let start = match find_chars(s.as_slice(), prefix.as_slice()) {
        Some(k) => k,
        None => {
            return None;
        },
    };
    proof {
        lemma_find_from_props(s@, prefix@, 0);
    }
    assert(start + prefix.len() <= s.len());
    let after = start + prefix.len();
    match paren_close_exec(s.as_slice(), after) {
        Some(e) => {
            proof {
                lemma_paren_close(s@, after as int, 1);
            }
            let inner = subrange_vec(s.as_slice(), after, e);
            Some(string_of(inner.as_slice()))
        },
        None => None,
    }
}

/// The source that `background-image: v` names: the unquoted argument of `url(...)`, unless
/// `v` is `none` or the argument is empty.
pub open spec fn background_image_url_of(v: Seq<char>) -> Option<Seq<char>> {
    if eq_ignore_case(trim(v), "none"@) {
        None
    } else {
        match css_function_args(trim(v), "url"@) {
            None => None,
            Some(inner) => {
                let src = trim_class(trim(inner), CharClass::Quote);
                if src.len() == 0 {
                    None
                } else {
                    Some(src)
                }
            },
        }
    }
}

pub fn parse_background_image_url(value: &str) -> (r: Option<String>)
    ensures
        match r {
            Some(a) => background_image_url_of(value@) == Some(a@),
            None => background_image_url_of(value@) is None,
        },
{
    let t = trim_vec(chars_of(value).as_slice());
    let none = chars_of("none");
    if eq_ignore_case_vec(t.as_slice(), none.as_slice()) {
        return None;
    }
    let ts = string_of(t.as_slice());
    let inner = match extract_css_function(ts.as_str(), "url") {
        Some(i) => i,
        None => {
            return None;
        },
    };
    let it = trim_vec(chars_of(inner.as_str()).as_slice());
    let src = trim_class_vec(it.as_slice(), CharClass::Quote);
    if src.len() == 0 {
        None
    } else {
        Some(string_of(src.as_slice()))
    }
}

/// A parenthesis depth that `)` lowers, but not below zero.
pub open spec fn lowered_depth(d: nat) -> nat {
    if d == 0 {
        0
    } else {
        (d - 1) as nat
    }
}

/// The trimmed parts of `s` between the commas outside parentheses, scanning from `i` at
/// depth `d` with the current part begun at `start`.
pub open spec fn comma_parts_from(s: Seq<char>, i: int, d: nat, start: int) -> Seq<Seq<char>>
    decreases s.len() - i,
{
    if i < 0 || i >= s.len() {
        seq![trim(s.subrange(start, s.len() as int))]
    } else if s[i] == '(' {
        comma_parts_from(s, i + 1, d + 1, start)
    } else if s[i] == ')' {
        comma_parts_from(s, i + 1, lowered_depth(d), start)
    } else if s[i] == ',' && d == 0 {
        seq![trim(s.subrange(start, i))] + comma_parts_from(s, i + 1, 0, i + 1)
    } else {
        comma_parts_from(s, i + 1, d, start)
    }
}

/// The trimmed parts of `s` between its commas outside parentheses.
pub open spec fn comma_parts(s: Seq<char>) -> Seq<Seq<char>> {
    comma_parts_from(s, 0, 0, 0)
}

/// Splits `text` at the commas that stand outside parentheses, trimming each part.
pub fn split_top_level_commas(text: &str) -> (r: Vec<String>)
    ensures
        crate::text::strings_view(r@) == comma_parts(text@),
{
    let s = chars_of(text);
    let mut parts: Vec<String> = Vec::new();
    let mut depth: usize = 0;
    let mut start: usize = 0;
    let mut i: usize = 0;
    while i < s.len()
        invariant
            s@ == text@,
            i <= s@.len(),
            start <= i,
            depth <= i,
            crate::text::strings_view(parts@) + comma_parts_from(s@, i as int, depth as nat, start as int)
                == comma_parts(text@),
        decreases s@.len() - i,
    {
        let c = s[i];
        if c == '(' {
            depth = depth + 1;
        } else if c == ')' {
            if depth > 0 {
                depth = depth - 1;
            }
        } else if c == ',' && depth == 0 {
            let piece = subrange_vec(s.as_slice(), start, i);
            let piece = trim_vec(piece.as_slice());
            let ghost before = crate::text::strings_view(parts@);
            parts.push(string_of(piece.as_slice()));
            assert(crate::text::strings_view(parts@) =~= before.push(piece@));
            assert(before + comma_parts_from(s@, i as int, 0, start as int) =~= before.push(piece@)
                + comma_parts_from(s@, i + 1, 0, i + 1));
            start = i + 1;
        }
        i = i + 1;
    }
    let piece = subrange_vec(s.as_slice(), start, s.len());
    let piece = trim_vec(piece.as_slice());
    let ghost before = crate::text::strings_view(parts@);
    parts.push(string_of(piece.as_slice()));
    assert(crate::text::strings_view(parts@) =~= before.push(piece@));
    parts
}

/// Whether `s` has a `/` outside parentheses, scanning from `i` at depth `d`.
pub open spec fn slash_from(s: Seq<char>, i: int, d: nat) -> bool
    decreases s.len() - i,
{
    if i < 0 || i >= s.len() {
        false
    } else if s[i] == '(' {
        slash_from(s, i + 1, d + 1)
    } else if s[i] == ')' {
        slash_from(s, i + 1, lowered_depth(d))
    } else if s[i] == '/' && d == 0 {
        true
    } else {
        slash_from(s, i + 1, d)
    }
}

pub fn contains_top_level_slash(value: &str) -> (r: bool)
    ensures
        r == slash_from(value@, 0, 0),
{
    let s = chars_of(value);
    let mut depth: usize = 0;
    let mut i: usize = 0;
    while i < s.len()
        invariant
            s@ == value@,
            i <= s@.len(),
            depth <= i,
            slash_from(s@, i as int, depth as nat) == slash_from(value@, 0, 0),
        decreases s@.len() - i,
    {
        let c = s[i];
        if c == '(' {
            depth = depth + 1;
        } else if c == ')' {
            if depth > 0 {
                depth = depth - 1;
            }
        } else if c == '/' && depth == 0 {
            return true;
        }
        i = i + 1;
    }
    false
}

/// The tokens of `s` separated by spaces and tabs outside parentheses, scanning from `i` at
/// depth `depth` (which `)` may take below zero) with `cur` gathered so far.
pub open spec fn css_tokens_from(s: Seq<char>, i: int, depth: int, cur: Seq<char>) -> Seq<
    Seq<char>,
>
    decreases s.len() - i,
{
    if i < 0 || i >= s.len() {
        if cur.len() > 0 {
            seq![cur]
        } else {
            seq![]
        }
    } else if s[i] == '(' {
        css_tokens_from(s, i + 1, depth + 1, cur.push('('))
    } else if s[i] == ')' {
        css_tokens_from(s, i + 1, depth - 1, cur.push(')'))
    } else if (s[i] == ' ' || s[i] == '\t') && depth == 0 {
        if cur.len() > 0 {
            seq![cur] + css_tokens_from(s, i + 1, depth, seq![])
        } else {
            css_tokens_from(s, i + 1, depth, seq![])
        }
    } else {
        css_tokens_from(s, i + 1, depth, cur.push(s[i]))
    }
}

/// The tokens of `s` separated by spaces and tabs outside parentheses.
pub open spec fn css_tokens(s: Seq<char>) -> Seq<Seq<char>> {
    css_tokens_from(s, 0, 0, seq![])
}

pub fn split_css_tokens(value: &str) -> (r: Vec<String>)
    ensures
        crate::text::strings_view(r@) == css_tokens(value@),
{
    let s = chars_of(value);
    let mut tokens: Vec<String> = Vec::new();
    let mut current: Vec<char> = Vec::new();
    let mut opens: usize = 0;
    let mut closes: usize = 0;
    let mut i: usize = 0;
    while i < s.len()
        invariant
            s@ == value@,
            i <= s@.len(),
            opens + closes <= i,
            crate::text::strings_view(tokens@) + css_tokens_from(
                s@,
                i as int,
                opens - closes,
                current@,
            ) == css_tokens(value@),
        decreases s@.len() - i,
    {
        let c = s[i];
        let ghost before = crate::text::strings_view(tokens@);
        if c == '(' {
            opens = opens + 1;
            current.push(c);
        } else if c == ')' {
            closes = closes + 1;
            current.push(c);
        } else if (c == ' ' || c == '\t') && opens == closes {
            if current.len() > 0 {
                tokens.push(string_of(current.as_slice()));
                assert(crate::text::strings_view(tokens@) =~= before.push(current@));
                assert(before + css_tokens_from(s@, i as int, opens - closes, current@)
                    =~= before.push(current@) + css_tokens_from(
                    s@,
                    i + 1,
                    opens - closes,
                    seq![],
                ));
                current = Vec::new();
            } else {
                current = Vec::new();
                assert(current@ =~= seq![]);
            }
        } else {
            current.push(c);
        }
        i = i + 1;
    }
    if current.len() > 0 {
        let ghost before = crate::text::strings_view(tokens@);
        tokens.push(string_of(current.as_slice()));
        assert(crate::text::strings_view(tokens@) =~= before.push(current@));
    } else {
        assert(crate::text::strings_view(tokens@) + seq![] =~= crate::text::strings_view(tokens@));
    }
    tokens
}

} // verus!

verus! {

// ---------------------------------------------------------------------------
// Box shorthands and keyword declarations
// ---------------------------------------------------------------------------

/// The tokens that a `margin` or `padding` value gives to the top, right, bottom and left
/// sides: one token for all four; two for vertical then horizontal; three for top,
/// horizontal, bottom; four in that order. `None` for any other number of tokens.
pub open spec fn box_sides(v: Seq<char>) -> Option<(Seq<char>, Seq<char>, Seq<char>, Seq<char>)> {
    let p = crate::text::split_whitespace(v);
    if p.len() == 1 {
        Some((p[0], p[0], p[0], p[0]))
    } else if p.len() == 2 {
        Some((p[0], p[1], p[0], p[1]))
    } else if p.len() == 3 {
        Some((p[0], p[1], p[2], p[1]))
    } else if p.len() == 4 {
        Some((p[0], p[1], p[2], p[3]))
    } else {
        None
    }
}

/// Distributes the tokens of a `margin` or `padding` value over the top, right, bottom and
/// left sides.
pub fn box_shorthand_sides(value: &str) -> (r: Option<(String, String, String, String)>)
    ensures
        match r {
            Some((t, rt, b, l)) => box_sides(value@) == Some((t@, rt@, b@, l@)),
            None => box_sides(value@) is None,
        },
{
    let s = chars_of(value);
    let p = crate::text::split_whitespace_vec(s.as_slice());
    proof {
        assert(crate::text::seqs_of(p@).len() == p@.len());
    }
    let n = p.len();
    if n == 1 {
        assert(crate::text::seqs_of(p@)[0] == p@[0]@);
        let a = string_of(p[0].as_slice());
        let b = string_of(p[0].as_slice());
        let c = string_of(p[0].as_slice());
        let d = string_of(p[0].as_slice());
        Some((a, b, c, d))
    } else if n == 2 {
        assert(crate::text::seqs_of(p@)[0] == p@[0]@);
        assert(crate::text::seqs_of(p@)[1] == p@[1]@);
        Some(
            (
                string_of(p[0].as_slice()),
                string_of(p[1].as_slice()),
                string_of(p[0].as_slice()),
                string_of(p[1].as_slice()),
            ),
        )
    } else if n == 3 {
        assert(crate::text::seqs_of(p@)[0] == p@[0]@);
        assert(crate::text::seqs_of(p@)[1] == p@[1]@);
        assert(crate::text::seqs_of(p@)[2] == p@[2]@);
        Some(
            (
                string_of(p[0].as_slice()),
                string_of(p[1].as_slice()),
                string_of(p[2].as_slice()),
                string_of(p[1].as_slice()),
            ),
        )
    } else if n == 4 {
        assert(crate::text::seqs_of(p@)[0] == p@[0]@);
        assert(crate::text::seqs_of(p@)[1] == p@[1]@);
        assert(crate::text::seqs_of(p@)[2] == p@[2]@);
        assert(crate::text::seqs_of(p@)[3] == p@[3]@);
        Some(
            (
                string_of(p[0].as_slice()),
                string_of(p[1].as_slice()),
                string_of(p[2].as_slice()),
                string_of(p[3].as_slice()),
            ),
        )
    } else {
        None
    }
}

/// The properties of an element's style whose values are keywords, names or integers.
#[derive(Clone, Debug)]
pub struct KeywordStyle {
    pub display: Display,
    pub visibility: Visibility,
    pub flex_direction: FlexDirection,
    pub justify_content: JustifyContent,
    pub align_items: AlignItems,
    pub flex_wrap: FlexWrap,
    pub font_weight: u32,
    pub box_sizing: BoxSizing,
    pub text_transform: TextTransform,
    pub text_align: TextAlign,
    pub text_decoration: TextDecoration,
    pub white_space: WhiteSpace,
    pub background_repeat_x: bool,
    pub background_repeat_y: bool,
    pub background_image_src: Option<String>,
    pub grid_template_columns: String,
    pub table_colspan: u16,
    pub table_rowspan: u16,
}

/// A `KeywordStyle` with its texts as character sequences.
pub struct KeywordStyleView {
    pub display: Display,
    pub visibility: Visibility,
    pub flex_direction: FlexDirection,
    pub justify_content: JustifyContent,
    pub align_items: AlignItems,
    pub flex_wrap: FlexWrap,
    pub font_weight: u32,
    pub box_sizing: BoxSizing,
    pub text_transform: TextTransform,
    pub text_align: TextAlign,
    pub text_decoration: TextDecoration,
    pub white_space: WhiteSpace,
    pub background_repeat_x: bool,
    pub background_repeat_y: bool,
    pub background_image_src: Option<Seq<char>>,
    pub grid_template_columns: Seq<char>,
    pub table_colspan: u16,
    pub table_rowspan: u16,
}

pub open spec fn opt_view(o: Option<String>) -> Option<Seq<char>> {
    match o {
        Some(s) => Some(s@),
        None => None,
    }
}

impl View for KeywordStyle {
    type V = KeywordStyleView;

    open spec fn view(&self) -> KeywordStyleView {
        KeywordStyleView {
            display: self.display,
            visibility: self.visibility,
            flex_direction: self.flex_direction,
            justify_content: self.justify_content,
            align_items: self.align_items,
            flex_wrap: self.flex_wrap,
            font_weight: self.font_weight,
            box_sizing: self.box_sizing,
            text_transform: self.text_transform,
            text_align: self.text_align,
            text_decoration: self.text_decoration,
            white_space: self.white_space,
            background_repeat_x: self.background_repeat_x,
            background_repeat_y: self.background_repeat_y,
            background_image_src: opt_view(self.background_image_src),
            grid_template_columns: self.grid_template_columns@,
            table_colspan: self.table_colspan,
            table_rowspan: self.table_rowspan,
        }
    }
}

/// Whether `apply_keyword_declaration` handles property `p`.
pub open spec fn keyword_property(p: Seq<char>) -> bool {
    ||| p == "background-image"@
    ||| p == "background-repeat"@
    ||| p == "font-weight"@
    ||| p == "display"@
    ||| p == "flex-direction"@
    ||| p == "justify-content"@
    ||| p == "align-items"@
    ||| p == "flex-wrap"@
    ||| p == "visibility"@
    ||| p == "box-sizing"@
    ||| p == "text-transform"@
    ||| p == "grid-template-columns"@
    ||| p == "text-align"@
    ||| p == "text-decoration"@
    ||| p == "white-space"@
    ||| p == "text-wrap"@
}

/// `visibility: v`, `v` trimmed: `hidden` and `collapse` hide, anything else shows.
pub open spec fn visibility_of(v: Seq<char>) -> Visibility {
    if v == "hidden"@ || v == "collapse"@ {
        Visibility::Hidden
    } else {
        Visibility::Visible
    }
}

/// `box-sizing: v`.
pub open spec fn box_sizing_of(v: Seq<char>) -> BoxSizing {
    if trim(v) == "border-box"@ {
        BoxSizing::BorderBox
    } else {
        BoxSizing::ContentBox
    }
}

/// `text-transform: v`.
pub open spec fn text_transform_of(v: Seq<char>) -> TextTransform {
    let t = trim(v);
    if t == "uppercase"@ {
        TextTransform::Uppercase
    } else if t == "lowercase"@ {
        TextTransform::Lowercase
    } else if t == "capitalize"@ {
        TextTransform::Capitalize
    } else {
        TextTransform::NoTransform
    }
}

/// `text-align: v`.
pub open spec fn text_align_of(v: Seq<char>) -> TextAlign {
    let t = trim(v);
    if t == "center"@ {
        TextAlign::Center
    } else if t == "right"@ {
        TextAlign::Right
    } else if t == "left"@ {
        TextAlign::Left
    } else if t == "justify"@ {
        TextAlign::Justify
    } else {
        TextAlign::Start
    }
}

/// `text-decoration: v`: the first of `underline`, `line-through`, `overline` that occurs in
/// `v`.
pub open spec fn text_decoration_of(v: Seq<char>) -> TextDecoration {
    let t = trim(v);
    if find(t, "underline"@) is Some {
        TextDecoration::Underline
    } else if find(t, "line-through"@) is Some {
        TextDecoration::LineThrough
    } else if find(t, "overline"@) is Some {
        TextDecoration::Overline
    } else {
        TextDecoration::NoDecoration
    }
}

/// `white-space: v`.
pub open spec fn white_space_of(v: Seq<char>) -> WhiteSpace {
    let t = trim(v);
    if t == "nowrap"@ {
        WhiteSpace::Nowrap
    } else if t == "pre"@ {
        WhiteSpace::Pre
    } else if t == "pre-wrap"@ {
        WhiteSpace::PreWrap
    } else {
        WhiteSpace::Normal
    }
}

/// The style after the declaration `p: raw`, for the properties that `keyword_property`
/// names; any other property leaves the style as it is.
pub open spec fn apply_keyword(s: KeywordStyleView, p: Seq<char>, raw: Seq<char>) -> KeywordStyleView {
    let v = trim(raw);
    if p == "background-image"@ {
        KeywordStyleView { background_image_src: background_image_url_of(v), ..s }
    } else if p == "background-repeat"@ {
        match background_repeat_of(v) {
            Some((x, y)) => KeywordStyleView { background_repeat_x: x, background_repeat_y: y, ..s },
            None => s,
        }
    } else if p == "font-weight"@ {
        KeywordStyleView { font_weight: font_weight_of(v) as u32, ..s }
    } else if p == "display"@ {
        match display_keyword(v) {
            Some(d) => KeywordStyleView { display: d, ..s },
            None => s,
        }
    } else if p == "flex-direction"@ {
        KeywordStyleView { flex_direction: flex_direction_keyword(v), ..s }
    } else if p == "justify-content"@ {
        KeywordStyleView { justify_content: justify_content_keyword(v), ..s }
    } else if p == "align-items"@ {
        KeywordStyleView { align_items: align_items_keyword(v), ..s }
    } else if p == "flex-wrap"@ {
        KeywordStyleView { flex_wrap: flex_wrap_keyword(v), ..s }
    } else {
        apply_text_keyword(s, p, v)
    }
}

/// The part of `apply_keyword` for the properties of text and box, `v` trimmed.
pub open spec fn apply_text_keyword(s: KeywordStyleView, p: Seq<char>, v: Seq<char>) -> KeywordStyleView {
    if p == "visibility"@ {
        KeywordStyleView { visibility: visibility_of(v), ..s }
    } else if p == "box-sizing"@ {
        KeywordStyleView { box_sizing: box_sizing_of(v), ..s }
    } else if p == "text-transform"@ {
        KeywordStyleView { text_transform: text_transform_of(v), ..s }
    } else if p == "grid-template-columns"@ {
        KeywordStyleView { grid_template_columns: trim(v), ..s }
    } else if p == "text-align"@ {
        KeywordStyleView { text_align: text_align_of(v), ..s }
    } else if p == "text-decoration"@ {
        KeywordStyleView { text_decoration: text_decoration_of(v), ..s }
    } else if p == "white-space"@ || p == "text-wrap"@ {
        KeywordStyleView { white_space: white_space_of(v), ..s }
    } else {
        s
    }
}

fn word_in(t: &[char], w: &str) -> (r: bool)
    ensures
        r == (find(t@, w@) is Some),
{
    let wc = chars_of(w);
    find_chars(t, wc.as_slice()).is_some()
}

fn text_transform_value(v: &[char]) -> (r: TextTransform)
    ensures
        r == text_transform_of(v@),
{
    let t = trim_vec(v);
    let t = t.as_slice();
    if is_word(t, "uppercase") {
        TextTransform::Uppercase
    } else if is_word(t, "lowercase") {
        TextTransform::Lowercase
    } else if is_word(t, "capitalize") {
        TextTransform::Capitalize
    } else {
        TextTransform::NoTransform
    }
}

fn text_align_value(v: &[char]) -> (r: TextAlign)
    ensures
        r == text_align_of(v@),
{
    let t = trim_vec(v);
    let t = t.as_slice();
    if is_word(t, "center") {
        TextAlign::Center
    } else if is_word(t, "right") {
        TextAlign::Right
    } else if is_word(t, "left") {
        TextAlign::Left
    } else if is_word(t, "justify") {
        TextAlign::Justify
    } else {
        TextAlign::Start
    }
}

fn text_decoration_value(v: &[char]) -> (r: TextDecoration)
    ensures
        r == text_decoration_of(v@),
{
    let t = trim_vec(v);
    let t = t.as_slice();
    if word_in(t, "underline") {
        TextDecoration::Underline
    } else if word_in(t, "line-through") {
        TextDecoration::LineThrough
    } else if word_in(t, "overline") {
        TextDecoration::Overline
    } else {
        TextDecoration::NoDecoration
    }
}

fn white_space_value(v: &[char]) -> (r: WhiteSpace)
    ensures
        r == white_space_of(v@),
{
    let t = trim_vec(v);
    let t = t.as_slice();
    if is_word(t, "nowrap") {
        WhiteSpace::Nowrap
    } else if is_word(t, "pre") {
        WhiteSpace::Pre
    } else if is_word(t, "pre-wrap") {
        WhiteSpace::PreWrap
    } else {
        WhiteSpace::Normal
    }
}

fn box_sizing_value(v: &[char]) -> (r: BoxSizing)
    ensures
        r == box_sizing_of(v@),
{
    let t = trim_vec(v);
    if is_word(t.as_slice(), "border-box") {
        BoxSizing::BorderBox
    } else {
        BoxSizing::ContentBox
    }
}

#[verifier::rlimit(60)]
fn apply_text_keyword_declaration(style: &mut KeywordStyle, p: &[char], vt: &[char]) -> (handled: bool)
    ensures
        handled == (p@ == "visibility"@ || p@ == "box-sizing"@ || p@ == "text-transform"@ || p@
            == "grid-template-columns"@ || p@ == "text-align"@ || p@ == "text-decoration"@ || p@
            == "white-space"@ || p@ == "text-wrap"@),
        final(style)@ == apply_text_keyword(old(style)@, p@, vt@),
{
    if is_word(p, "visibility") {
        style.visibility = if is_word(vt, "hidden") || is_word(vt, "collapse") {
            Visibility::Hidden
        } else {
            Visibility::Visible
        };
    } else if is_word(p, "box-sizing") {
        style.box_sizing = box_sizing_value(vt);
    } else if is_word(p, "text-transform") {
        style.text_transform = text_transform_value(vt);
    } else if is_word(p, "grid-template-columns") {
        let t = trim_vec(vt);
        style.grid_template_columns = string_of(t.as_slice());
    } else if is_word(p, "text-align") {
        style.text_align = text_align_value(vt);
    } else if is_word(p, "text-decoration") {
        style.text_decoration = text_decoration_value(vt);
    } else if is_word(p, "white-space") || is_word(p, "text-wrap") {
        style.white_space = white_space_value(vt);
    } else {
        return false;
    }
    true
}

/// Applies a declaration of one of the keyword-valued properties; returns whether the
/// property is one of them. Any other declaration leaves the style unchanged.
#[verifier::rlimit(60)]
pub fn apply_keyword_declaration(style: &mut KeywordStyle, decl: &Declaration) -> (handled: bool)
    ensures
        handled == keyword_property(decl.property@),
        final(style)@ == apply_keyword(old(style)@, decl.property@, decl.value@),
{
    let p = chars_of(decl.property.as_str());
    let p = p.as_slice();
    let vt = trim_vec(chars_of(decl.value.as_str()).as_slice());
    let value = string_of(vt.as_slice());
    let v = value.as_str();
    if is_word(p, "background-image") {
        style.background_image_src = parse_background_image_url(v);
    } else if is_word(p, "background-repeat") {
        if let Some((x, y)) = parse_background_repeat(v) {
            style.background_repeat_x = x;
            style.background_repeat_y = y;
        }
    } else if is_word(p, "font-weight") {
        style.font_weight = parse_font_weight(v);
    } else if is_word(p, "display") {
        if let Some(d) = parse_display(v) {
            style.display = d;
        }
    } else if is_word(p, "flex-direction") {
        style.flex_direction = parse_flex_direction(v);
    } else if is_word(p, "justify-content") {
        style.justify_content = parse_justify_content(v);
    } else if is_word(p, "align-items") {
        style.align_items = parse_align_items(v);
    } else if is_word(p, "flex-wrap") {
        style.flex_wrap = parse_flex_wrap(v);
    } else {
        return apply_text_keyword_declaration(style, p, vt.as_slice());
    }
    true
}

} // verus!

verus! {

// ---------------------------------------------------------------------------
// Colors
// ---------------------------------------------------------------------------

/// The eight-bit RGBA channels of the CSS color `v` as the `csscolorparser` crate reads it
/// (named colors, hex, `rgb()`, `hsl()` and the other CSS forms); `None` when it does not
/// parse.
pub uninterp spec fn css_color(v: Seq<char>) -> Option<(u8, u8, u8, u8)>;

/// Whether every character of `s` is ASCII.
pub open spec fn all_ascii(s: Seq<char>) -> bool {
    forall|i: int| 0 <= i < s.len() ==> (#[trigger] s[i] as u32) < 128
}

/// Reads a CSS color with `csscolorparser::parse` and takes its eight-bit channels with
/// `Color::to_rgba8`. The contract names the result: a function of the text alone.
/// The text must be ASCII: the parser cuts angle suffixes (`deg`, `grad`, ...) off a function
/// argument by byte count, which panics when the cut falls inside a multi-byte character.
#[verifier::external_body]
fn css_color_channels(value: &str) -> (r: Option<(u8, u8, u8, u8)>)
    requires
        all_ascii(value@),
    ensures
        r == css_color(value@),
{
    match csscolorparser::parse(value) {
        Ok(c) => {
            let [r, g, b, a] = c.to_rgba8();
            Some((r, g, b, a))
        },
        Err(_) => None,
    }
}

/// Whether every character of `s` is ASCII.
fn all_ascii_exec(s: &str) -> (r: bool)
    ensures
        r == all_ascii(s@),
{
    let chars = chars_of(s);
    let mut i: usize = 0;
    while i < chars.len()
        invariant
            i <= chars@.len(),
            chars@ == s@,
            forall|k: int| 0 <= k < i ==> (#[trigger] s@[k] as u32) < 128,
        decreases chars@.len() - i,
    {
        if (chars[i] as u32) >= 128 {
            return false;
        }
        i = i + 1;
    }
    true
}

/// The color that a CSS color value names. The value is trimmed of white space first (as
/// the color parser itself does); a trimmed value holding a character outside ASCII names no
/// color here.
pub fn parse_color(value: &str) -> (r: Option<Color>)
    ensures
        !all_ascii(trim(value@)) ==> r is None,
        all_ascii(trim(value@)) ==> match r {
            Some(c) => css_color(trim(value@)) == Some((c.r, c.g, c.b, c.a)),
            None => css_color(trim(value@)) is None,
        },
{
    let t = string_of(trim_vec(chars_of(value).as_slice()).as_slice());
    if !all_ascii_exec(t.as_str()) {
        return None;
    }
    match css_color_channels(t.as_str()) {
        Some((r, g, b, a)) => Some(Color { r, g, b, a }),
        None => None,
    }
}

} // verus!

verus! {

// ---------------------------------------------------------------------------
// Defaults
// ---------------------------------------------------------------------------

/// The keyword-valued properties of a plain block before any style applies.
pub open spec fn block_keywords() -> KeywordStyleView {
    KeywordStyleView {
        display: Display::Block,
        visibility: Visibility::Visible,
        flex_direction: FlexDirection::Unspecified,
        justify_content: JustifyContent::Unspecified,
        align_items: AlignItems::Unspecified,
        flex_wrap: FlexWrap::Unspecified,
        font_weight: 400,
        box_sizing: BoxSizing::ContentBox,
        text_transform: TextTransform::NoTransform,
        text_align: TextAlign::Start,
        text_decoration: TextDecoration::NoDecoration,
        white_space: WhiteSpace::Normal,
        background_repeat_x: false,
        background_repeat_y: false,
        background_image_src: None,
        grid_template_columns: seq![],
        table_colspan: 1,
        table_rowspan: 1,
    }
}

impl KeywordStyle {
    /// The keyword-valued properties of a plain block.
    pub fn default_block() -> (s: KeywordStyle)
        ensures
            s@ == block_keywords(),
    {
        let s = KeywordStyle {
            display: Display::Block,
            visibility: Visibility::Visible,
            flex_direction: FlexDirection::Unspecified,
            justify_content: JustifyContent::Unspecified,
            align_items: AlignItems::Unspecified,
            flex_wrap: FlexWrap::Unspecified,
            font_weight: 400,
            box_sizing: BoxSizing::ContentBox,
            text_transform: TextTransform::NoTransform,
            text_align: TextAlign::Start,
            text_decoration: TextDecoration::NoDecoration,
            white_space: WhiteSpace::Normal,
            background_repeat_x: false,
            background_repeat_y: false,
            background_image_src: None,
            grid_template_columns: String::new(),
            table_colspan: 1,
            table_rowspan: 1,
        };
        assert(s@.grid_template_columns =~= seq![]);
        s
    }
}

/// The default keyword-valued properties of an element named `tag` (as written).
pub open spec fn tag_keywords(tag: Seq<char>) -> KeywordStyleView {
    let base = block_keywords();
    if tag == "head"@ || tag == "title"@ || tag == "meta"@ || tag == "link"@ || tag == "style"@
        || tag == "script"@ {
        KeywordStyleView { display: Display::NoBox, ..base }
    } else if tag == "h1"@ || tag == "h2"@ || tag == "h3"@ {
        KeywordStyleView { font_weight: 700, ..base }
    } else if tag == "a"@ {
        KeywordStyleView { display: Display::Inline, ..base }
    } else if tag == "b"@ || tag == "strong"@ {
        KeywordStyleView { display: Display::Inline, font_weight: 700, ..base }
    } else if tag == "center"@ {
        KeywordStyleView { text_align: TextAlign::Center, align_items: AlignItems::Center, ..base }
    } else if tag == "input"@ || tag == "button"@ || tag == "select"@ || tag == "textarea"@ {
        KeywordStyleView {
            display: Display::Inline,
            white_space: WhiteSpace::Nowrap,
            box_sizing: BoxSizing::BorderBox,
            ..base
        }
    } else if tag == "table"@ || tag == "thead"@ || tag == "tbody"@ || tag == "tfoot"@ {
        KeywordStyleView { display: Display::Flex, flex_direction: FlexDirection::Column, ..base }
    } else if tag == "tr"@ {
        KeywordStyleView { display: Display::Flex, flex_direction: FlexDirection::Row, ..base }
    } else if tag == "html"@ || tag == "body"@ || tag == "p"@ || tag == "div"@ || tag == "section"@
        || tag == "article"@ || tag == "header"@ || tag == "footer"@ || tag == "main"@ || tag
        == "nav"@ || tag == "aside"@ || tag == "form"@ || tag == "ul"@ || tag == "ol"@ || tag
        == "li"@ || tag == "td"@ || tag == "th"@ {
        base
    } else {
        KeywordStyleView { display: Display::Inline, ..base }
    }
}

fn is_block_tag(t: &[char]) -> (r: bool)
    ensures
        r == (t@ == "html"@ || t@ == "body"@ || t@ == "p"@ || t@ == "div"@ || t@ == "section"@
            || t@ == "article"@ || t@ == "header"@ || t@ == "footer"@ || t@ == "main"@ || t@
            == "nav"@ || t@ == "aside"@ || t@ == "form"@ || t@ == "ul"@ || t@ == "ol"@ || t@
            == "li"@ || t@ == "td"@ || t@ == "th"@),
{
    is_word(t, "html") || is_word(t, "body") || is_word(t, "p") || is_word(t, "div") || is_word(
        t,
        "section",
    ) || is_word(t, "article") || is_word(t, "header") || is_word(t, "footer") || is_word(
        t,
        "main",
    ) || is_word(t, "nav") || is_word(t, "aside") || is_word(t, "form") || is_word(t, "ul")
        || is_word(t, "ol") || is_word(t, "li") || is_word(t, "td") || is_word(t, "th")
}

/// The default keyword-valued properties of an element named `tag`.
#[verifier::rlimit(40)]
pub fn default_keywords_for_tag(tag: &str) -> (s: KeywordStyle)
    ensures
        s@ == tag_keywords(tag@),
{
    let c = chars_of(tag);
    let t = c.as_slice();
    let mut s = KeywordStyle::default_block();
    if is_word(t, "head") || is_word(t, "title") || is_word(t, "meta") || is_word(t, "link")
        || is_word(t, "style") || is_word(t, "script") {
        s.display = Display::NoBox;
    } else if is_word(t, "h1") || is_word(t, "h2") || is_word(t, "h3") {
        s.font_weight = 700;
    } else if is_word(t, "a") {
        s.display = Display::Inline;
    } else if is_word(t, "b") || is_word(t, "strong") {
        s.display = Display::Inline;
        s.font_weight = 700;
    } else if is_word(t, "center") {
        s.text_align = TextAlign::Center;
        s.align_items = AlignItems::Center;
    } else if is_word(t, "input") || is_word(t, "button") || is_word(t, "select") || is_word(
        t,
        "textarea",
    ) {
        s.display = Display::Inline;
        s.white_space = WhiteSpace::Nowrap;
        s.box_sizing = BoxSizing::BorderBox;
    } else if is_word(t, "table") || is_word(t, "thead") || is_word(t, "tbody") || is_word(
        t,
        "tfoot",
    ) {
        s.display = Display::Flex;
        s.flex_direction = FlexDirection::Column;
    } else if is_word(t, "tr") {
        s.display = Display::Flex;
        s.flex_direction = FlexDirection::Row;
    } else if is_block_tag(t) {
    } else {
        s.display = Display::Inline;
    }
    s
}

} // verus!

verus! {

// ---------------------------------------------------------------------------
// Presentational HTML attributes
// ---------------------------------------------------------------------------

/// The alignment that a table cell's `align` attribute asks (trimmed, any ASCII case).
pub open spec fn cell_align(v: Seq<char>) -> Option<(TextAlign, AlignItems)> {
    let t = ascii_lower_seq(trim(v));
    if t == "center"@ || t == "middle"@ {
        Some((TextAlign::Center, AlignItems::Center))
    } else if t == "right"@ {
        Some((TextAlign::Right, AlignItems::FlexEnd))
    } else if t == "left"@ {
        Some((TextAlign::Left, AlignItems::FlexStart))
    } else {
        None
    }
}

/// The style after a table cell's `colspan` (or, with `row`, `rowspan`) attribute.
pub open spec fn span_step(s: KeywordStyleView, attrs: Seq<(Seq<char>, Seq<char>)>, row: bool) -> KeywordStyleView {
    let name = if row {
        "rowspan"@
    } else {
        "colspan"@
    };
    match crate::resolve::attr_of(attrs, name) {
        Some(v) => match span_value_of(v) {
            Some(n) => if row {
                KeywordStyleView { table_rowspan: n as u16, ..s }
            } else {
                KeywordStyleView { table_colspan: n as u16, ..s }
            },
            None => s,
        },
        None => s,
    }
}

/// The style after a table cell's `align` attribute.
pub open spec fn align_step(s: KeywordStyleView, attrs: Seq<(Seq<char>, Seq<char>)>) -> KeywordStyleView {
    match crate::resolve::attr_of(attrs, "align"@) {
        Some(a) => match cell_align(a) {
            Some((ta, ai)) => KeywordStyleView { text_align: ta, align_items: ai, ..s },
            None => s,
        },
        None => s,
    }
}

/// The style after a `nowrap` attribute.
pub open spec fn nowrap_step(s: KeywordStyleView, attrs: Seq<(Seq<char>, Seq<char>)>) -> KeywordStyleView {
    if crate::resolve::attr_of(attrs, "nowrap"@) is Some {
        KeywordStyleView { white_space: WhiteSpace::Nowrap, ..s }
    } else {
        s
    }
}

/// A table cell's style after its `colspan`, `rowspan`, `align` and `nowrap` attributes.
pub open spec fn cell_attr_keywords(s: KeywordStyleView, attrs: Seq<(Seq<char>, Seq<char>)>) -> KeywordStyleView {
    nowrap_step(align_step(span_step(span_step(s, attrs, false), attrs, true), attrs), attrs)
}

/// The style of an element named `tag` (lower-cased) after its presentational attributes,
/// among the keyword-valued properties: a body's or div's `background` image (tiled both
/// ways), a table cell's span, alignment and `nowrap`, a span's `nowrap`.
pub open spec fn html_attr_keywords(s: KeywordStyleView, tag: Seq<char>, attrs: Seq<(Seq<char>, Seq<char>)>) -> KeywordStyleView {
    if tag == "body"@ || tag == "div"@ {
        match crate::resolve::attr_of(attrs, "background"@) {
            Some(b) => if trim(b).len() > 0 {
                KeywordStyleView {
                    background_image_src: Some(trim(b)),
                    background_repeat_x: true,
                    background_repeat_y: true,
                    ..s
                }
            } else {
                s
            },
            None => s,
        }
    } else if tag == "td"@ || tag == "th"@ {
        cell_attr_keywords(s, attrs)
    } else if tag == "span"@ {
        nowrap_step(s, attrs)
    } else {
        s
    }
}

fn cell_align_value(v: &str) -> (r: Option<(TextAlign, AlignItems)>)
    ensures
        r == cell_align(v@),
{
    let t = trim_vec(chars_of(v).as_slice());
    let t = ascii_lower_vec(t.as_slice());
    let t = t.as_slice();
    if is_word(t, "center") || is_word(t, "middle") {
        Some((TextAlign::Center, AlignItems::Center))
    } else if is_word(t, "right") {
        Some((TextAlign::Right, AlignItems::FlexEnd))
    } else if is_word(t, "left") {
        Some((TextAlign::Left, AlignItems::FlexStart))
    } else {
        None
    }
}

fn apply_span_attr(style: &mut KeywordStyle, attrs: &Vec<(String, String)>, row: bool)
    ensures
        final(style)@ == span_step(old(style)@, crate::dom::pairs_view(attrs@), row),
{
    let name = if row {
        "rowspan"
    } else {
        "colspan"
    };
    if let Some(v) = crate::resolve::attr_value(attrs, name) {
        if let Some(n) = parse_span_value(v.as_str()) {
            if row {
                style.table_rowspan = n;
            } else {
                style.table_colspan = n;
            }
        }
    }
}

fn apply_align_attr(style: &mut KeywordStyle, attrs: &Vec<(String, String)>)
    ensures
        final(style)@ == align_step(old(style)@, crate::dom::pairs_view(attrs@)),
{
    if let Some(a) = crate::resolve::attr_value(attrs, "align") {
        if let Some((ta, ai)) = cell_align_value(a.as_str()) {
            style.text_align = ta;
            style.align_items = ai;
        }
    }
}

fn apply_nowrap_attr(style: &mut KeywordStyle, attrs: &Vec<(String, String)>)
    ensures
        final(style)@ == nowrap_step(old(style)@, crate::dom::pairs_view(attrs@)),
{
    if crate::resolve::attr_value(attrs, "nowrap").is_some() {
        style.white_space = WhiteSpace::Nowrap;
    }
}

fn apply_cell_attributes(style: &mut KeywordStyle, attrs: &Vec<(String, String)>)
    ensures
        final(style)@ == cell_attr_keywords(old(style)@, crate::dom::pairs_view(attrs@)),
{
    apply_span_attr(style, attrs, false);
    apply_span_attr(style, attrs, true);
    apply_align_attr(style, attrs);
    apply_nowrap_attr(style, attrs);
}

/// Applies the presentational attributes of an element whose lower-cased name is
/// `lowered_tag`, among the keyword-valued properties.
pub fn apply_html_attribute_keywords(
    style: &mut KeywordStyle,
    lowered_tag: &str,
    attrs: &Vec<(String, String)>,
)
    ensures
        final(style)@ == html_attr_keywords(old(style)@, lowered_tag@, crate::dom::pairs_view(attrs@)),
{
    let c = chars_of(lowered_tag);
    let t = c.as_slice();
    if is_word(t, "body") || is_word(t, "div") {
        if let Some(b) = crate::resolve::attr_value(attrs, "background") {
            let bt = trim_vec(chars_of(b.as_str()).as_slice());
            if bt.len() > 0 {
                style.background_image_src = Some(string_of(bt.as_slice()));
                style.background_repeat_x = true;
                style.background_repeat_y = true;
            }
        }
    } else if is_word(t, "td") || is_word(t, "th") {
        apply_cell_attributes(style, attrs);
    } else if is_word(t, "span") {
        apply_nowrap_attr(style, attrs);
    }
}

/// Applies the presentational attributes of an element named `tag` (lower-cased as
/// `str::to_lowercase` does), among the keyword-valued properties.
pub fn apply_html_attributes(style: &mut KeywordStyle, tag: &str, attrs: &Vec<(String, String)>)
    ensures
        final(style)@ == html_attr_keywords(
            old(style)@,
            unicode_lowercase(tag@),
            crate::dom::pairs_view(attrs@),
        ),
{
    let lowered = to_lowercase(tag);
    apply_html_attribute_keywords(style, lowered.as_str(), attrs);
}

} // verus!

verus! {

proof fn lemma_css_tokens_nonempty(s: Seq<char>, i: int, depth: int, cur: Seq<char>)
    ensures
        forall|k: int|
            0 <= k < css_tokens_from(s, i, depth, cur).len() ==> (#[trigger] css_tokens_from(
                s,
                i,
                depth,
                cur,
            )[k]).len() > 0,
    decreases s.len() - i,
{
    let r = css_tokens_from(s, i, depth, cur);
    if i < 0 || i >= s.len() {
        if cur.len() > 0 {
            assert(r == seq![cur]);
        } else {
            assert(r.len() == 0);
        }
    } else if s[i] == '(' {
        lemma_css_tokens_nonempty(s, i + 1, depth + 1, cur.push('('));
        assert(r == css_tokens_from(s, i + 1, depth + 1, cur.push('(')));
    } else if s[i] == ')' {
        lemma_css_tokens_nonempty(s, i + 1, depth - 1, cur.push(')'));
        assert(r == css_tokens_from(s, i + 1, depth - 1, cur.push(')')));
    } else if (s[i] == ' ' || s[i] == '\t') && depth == 0 {
        lemma_css_tokens_nonempty(s, i + 1, depth, seq![]);
        if cur.len() == 0 {
            assert(r == css_tokens_from(s, i + 1, depth, seq![]));
        } else {
            let rest = css_tokens_from(s, i + 1, depth, seq![]);
            assert(r == seq![cur] + rest);
            assert forall|k: int| 0 <= k < r.len() implies (#[trigger] r[k]).len() > 0 by {
                if k > 0 {
                    assert(r[k] == rest[k - 1]);
                }
            }
        }
    } else {
        lemma_css_tokens_nonempty(s, i + 1, depth, cur.push(s[i]));
        assert(r == css_tokens_from(s, i + 1, depth, cur.push(s[i])));
    }
}

/// Law: the tokens of a value are never empty.
pub proof fn css_tokens_are_nonempty(s: Seq<char>)
    ensures
        forall|k: int| 0 <= k < css_tokens(s).len() ==> (#[trigger] css_tokens(s)[k]).len() > 0,
{
    lemma_css_tokens_nonempty(s, 0, 0, seq![]);
}

} // verus!
