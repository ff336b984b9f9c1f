//! The decisions of the cascade that do not depend on lengths: in what order an element's
//! declarations apply, which inherited properties its own declarations set, and the
//! inheritance of the keyword-valued ones.

use vstd::prelude::*;

use crate::css::{by_precedence, sort_by_precedence, Declaration};
use crate::sheet::{declaration_list, decls_view, parse_declarations};
use crate::style::{KeywordStyle, KeywordStyleView};
use crate::dom::pairs_view;
use crate::resolve::{attr_of, attr_value};
use crate::text::{
    chars_of, eq_ignore_case, eq_ignore_case_vec, find, find_chars, is_word, to_lowercase,
    unicode_lowercase,
};

verus! {

// ---------------------------------------------------------------------------
// Order of application
// ---------------------------------------------------------------------------

/// Whether a declaration sets `font-size`.
pub open spec fn sets_font_size(d: Declaration) -> bool {
    d.property@ == "font-size"@
}

/// The declarations of `s` that set `font-size` (when `font_size`) or that do not, in order.
pub open spec fn split_font_size(s: Seq<Declaration>, font_size: bool) -> Seq<Declaration>
    decreases s.len(),
{
    if s.len() == 0 {
        seq![]
    } else {
        let r = split_font_size(s.drop_last(), font_size);
        if sets_font_size(s.last()) == font_size {
            r.push(s.last())
        } else {
            r
        }
    }
}

/// `s` with its `font-size` declarations first, each part in its own order: a font size
/// must be known before the lengths that depend on it.
pub open spec fn font_size_first(s: Seq<Declaration>) -> Seq<Declaration> {
    split_font_size(s, true) + split_font_size(s, false)
}

/// The declarations of matched rules, without their specificity.
pub open spec fn unranked(s: Seq<(Declaration, u32)>) -> Seq<Declaration> {
    s.map_values(|p: (Declaration, u32)| p.0)
}

/// The order in which an element's declarations apply: the matched ones by precedence,
/// then the ones of its `style` attribute in source order; in each group the `font-size`
/// declarations come first.
pub open spec fn application_order(matched: Seq<(Declaration, u32)>, inline: Seq<Declaration>) -> Seq<
    Declaration,
> {
    font_size_first(unranked(by_precedence(matched))) + font_size_first(inline)
}

fn copy_declaration(d: &Declaration) -> (r: Declaration)
    ensures
        r == *d,
{
    Declaration { property: d.property.clone(), value: d.value.clone(), important: d.important }
}

fn is_font_size(d: &Declaration) -> (r: bool)
    ensures
        r == sets_font_size(*d),
{
    is_word(chars_of(d.property.as_str()).as_slice(), "font-size")
}

/// Appends the declarations of `s` with (`font_size`) or without a `font-size` property.
fn push_split(out: &mut Vec<Declaration>, s: &Vec<Declaration>, font_size: bool)
    ensures
        final(out)@ == old(out)@ + split_font_size(s@, font_size),
{
    let ghost start = out@;
    let mut i: usize = 0;
    while i < s.len()
        invariant
            i <= s@.len(),
            out@ == start + split_font_size(s@.subrange(0, i as int), font_size),
        decreases s@.len() - i,
    {
        assert(s@.subrange(0, i + 1).drop_last() =~= s@.subrange(0, i as int));
        assert(s@.subrange(0, i + 1).last() == s@[i as int]);
        if is_font_size(&s[i]) == font_size {
            let d = copy_declaration(&s[i]);
            out.push(d);
            assert(out@ =~= start + split_font_size(s@.subrange(0, i + 1), font_size));
        }
        i = i + 1;
    }
    assert(s@.subrange(0, i as int) =~= s@);
}

/// The order in which an element's declarations apply.
pub fn cascade_order(matched: &Vec<(Declaration, u32)>, inline: &Vec<Declaration>) -> (r: Vec<
    Declaration,
>)
    ensures
        r@ == application_order(matched@, inline@),
{
    let mut copied: Vec<(Declaration, u32)> = Vec::new();
    let mut i: usize = 0;
    while i < matched.len()
        invariant
            i <= matched@.len(),
            copied@ == matched@.subrange(0, i as int),
        decreases matched@.len() - i,
    {
        let d = copy_declaration(&matched[i].0);
        copied.push((d, matched[i].1));
        assert(copied@ =~= matched@.subrange(0, i + 1));
        i = i + 1;
    }
    assert(copied@ =~= matched@);
    let sorted = sort_by_precedence(copied);
    let mut plain: Vec<Declaration> = Vec::new();
    let mut k: usize = 0;
    while k < sorted.len()
        invariant
            k <= sorted@.len(),
            plain@ == unranked(sorted@.subrange(0, k as int)),
        decreases sorted@.len() - k,
    {
        let d = copy_declaration(&sorted[k].0);
        plain.push(d);
        assert(plain@ =~= unranked(sorted@.subrange(0, k + 1)));
        k = k + 1;
    }
    assert(sorted@.subrange(0, k as int) =~= sorted@);
    let mut out: Vec<Declaration> = Vec::new();
    push_split(&mut out, &plain, true);
    push_split(&mut out, &plain, false);
    push_split(&mut out, inline, true);
    push_split(&mut out, inline, false);
    assert(out@ =~= application_order(matched@, inline@));
    out
}

// ---------------------------------------------------------------------------
// Inheritance
// ---------------------------------------------------------------------------

/// Which inherited properties an element's own declarations set; those it does not set it
/// takes from its parent.
#[derive(Clone, Copy, Debug)]
pub struct InheritFlags {
    pub font_size: bool,
    pub color: bool,
    pub font_weight: bool,
    pub letter_spacing: bool,
    pub text_transform: bool,
    pub visibility: bool,
    pub white_space: bool,
}

/// Whether one of the matched declarations sets `p`.
pub open spec fn matched_sets(m: Seq<(Declaration, u32)>, p: Seq<char>) -> bool {
    exists|k: int| 0 <= k < m.len() && (#[trigger] m[k]).0.property@ == p
}

/// Whether the `style` attribute's text holds `w`.
pub open spec fn mentions(style: Option<Seq<char>>, w: Seq<char>) -> bool {
    match style {
        Some(s) => find(s, w) is Some,
        None => false,
    }
}

/// Whether a declaration of the `style` attribute sets `p`.
pub open spec fn inline_sets(style: Option<Seq<char>>, p: Seq<char>) -> bool {
    match style {
        Some(s) => exists|k: int|
            0 <= k < declaration_list(s).len() && (#[trigger] declaration_list(s)[k]).0 == p,
        None => false,
    }
}

/// The inherited properties that an element's matched declarations and `style` attribute
/// set. Some count as set when the attribute's text merely names them.
pub open spec fn inherit_flags(m: Seq<(Declaration, u32)>, style: Option<Seq<char>>) -> InheritFlags {
    InheritFlags {
        font_size: matched_sets(m, "font-size"@) || mentions(style, "font-size"@) || inline_sets(
            style,
            "font-size"@,
        ),
        color: matched_sets(m, "color"@) || mentions(style, "color"@),
        font_weight: matched_sets(m, "font-weight"@) || mentions(style, "font-weight"@),
        letter_spacing: matched_sets(m, "letter-spacing"@),
        text_transform: matched_sets(m, "text-transform"@),
        visibility: matched_sets(m, "visibility"@) || mentions(style, "visibility"@),
        white_space: matched_sets(m, "white-space"@) || matched_sets(m, "text-wrap"@) || mentions(
            style,
            "white-space"@,
        ) || mentions(style, "text-wrap"@) || inline_sets(style, "white-space"@) || inline_sets(
            style,
            "text-wrap"@,
        ),
    }
}

fn matched_has(m: &Vec<(Declaration, u32)>, p: &str) -> (r: bool)
    ensures
        r == matched_sets(m@, p@),
{
    crate::css::declares_property(m, p)
}

fn text_mentions(s: &Vec<char>, w: &str) -> (r: bool)
    ensures
        r == (find(s@, w@) is Some),
{
    let wc = chars_of(w);
    find_chars(s.as_slice(), wc.as_slice()).is_some()
}

fn list_has(ds: &Vec<Declaration>, p: &str) -> (r: bool)
    ensures
        r == exists|k: int| 0 <= k < ds@.len() && (#[trigger] decls_view(ds@)[k]).0 == p@,
{
    let mut k: usize = 0;
    while k < ds.len()
        invariant
            k <= ds@.len(),
            forall|j: int| 0 <= j < k ==> (#[trigger] decls_view(ds@)[j]).0 != p@,
        decreases ds@.len() - k,
    {
        assert(decls_view(ds@)[k as int].0 == ds@[k as int].property@);
        if is_word(chars_of(ds[k].property.as_str()).as_slice(), p) {
            return true;
        }
        k = k + 1;
    }
    false
}

/// Which inherited properties an element's matched declarations and `style` attribute set.
pub fn inherited_properties(matched: &Vec<(Declaration, u32)>, inline_style: Option<&str>) -> (r:
    InheritFlags)
    ensures
        r == inherit_flags(
            matched@,
            match inline_style {
                Some(s) => Some(s@),
                None => None,
            },
        ),
{
    let ghost st = match inline_style {
        Some(s) => Some(s@),
        None => None,
    };
    let mut flags = InheritFlags {
        font_size: matched_has(matched, "font-size"),
        color: matched_has(matched, "color"),
        font_weight: matched_has(matched, "font-weight"),
        letter_spacing: matched_has(matched, "letter-spacing"),
        text_transform: matched_has(matched, "text-transform"),
        visibility: matched_has(matched, "visibility"),
        white_space: matched_has(matched, "white-space") || matched_has(matched, "text-wrap"),
    };
    match inline_style {
        Some(s) => {
            let c = chars_of(s);
            let decls = parse_declarations(s);
            assert(decls_view(decls@) == declaration_list(s@));
            flags.font_size = flags.font_size || text_mentions(&c, "font-size") || list_has(
                &decls,
                "font-size",
            );
            flags.color = flags.color || text_mentions(&c, "color");
            flags.font_weight = flags.font_weight || text_mentions(&c, "font-weight");
            flags.visibility = flags.visibility || text_mentions(&c, "visibility");
            flags.white_space = flags.white_space || text_mentions(&c, "white-space")
                || text_mentions(&c, "text-wrap") || list_has(&decls, "white-space") || list_has(
                &decls,
                "text-wrap",
            );
        },
        None => {},
    }
    flags
}

/// `style` after taking from `parent` each keyword-valued inherited property that the
/// element's own declarations do not set.
pub open spec fn inherited_keywords(
    style: KeywordStyleView,
    parent: KeywordStyleView,
    flags: InheritFlags,
) -> KeywordStyleView {
    KeywordStyleView {
        font_weight: if flags.font_weight {
            style.font_weight
        } else {
            parent.font_weight
        },
        text_transform: if flags.text_transform {
            style.text_transform
        } else {
            parent.text_transform
        },
        visibility: if flags.visibility {
            style.visibility
        } else {
            parent.visibility
        },
        white_space: if flags.white_space {
            style.white_space
        } else {
            parent.white_space
        },
        ..style
    }
}

/// Takes from `parent` each keyword-valued inherited property that `flags` does not mark set.
pub fn inherit_keywords(style: &mut KeywordStyle, parent: &KeywordStyle, flags: &InheritFlags)
    ensures
        final(style)@ == inherited_keywords(old(style)@, parent@, *flags),
{
    let font_weight = if flags.font_weight { style.font_weight } else { parent.font_weight };
    let text_transform = if flags.text_transform {
        style.text_transform
    } else {
        parent.text_transform
    };
    let visibility = if flags.visibility { style.visibility } else { parent.visibility };
    let white_space = if flags.white_space { style.white_space } else { parent.white_space };
    style.font_weight = font_weight;
    style.text_transform = text_transform;
    style.visibility = visibility;
    style.white_space = white_space;
}

// ---------------------------------------------------------------------------
// Form inputs
// ---------------------------------------------------------------------------

/// How an `input` element presents itself: whether it is hidden (`type="hidden"`), and the
/// text it shows as a button (its `value`, for the button types and the default type).
pub struct InputPresentation {
    pub hidden: bool,
    pub shown_text: Option<String>,
}

/// The lower-cased `type` of an element, empty when it has none.
pub open spec fn input_type_of(attrs: Seq<(Seq<char>, Seq<char>)>) -> Seq<char> {
    match attr_of(attrs, "type"@) {
        Some(t) => unicode_lowercase(t),
        None => unicode_lowercase(seq![]),
    }
}

/// Whether an `input` of type `t` shows its value as a button's text.
pub open spec fn shows_value(t: Seq<char>) -> bool {
    t == "submit"@ || t == "button"@ || t == "reset"@ || t.len() == 0
}

/// Whether the element `tag` with `attrs` is a hidden input.
pub open spec fn hidden_input(tag: Seq<char>, attrs: Seq<(Seq<char>, Seq<char>)>) -> bool {
    eq_ignore_case(tag, "input"@) && input_type_of(attrs) == "hidden"@
}

/// The text that the element `tag` with `attrs` shows as a button, if any.
pub open spec fn input_text(tag: Seq<char>, attrs: Seq<(Seq<char>, Seq<char>)>) -> Option<Seq<char>> {
    let value = match attr_of(attrs, "value"@) {
        Some(v) => v,
        None => seq![],
    };
    if eq_ignore_case(tag, "input"@) && !hidden_input(tag, attrs) && shows_value(input_type_of(attrs))
        && value.len() > 0 {
        Some(value)
    } else {
        None
    }
}

/// How the element `tag` with `attrs` presents itself when it is a form input.
pub fn input_presentation(tag: &str, attrs: &Vec<(String, String)>) -> (r: InputPresentation)
    ensures
        r.hidden == hidden_input(tag@, pairs_view(attrs@)),
        match r.shown_text {
            Some(t) => input_text(tag@, pairs_view(attrs@)) == Some(t@),
            None => input_text(tag@, pairs_view(attrs@)) is None,
        },
{
    let ghost av = pairs_view(attrs@);
    let is_input = eq_ignore_case_vec(chars_of(tag).as_slice(), chars_of("input").as_slice());
    let ty = match attr_value(attrs, "type") {
        Some(t) => to_lowercase(t.as_str()),
        None => to_lowercase(""),
    };
    proof {
        reveal_strlit("");
        assert(""@ =~= Seq::<char>::empty());
    }
    assert(ty@ == input_type_of(av));
    let tc = chars_of(ty.as_str());
    let hidden = is_input && is_word(tc.as_slice(), "hidden");
    let value = match attr_value(attrs, "value") {
        Some(v) => v,
        None => String::new(),
    };
    let shows = is_word(tc.as_slice(), "submit") || is_word(tc.as_slice(), "button") || is_word(
        tc.as_slice(),
        "reset",
    ) || tc.len() == 0;
    let vc = chars_of(value.as_str());
    let shown_text = if is_input && !hidden && shows && vc.len() > 0 {
        Some(value)
    } else {
        None
    };
    InputPresentation { hidden, shown_text }
}

} // verus!

verus! {

/// Law: a keyword-valued inherited property that the element sets itself keeps the element's
/// own value; one it does not set comes from the parent; no other property changes.
pub proof fn own_keywords_are_kept(
    style: KeywordStyleView,
    parent: KeywordStyleView,
    flags: InheritFlags,
)
    ensures
        ({
            let r = inherited_keywords(style, parent, flags);
            &&& r.font_weight == (if flags.font_weight { style.font_weight } else { parent.font_weight })
            &&& r.text_transform == (if flags.text_transform { style.text_transform } else { parent.text_transform })
            &&& r.visibility == (if flags.visibility { style.visibility } else { parent.visibility })
            &&& r.white_space == (if flags.white_space { style.white_space } else { parent.white_space })
            &&& r.display == style.display
            &&& r.flex_direction == style.flex_direction
            &&& r.justify_content == style.justify_content
            &&& r.align_items == style.align_items
            &&& r.flex_wrap == style.flex_wrap
            &&& r.box_sizing == style.box_sizing
            &&& r.text_align == style.text_align
            &&& r.text_decoration == style.text_decoration
            &&& r.background_repeat_x == style.background_repeat_x
            &&& r.background_repeat_y == style.background_repeat_y
            &&& r.background_image_src == style.background_image_src
            &&& r.grid_template_columns == style.grid_template_columns
            &&& r.table_colspan == style.table_colspan
            &&& r.table_rowspan == style.table_rowspan
        }),
{
}

} // verus!
