use vstd::prelude::*;

use crate::style::{StyledKind, WhiteSpace};
use crate::text::{
    chars_of, ends_with, ends_with_vec, is_whitespace, is_word, is_ws, starts_with, starts_with_vec,
    string_of, subrange_vec, to_lowercase, trim, trim_vec, unicode_lowercase,
};

verus! {

/// A decoded image ready for layout: `width * height` RGBA pixels.
#[derive(Clone, Debug)]
pub struct LayoutImage {
    pub rgba: Vec<u8>,
    pub width: u32,
    pub height: u32,
}

// ---------------------------------------------------------------------------
// Inline elements
// ---------------------------------------------------------------------------

/// Whether a lower-cased tag name is an element that holds only inline text.
pub open spec fn inline_container_name(t: Seq<char>) -> bool {
    ||| t == "a"@ || t == "abbr"@ || t == "b"@ || t == "bdi"@ || t == "bdo"@ || t == "cite"@
    ||| t == "code"@ || t == "dfn"@ || t == "em"@ || t == "i"@ || t == "kbd"@ || t == "label"@
    ||| t == "mark"@ || t == "q"@ || t == "rp"@ || t == "rt"@ || t == "ruby"@ || t == "s"@
    ||| t == "samp"@ || t == "small"@ || t == "span"@ || t == "strong"@ || t == "sub"@
    ||| t == "sup"@ || t == "time"@ || t == "u"@ || t == "var"@
}

/// Whether a lower-cased tag name is an element that flows inline.
pub open spec fn naturally_inline_name(t: Seq<char>) -> bool {
    ||| inline_container_name(t)
    ||| t == "br"@ || t == "wbr"@ || t == "img"@ || t == "input"@ || t == "button"@
    ||| t == "select"@ || t == "textarea"@ || t == "svg"@ || t == "path"@
}

/// Whether `lowered`, a lower-cased tag name, holds only inline text.
#[verifier::rlimit(30)]
pub fn is_inline_container_name(lowered: &str) -> (r: bool)
    ensures
        r == inline_container_name(lowered@),
{
    let c = chars_of(lowered);
    let t = c.as_slice();
    is_word(t, "a") || is_word(t, "abbr") || is_word(t, "b") || is_word(t, "bdi") || is_word(
        t,
        "bdo",
    ) || is_word(t, "cite") || is_word(t, "code") || is_word(t, "dfn") || is_word(t, "em")
        || is_word(t, "i") || is_word(t, "kbd") || is_word(t, "label") || is_word(t, "mark")
        || is_word(t, "q") || is_word(t, "rp") || is_word(t, "rt") || is_word(t, "ruby")
        || is_word(t, "s") || is_word(t, "samp") || is_word(t, "small") || is_word(t, "span")
        || is_word(t, "strong") || is_word(t, "sub") || is_word(t, "sup") || is_word(t, "time")
        || is_word(t, "u") || is_word(t, "var")
}

/// Whether `lowered`, a lower-cased tag name, flows inline.
pub fn is_naturally_inline_name(lowered: &str) -> (r: bool)
    ensures
        r == naturally_inline_name(lowered@),
{
    if is_inline_container_name(lowered) {
        return true;
    }
    let c = chars_of(lowered);
    let t = c.as_slice();
    is_word(t, "br") || is_word(t, "wbr") || is_word(t, "img") || is_word(t, "input") || is_word(
        t,
        "button",
    ) || is_word(t, "select") || is_word(t, "textarea") || is_word(t, "svg") || is_word(t, "path")
}

/// Whether `tag`, lower-cased as `str::to_lowercase` does, flows inline.
pub fn is_naturally_inline_tag(tag: &str) -> (r: bool)
    ensures
        r == naturally_inline_name(unicode_lowercase(tag@)),
{
    let lowered = to_lowercase(tag);
    is_naturally_inline_name(lowered.as_str())
}

/// Whether `tag`, lower-cased as `str::to_lowercase` does, holds only inline text.
pub fn is_inline_text_container_tag(tag: &str) -> (r: bool)
    ensures
        r == inline_container_name(unicode_lowercase(tag@)),
{
    let lowered = to_lowercase(tag);
    is_inline_container_name(lowered.as_str())
}

/// Whether a styled node of this kind flows inline: text does, the document does not, an
/// element by its tag.
pub open spec fn naturally_inline_kind(kind: StyledKind) -> bool {
    match kind {
        StyledKind::Text(_) => true,
        StyledKind::Element { tag } => naturally_inline_name(unicode_lowercase(tag@)),
        StyledKind::Document => false,
    }
}

pub fn is_naturally_inline_kind(kind: &StyledKind) -> (r: bool)
    ensures
        r == naturally_inline_kind(*kind),
{
    match kind {
        StyledKind::Text(_) => true,
        StyledKind::Element { tag } => is_naturally_inline_tag(tag.as_str()),
        StyledKind::Document => false,
    }
}

/// Whether `c` is in one of the blocks of kana, CJK ideographs and full-width forms, where a
/// line may break between any two characters.
pub open spec fn cjk(c: char) -> bool {
    let u = c as u32;
    ||| 0x3040 <= u <= 0x309f
    ||| 0x30a0 <= u <= 0x30ff
    ||| 0x3400 <= u <= 0x4dbf
    ||| 0x4e00 <= u <= 0x9fff
    ||| 0xf900 <= u <= 0xfaff
    ||| 0xff00 <= u <= 0xffef
}

pub fn is_cjk_char(ch: char) -> (r: bool)
    ensures
        r == cjk(ch),
{
    let u = ch as u32;
    (0x3040 <= u && u <= 0x309f) || (0x30a0 <= u && u <= 0x30ff) || (0x3400 <= u && u <= 0x4dbf)
        || (0x4e00 <= u && u <= 0x9fff) || (0xf900 <= u && u <= 0xfaff) || (0xff00 <= u && u
        <= 0xffef)
}

// ---------------------------------------------------------------------------
// White space
// ---------------------------------------------------------------------------

/// The text from index `i` on with each run of white space made one space, except a run that
/// follows a space already given (`prev`).
pub open spec fn collapse_from(s: Seq<char>, i: int, prev: bool) -> Seq<char>
    decreases s.len() - i,
{
    if i < 0 || i >= s.len() {
        seq![]
    } else if is_ws(s[i]) {
        if !prev {
            seq![' '] + collapse_from(s, i + 1, true)
        } else {
            collapse_from(s, i + 1, true)
        }
    } else {
        seq![s[i]] + collapse_from(s, i + 1, false)
    }
}

/// What `collapse_html_whitespace` gives: runs of white space made one space, none at the
/// start or the end.
pub open spec fn collapsed(s: Seq<char>) -> Seq<char> {
    let c = collapse_from(s, 0, true);
    if c.len() > 0 && c.last() == ' ' {
        c.drop_last()
    } else {
        c
    }
}

/// What `collapse_inline_text_node_whitespace` gives: runs of white space made one space,
/// kept at both ends.
pub open spec fn collapsed_inline(s: Seq<char>) -> Seq<char> {
    collapse_from(s, 0, false)
}

fn collapse_chars(s: &[char], start_as_space: bool) -> (r: Vec<char>)
    ensures
        r@ == collapse_from(s@, 0, start_as_space),
{
    let mut r: Vec<char> = Vec::new();
    let mut prev = start_as_space;
    let mut i: usize = 0;
    while i < s.len()
        invariant
            i <= s@.len(),
            r@ + collapse_from(s@, i as int, prev) == collapse_from(s@, 0, start_as_space),
        decreases s@.len() - i,
    {
        let c = s[i];
        let ghost before = r@;
        if is_whitespace(c) {
            if !prev {
                r.push(' ');
                assert(before + collapse_from(s@, i as int, prev) =~= r@ + collapse_from(
                    s@,
                    i + 1,
                    true,
                ));
            }
            prev = true;
        } else {
            r.push(c);
            assert(before + collapse_from(s@, i as int, prev) =~= r@ + collapse_from(
                s@,
                i + 1,
                false,
            ));
            prev = false;
        }
        i = i + 1;
    }
    assert(r@ + collapse_from(s@, i as int, prev) =~= r@);
    r
}

/// Collapses each run of white space to one space and drops the space left at the end.
pub fn collapse_html_whitespace(text: &str) -> (r: String)
    ensures
        r@ == collapsed(text@),
{
    let s = chars_of(text);
    let mut r = collapse_chars(s.as_slice(), true);
    if r.len() > 0 && r[r.len() - 1] == ' ' {
        r.pop();
        assert(r@ =~= collapse_from(text@, 0, true).drop_last());
    }
    string_of(r.as_slice())
}

/// Collapses each run of white space to one space, keeping a space at either end.
pub fn collapse_inline_text_node_whitespace(text: &str) -> (r: String)
    ensures
        r@ == collapsed_inline(text@),
{
    let s = chars_of(text);
    let r = collapse_chars(s.as_slice(), false);
    string_of(r.as_slice())
}

/// Whether text under this `white-space` keeps its white space as written.
pub open spec fn preserves_space(w: WhiteSpace) -> bool {
    w == WhiteSpace::Pre || w == WhiteSpace::PreWrap
}

/// The text of a block under `white-space: w`.
pub fn normalize_html_text(text: &str, white_space: WhiteSpace) -> (r: String)
    ensures
        r@ == (if preserves_space(white_space) {
            text@
        } else {
            collapsed(text@)
        }),
{
    match white_space {
        WhiteSpace::Normal | WhiteSpace::Nowrap => collapse_html_whitespace(text),
        WhiteSpace::Pre | WhiteSpace::PreWrap => crate::text::string_from_str(text),
    }
}

/// The text of an inline text node under `white-space: w`.
pub fn normalize_inline_text_node(text: &str, white_space: WhiteSpace) -> (r: String)
    ensures
        r@ == (if preserves_space(white_space) {
            text@
        } else {
            collapsed_inline(text@)
        }),
{
    match white_space {
        WhiteSpace::Normal | WhiteSpace::Nowrap => collapse_inline_text_node_whitespace(text),
        WhiteSpace::Pre | WhiteSpace::PreWrap => crate::text::string_from_str(text),
    }
}

/// What the collapsing keeps of white space: only single spaces, never two in a row, and none
/// at the start when it starts as after a space.
pub proof fn lemma_collapse_from(s: Seq<char>, i: int, prev: bool)
    requires
        0 <= i,
    ensures
        forall|k: int|
            0 <= k < collapse_from(s, i, prev).len() && is_ws(#[trigger] collapse_from(s, i, prev)[k])
                ==> collapse_from(s, i, prev)[k] == ' ',
        forall|k: int|
            0 <= k < collapse_from(s, i, prev).len() - 1 && #[trigger] collapse_from(s, i, prev)[k]
                == ' ' ==> collapse_from(s, i, prev)[k + 1] != ' ',
        prev && collapse_from(s, i, prev).len() > 0 ==> collapse_from(s, i, prev)[0] != ' ',
    decreases s.len() - i,
{
    if i < s.len() {
        lemma_collapse_from(s, i + 1, true);
        lemma_collapse_from(s, i + 1, false);
        let c = collapse_from(s, i, prev);
        if is_ws(s[i]) {
            if !prev {
                let rest = collapse_from(s, i + 1, true);
                assert(c == seq![' '] + rest);
                assert forall|k: int| 0 <= k < c.len() - 1 && #[trigger] c[k] == ' ' implies c[k + 1] != ' ' by {
                    if k > 0 {
                        assert(c[k] == rest[k - 1]);
                        assert(c[k + 1] == rest[k]);
                    }
                }
                assert forall|k: int| 0 <= k < c.len() && is_ws(#[trigger] c[k]) implies c[k] == ' ' by {
                    if k > 0 {
                        assert(c[k] == rest[k - 1]);
                    }
                }
            }
        } else {
            let rest = collapse_from(s, i + 1, false);
            assert(c == seq![s[i]] + rest);
            assert(is_ws(' '));
            assert forall|k: int| 0 <= k < c.len() - 1 && #[trigger] c[k] == ' ' implies c[k + 1] != ' ' by {
                if k > 0 {
                    assert(c[k] == rest[k - 1]);
                    assert(c[k + 1] == rest[k]);
                }
            }
            assert forall|k: int| 0 <= k < c.len() && is_ws(#[trigger] c[k]) implies c[k] == ' ' by {
                if k > 0 {
                    assert(c[k] == rest[k - 1]);
                }
            }
        }
    }
}

/// Law: collapsed block text holds no white space but single spaces, never two spaces in a
/// row, and no space at either end.
pub proof fn collapsed_text_is_normal(s: Seq<char>)
    ensures
        forall|k: int| 0 <= k < collapsed(s).len() && is_ws(#[trigger] collapsed(s)[k]) ==> collapsed(s)[k] == ' ',
        forall|k: int| 0 <= k < collapsed(s).len() - 1 && #[trigger] collapsed(s)[k] == ' ' ==> collapsed(s)[k + 1] != ' ',
        collapsed(s).len() > 0 ==> collapsed(s)[0] != ' ' && collapsed(s).last() != ' ',
{
    lemma_collapse_from(s, 0, true);
    let c = collapse_from(s, 0, true);
    let r = collapsed(s);
    if c.len() > 0 && c.last() == ' ' {
        assert forall|k: int| 0 <= k < r.len() && is_ws(#[trigger] r[k]) implies r[k] == ' ' by {
            assert(r[k] == c[k]);
        }
        assert forall|k: int| 0 <= k < r.len() - 1 && #[trigger] r[k] == ' ' implies r[k + 1] != ' ' by {
            assert(r[k] == c[k]);
            assert(r[k + 1] == c[k + 1]);
        }
        if r.len() > 0 {
            assert(r[0] == c[0]);
            assert(c[r.len() - 1] == ' ' ==> c[r.len() as int] != ' ');
        }
    }
}

} // verus!

verus! {

// ---------------------------------------------------------------------------
// Grid track lists
// ---------------------------------------------------------------------------

/// The arguments of `text` when the whole of it is `name(...)`.
pub open spec fn function_inner(text: Seq<char>, name: Seq<char>) -> Option<Seq<char>> {
    let prefix = name.push('(');
    if starts_with(text, prefix) && text.len() > 0 && text.last() == ')' {
        Some(text.subrange(prefix.len() as int, text.len() - 1))
    } else {
        None
    }
}

pub fn extract_function(text: &str, name: &str) -> (r: Option<String>)
    ensures
        match r {
            Some(a) => function_inner(text@, name@) == Some(a@),
            None => function_inner(text@, name@) is None,
        },
{
    let s = chars_of(text);
    let mut prefix = chars_of(name);
    prefix.push('(');
    if starts_with_vec(s.as_slice(), prefix.as_slice()) && s.len() > 0 && s[s.len() - 1] == ')' {
        assert(s@.subrange(0, prefix@.len() as int) == prefix@);
        assert(prefix@[prefix@.len() - 1] == '(');
        assert(s@.subrange(0, prefix@.len() as int)[prefix@.len() - 1] == s@[prefix@.len() - 1]);
        assert(s@[prefix@.len() - 1] == '(');
        let inner = subrange_vec(s.as_slice(), prefix.len(), s.len() - 1);
        Some(string_of(inner.as_slice()))
    } else {
        None
    }
}

/// `p` alone when it is not empty.
pub open spec fn nonempty_part(p: Seq<char>) -> Seq<Seq<char>> {
    if p.len() > 0 {
        seq![p]
    } else {
        seq![]
    }
}

/// The non-empty trimmed parts of `s` between white space outside parentheses, scanning from
/// `i` at depth `d` with the current part begun at `start`.
pub open spec fn track_parts_from(s: Seq<char>, i: int, d: nat, start: int) -> Seq<Seq<char>>
    decreases s.len() - i,
{
    if i < 0 || i >= s.len() {
        nonempty_part(trim(s.subrange(start, s.len() as int)))
    } else if s[i] == '(' {
        track_parts_from(s, i + 1, d + 1, start)
    } else if s[i] == ')' {
        track_parts_from(s, i + 1, crate::style::lowered_depth(d), start)
    } else if is_ws(s[i]) && d == 0 {
        nonempty_part(trim(s.subrange(start, i))) + track_parts_from(s, i + 1, 0, i + 1)
    } else {
        track_parts_from(s, i + 1, d, start)
    }
}

/// The tracks of a grid track list: its non-empty parts between white space outside
/// parentheses.
pub open spec fn track_list(s: Seq<char>) -> Seq<Seq<char>> {
    track_parts_from(s, 0, 0, 0)
}

pub fn split_track_list(text: &str) -> (r: Vec<String>)
    ensures
        crate::text::strings_view(r@) == track_list(text@),
{
    let s = chars_of(text);
    let mut parts: Vec<String> = Vec::new();
    let mut depth: usize = 0;
    let mut start: usize = 0;
    let mut i: usize = 0;
    while i < s.len()
        invariant
            s@ == text@,
            i <= s@.len(),
            start <= i,
            depth <= i,
            crate::text::strings_view(parts@) + track_parts_from(s@, i as int, depth as nat, start as int)
                == track_list(text@),
        decreases s@.len() - i,
    {
        let c = s[i];
        if c == '(' {
            depth = depth + 1;
        } else if c == ')' {
            if depth > 0 {
                depth = depth - 1;
            }
        } else if is_whitespace(c) && depth == 0 {
            let piece = subrange_vec(s.as_slice(), start, i);
            let piece = trim_vec(piece.as_slice());
            let ghost before = crate::text::strings_view(parts@);
            if piece.len() > 0 {
                parts.push(string_of(piece.as_slice()));
                assert(crate::text::strings_view(parts@) =~= before + nonempty_part(piece@));
            } else {
                assert(before =~= before + nonempty_part(piece@));
            }
            assert(before + track_parts_from(s@, i as int, 0, start as int) =~= before
                + nonempty_part(piece@) + track_parts_from(s@, i + 1, 0, i + 1));
            start = i + 1;
        }
        i = i + 1;
    }
    let piece = subrange_vec(s.as_slice(), start, s.len());
    let piece = trim_vec(piece.as_slice());
    let ghost before = crate::text::strings_view(parts@);
    if piece.len() > 0 {
        parts.push(string_of(piece.as_slice()));
        assert(crate::text::strings_view(parts@) =~= before + nonempty_part(piece@));
    } else {
        assert(before =~= before + nonempty_part(piece@));
    }
    parts
}

} // verus!

verus! {

// ---------------------------------------------------------------------------
// Inline text runs
// ---------------------------------------------------------------------------

/// A piece of inline text and the style it is drawn in. Runs whose `style` keys are equal
/// are drawn alike (same font, weight, color, spacing, transform, decoration, line height
/// and white space).
#[derive(Debug)]
pub struct InlineTextRun {
    pub text: String,
    pub style: u64,
}

/// Each run as its text and style key.
pub open spec fn runs_view(v: Seq<InlineTextRun>) -> Seq<(Seq<char>, u64)> {
    v.map_values(|r: InlineTextRun| (r.text@, r.style))
}

/// `out` with the run `(t, st)` added: joined to the last run when that one has the same
/// style, else appended.
pub open spec fn push_run(out: Seq<(Seq<char>, u64)>, t: Seq<char>, st: u64) -> Seq<(Seq<char>, u64)> {
    if out.len() > 0 && out.last().1 == st {
        out.drop_last().push((out.last().0 + t, st))
    } else {
        out.push((t, st))
    }
}

/// Adds `run` to `runs`, joining it to the last run when their styles match.
pub fn push_inline_run(runs: &mut Vec<InlineTextRun>, run: InlineTextRun)
    ensures
        runs_view(final(runs)@) == push_run(runs_view(old(runs)@), run.text@, run.style),
{
    let ghost old_view = runs_view(runs@);
    let n = runs.len();
    if n > 0 && runs[n - 1].style == run.style {
        let last = runs.pop().unwrap();
        assert(runs_view(runs@) =~= old_view.drop_last());
        assert(old_view.last() == (last.text@, last.style));
        let a = chars_of(last.text.as_str());
        let b = chars_of(run.text.as_str());
        let joined = crate::text::string_concat(a.as_slice(), b.as_slice());
        runs.push(InlineTextRun { text: joined, style: run.style });
        assert(runs_view(runs@) =~= old_view.drop_last().push((old_view.last().0 + run.text@, run.style)));
    } else {
        runs.push(run);
        assert(runs_view(runs@) =~= old_view.push((run.text@, run.style)));
    }
}

/// The white-space handling of the characters of one run from index `i`, with `prev` telling
/// whether the text so far ends as after a space and `acc` the text so far: a line break
/// drops a space before it and counts as a space; a run of other white space becomes one
/// space unless it follows one.
pub open spec fn norm_chars(s: Seq<char>, i: int, prev: bool, acc: Seq<char>) -> (Seq<char>, bool)
    decreases s.len() - i,
{
    if i < 0 || i >= s.len() {
        (acc, prev)
    } else if s[i] == '\n' {
        let a = if acc.len() > 0 && acc.last() == ' ' {
            acc.drop_last()
        } else {
            acc
        };
        norm_chars(s, i + 1, true, a.push('\n'))
    } else if is_ws(s[i]) {
        norm_chars(
            s,
            i + 1,
            true,
            if !prev {
                acc.push(' ')
            } else {
                acc
            },
        )
    } else {
        norm_chars(s, i + 1, false, acc.push(s[i]))
    }
}

/// Normalizing the runs from index `j` on, `prev` as in `norm_chars`, into `out`: runs whose
/// text comes out empty are dropped, the others are pushed with `push_run`.
pub open spec fn norm_runs(
    runs: Seq<(Seq<char>, u64)>,
    j: int,
    prev: bool,
    out: Seq<(Seq<char>, u64)>,
) -> Seq<(Seq<char>, u64)>
    decreases runs.len() - j,
{
    if j < 0 || j >= runs.len() {
        out
    } else {
        let (t, p) = norm_chars(runs[j].0, 0, prev, seq![]);
        norm_runs(
            runs,
            j + 1,
            p,
            if t.len() > 0 {
                push_run(out, t, runs[j].1)
            } else {
                out
            },
        )
    }
}

/// `out` with a space at the end of its last run dropped.
pub open spec fn trim_last_space(out: Seq<(Seq<char>, u64)>) -> Seq<(Seq<char>, u64)> {
    if out.len() > 0 && out.last().0.len() > 0 && out.last().0.last() == ' ' {
        out.update(out.len() - 1, (out.last().0.drop_last(), out.last().1))
    } else {
        out
    }
}

pub open spec fn nonempty_run(r: (Seq<char>, u64)) -> bool {
    r.0.len() > 0
}

/// The runs of `s` whose text is not empty.
pub open spec fn nonempty_runs(s: Seq<(Seq<char>, u64)>) -> Seq<(Seq<char>, u64)> {
    s.filter(|r: (Seq<char>, u64)| nonempty_run(r))
}

/// What `normalize_inline_runs` gives.
pub open spec fn normalized_runs(runs: Seq<(Seq<char>, u64)>) -> Seq<(Seq<char>, u64)> {
    nonempty_runs(trim_last_space(norm_runs(runs, 0, true, seq![])))
}

fn normalize_run_text(s: &[char], prev: bool) -> (r: (Vec<char>, bool))
    ensures
        (r.0@, r.1) == norm_chars(s@, 0, prev, seq![]),
{
    let mut acc: Vec<char> = Vec::new();
    let mut p = prev;
    let mut i: usize = 0;
    while i < s.len()
        invariant
            i <= s@.len(),
            norm_chars(s@, i as int, p, acc@) == norm_chars(s@, 0, prev, seq![]),
        decreases s@.len() - i,
    {
        let c = s[i];
        if c == '\n' {
            let n = acc.len();
            if n > 0 && acc[n - 1] == ' ' {
                acc.pop();
            }
            acc.push('\n');
            p = true;
        } else if is_whitespace(c) {
            if !p {
                acc.push(' ');
            }
            p = true;
        } else {
            acc.push(c);
            p = false;
        }
        i = i + 1;
    }
    (acc, p)
}

/// Applies the white-space rules of inline formatting across a sequence of runs, joins
/// neighbouring runs of the same style, drops the space at the very end and the runs left
/// empty.
pub fn normalize_inline_runs(runs: Vec<InlineTextRun>) -> (r: Vec<InlineTextRun>)
    ensures
        runs_view(r@) == normalized_runs(runs_view(runs@)),
{
    let ghost rv = runs_view(runs@);
    let mut out: Vec<InlineTextRun> = Vec::new();
    let mut prev = true;
    let mut j: usize = 0;
    assert(runs_view(out@) =~= seq![]);
    while j < runs.len()
        invariant
            rv == runs_view(runs@),
            j <= runs@.len(),
            norm_runs(rv, j as int, prev, runs_view(out@)) == norm_runs(rv, 0, true, seq![]),
        decreases runs@.len() - j,
    {
        let t = chars_of(runs[j].text.as_str());
        assert(rv[j as int] == (runs@[j as int].text@, runs@[j as int].style));
        let (nt, p) = normalize_run_text(t.as_slice(), prev);
        if nt.len() > 0 {
            push_inline_run(&mut out, InlineTextRun { text: string_of(nt.as_slice()), style: runs[j].style });
        }
        prev = p;
        j = j + 1;
    }
    let ghost pushed = runs_view(out@);
    assert(pushed == norm_runs(rv, 0, true, seq![]));
    let n = out.len();
    if n > 0 {
        let last = out.pop().unwrap();
        assert(runs_view(out@) =~= pushed.drop_last());
        assert(pushed.last() == (last.text@, last.style));
        let mut lt = chars_of(last.text.as_str());
        let m = lt.len();
        if m > 0 && lt[m - 1] == ' ' {
            lt.pop();
            assert(lt@ =~= pushed.last().0.drop_last());
        }
        out.push(InlineTextRun { text: string_of(lt.as_slice()), style: last.style });
        assert(runs_view(out@) =~= trim_last_space(pushed));
    } else {
        assert(runs_view(out@) =~= trim_last_space(pushed));
    }
    let ghost trimmed = runs_view(out@);
    let mut result: Vec<InlineTextRun> = Vec::new();
    let mut k: usize = 0;
    while k < out.len()
        invariant
            trimmed == runs_view(out@),
            k <= out@.len(),
            runs_view(result@) == nonempty_runs(trimmed.take(k as int)),
        decreases out@.len() - k,
    {
        let text = chars_of(out[k].text.as_str());
        let ghost before = runs_view(result@);
        assert(trimmed.take(k + 1).drop_last() =~= trimmed.take(k as int));
        assert(trimmed.take(k + 1).last() == (out@[k as int].text@, out@[k as int].style));
        proof {
            reveal(Seq::filter);
        }
        let ghost item = (out@[k as int].text@, out@[k as int].style);
        if text.len() > 0 {
            result.push(InlineTextRun { text: string_of(text.as_slice()), style: out[k].style });
            assert(runs_view(result@) =~= before.push(item));
            assert(nonempty_runs(trimmed.take(k + 1)) == before.push(item));
        } else {
            assert(nonempty_runs(trimmed.take(k + 1)) == before);
        }
        k = k + 1;
    }
    assert(trimmed.take(out@.len() as int) =~= trimmed);
    result
}

} // verus!

verus! {

/// `toks` with the pending token, if any, added.
pub open spec fn flush(toks: Seq<(Seq<char>, u64)>, cur: Option<(Seq<char>, u64)>) -> Seq<
    (Seq<char>, u64),
> {
    match cur {
        Some(c) => toks.push(c),
        None => toks,
    }
}

/// Characters that make a token of their own: spaces, line breaks and CJK characters.
pub open spec fn breaks_alone(ch: char) -> bool {
    ch == ' ' || ch == '\n' || cjk(ch)
}

/// Cutting the text `t` of a run of style `st` into tokens from index `i`, with the tokens
/// `toks` made so far and the pending token `cur`: a character that breaks alone ends the
/// pending token and is a token of its own; any other character extends the pending token
/// when it has the same style, else begins a new one.
pub open spec fn token_chars(
    t: Seq<char>,
    st: u64,
    i: int,
    toks: Seq<(Seq<char>, u64)>,
    cur: Option<(Seq<char>, u64)>,
) -> (Seq<(Seq<char>, u64)>, Option<(Seq<char>, u64)>)
    decreases t.len() - i,
{
    if i < 0 || i >= t.len() {
        (toks, cur)
    } else if breaks_alone(t[i]) {
        token_chars(t, st, i + 1, flush(toks, cur).push((seq![t[i]], st)), None)
    } else {
        match cur {
            Some(c) => if c.1 == st {
                token_chars(t, st, i + 1, toks, Some((c.0.push(t[i]), st)))
            } else {
                token_chars(t, st, i + 1, toks.push(c), Some((seq![t[i]], st)))
            },
            None => token_chars(t, st, i + 1, toks, Some((seq![t[i]], st))),
        }
    }
}

/// Cutting the runs from index `j` on into tokens, as `token_chars` does within a run.
pub open spec fn token_runs(
    runs: Seq<(Seq<char>, u64)>,
    j: int,
    toks: Seq<(Seq<char>, u64)>,
    cur: Option<(Seq<char>, u64)>,
) -> Seq<(Seq<char>, u64)>
    decreases runs.len() - j,
{
    if j < 0 || j >= runs.len() {
        flush(toks, cur)
    } else {
        let (t2, c2) = token_chars(runs[j].0, runs[j].1, 0, toks, cur);
        token_runs(runs, j + 1, t2, c2)
    }
}

/// What `inline_tokens` gives.
pub open spec fn inline_token_runs(runs: Seq<(Seq<char>, u64)>) -> Seq<(Seq<char>, u64)> {
    token_runs(runs, 0, seq![], None)
}

pub open spec fn pending_view(c: Option<(Vec<char>, u64)>) -> Option<(Seq<char>, u64)> {
    match c {
        Some(p) => Some((p.0@, p.1)),
        None => None,
    }
}

fn flush_token(tokens: &mut Vec<InlineTextRun>, cur: Option<(Vec<char>, u64)>)
    ensures
        runs_view(final(tokens)@) == flush(runs_view(old(tokens)@), pending_view(cur)),
{
    let ghost before = runs_view(tokens@);
    match cur {
        Some(c) => {
            tokens.push(InlineTextRun { text: string_of(c.0.as_slice()), style: c.1 });
            assert(runs_view(tokens@) =~= before.push((c.0@, c.1)));
        },
        None => {},
    }
}

/// Cuts inline runs into the tokens that line breaking works with: words (joined across runs
/// of the same style), and single spaces, line breaks and CJK characters.
pub fn inline_tokens(runs: &[InlineTextRun]) -> (r: Vec<InlineTextRun>)
    ensures
        runs_view(r@) == inline_token_runs(runs_view(runs@)),
{
    let ghost rv = runs_view(runs@);
    let mut tokens: Vec<InlineTextRun> = Vec::new();
    let mut current: Option<(Vec<char>, u64)> = None;
    assert(runs_view(tokens@) =~= seq![]);
    let mut j: usize = 0;
    while j < runs.len()
        invariant
            rv == runs_view(runs@),
            j <= runs@.len(),
            token_runs(rv, j as int, runs_view(tokens@), pending_view(current))
                == inline_token_runs(rv),
        decreases runs@.len() - j,
    {
        let t = chars_of(runs[j].text.as_str());
        let st = runs[j].style;
        assert(rv[j as int] == (t@, st));
        let ghost t0 = runs_view(tokens@);
        let ghost c0 = pending_view(current);
        let mut i: usize = 0;
        while i < t.len()
            invariant
                i <= t@.len(),
                token_chars(t@, st, i as int, runs_view(tokens@), pending_view(current))
                    == token_chars(t@, st, 0, t0, c0),
            decreases t@.len() - i,
        {
            let ch = t[i];
            if ch == ' ' || ch == '\n' || is_cjk_char(ch) {
                let taken = current;
                current = None;
                flush_token(&mut tokens, taken);
                let ghost before = runs_view(tokens@);
                let one: [char; 1] = [ch];
                assert(one@ =~= seq![ch]);
                tokens.push(InlineTextRun { text: string_of(&one), style: st });
                assert(runs_view(tokens@) =~= before.push((seq![ch], st)));
            } else {
                let taken = current;
                current = match taken {
                    Some(c) => {
                        if c.1 == st {
                            let mut text = c.0;
                            text.push(ch);
                            Some((text, st))
                        } else {
                            flush_token(&mut tokens, Some(c));
                            let mut text: Vec<char> = Vec::new();
                            text.push(ch);
                            Some((text, st))
                        }
                    },
                    None => {
                        let mut text: Vec<char> = Vec::new();
                        text.push(ch);
                        Some((text, st))
                    },
                };
                assert(pending_view(current) matches Some(p) && p.0 =~= (match pending_view(taken) {
                    Some(c) => if c.1 == st {
                        c.0.push(ch)
                    } else {
                        seq![ch]
                    },
                    None => seq![ch],
                }));
            }
            i = i + 1;
        }
        j = j + 1;
    }
    flush_token(&mut tokens, current);
    tokens
}

} // verus!

verus! {

// ---------------------------------------------------------------------------
// Laws of inline runs
// ---------------------------------------------------------------------------

/// The texts of `s`, one after another.
pub open spec fn all_text(s: Seq<(Seq<char>, u64)>) -> Seq<char>
    decreases s.len(),
{
    if s.len() == 0 {
        seq![]
    } else {
        s[0].0 + all_text(s.subrange(1, s.len() as int))
    }
}

pub proof fn lemma_all_text_push(s: Seq<(Seq<char>, u64)>, x: (Seq<char>, u64))
    ensures
        all_text(s.push(x)) == all_text(s) + x.0,
    decreases s.len(),
{
    if s.len() == 0 {
        let e = s.push(x).subrange(1, 1);
        assert(e =~= Seq::<(Seq<char>, u64)>::empty());
        assert(all_text(e) =~= seq![]);
        assert(s.push(x)[0] == x);
        assert(all_text(s.push(x)) =~= x.0 + all_text(e));
        assert(all_text(s) =~= seq![]);
    } else {
        let t = s.subrange(1, s.len() as int);
        assert(s.push(x).subrange(1, s.len() + 1 as int) =~= t.push(x));
        lemma_all_text_push(t, x);
        assert(all_text(s.push(x)) =~= all_text(s) + x.0);
    }
}

pub open spec fn pending_text(cur: Option<(Seq<char>, u64)>) -> Seq<char> {
    match cur {
        Some(c) => c.0,
        None => seq![],
    }
}

proof fn lemma_flush_text(toks: Seq<(Seq<char>, u64)>, cur: Option<(Seq<char>, u64)>)
    ensures
        all_text(flush(toks, cur)) == all_text(toks) + pending_text(cur),
{
    match cur {
        Some(c) => lemma_all_text_push(toks, c),
        None => assert(all_text(toks) + pending_text(cur) =~= all_text(toks)),
    }
}

proof fn lemma_token_chars_text(
    t: Seq<char>,
    st: u64,
    i: int,
    toks: Seq<(Seq<char>, u64)>,
    cur: Option<(Seq<char>, u64)>,
)
    requires
        0 <= i <= t.len(),
    ensures
        ({
            let (t2, c2) = token_chars(t, st, i, toks, cur);
            all_text(t2) + pending_text(c2) == all_text(toks) + pending_text(cur) + t.subrange(
                i,
                t.len() as int,
            )
        }),
    decreases t.len() - i,
{
    if i < t.len() {
        let ch = t[i];
        let rest = t.subrange(i + 1, t.len() as int);
        assert(t.subrange(i, t.len() as int) =~= seq![ch] + rest);
        if breaks_alone(ch) {
            let f = flush(toks, cur);
            let toks2 = f.push((seq![ch], st));
            lemma_token_chars_text(t, st, i + 1, toks2, None);
            lemma_flush_text(toks, cur);
            lemma_all_text_push(f, (seq![ch], st));
            assert(all_text(toks2) + pending_text(None) + rest =~= all_text(toks) + pending_text(
                cur,
            ) + (seq![ch] + rest));
        } else {
            match cur {
                Some(c) => {
                    if c.1 == st {
                        lemma_token_chars_text(t, st, i + 1, toks, Some((c.0.push(ch), st)));
                        assert(all_text(toks) + c.0.push(ch) + rest =~= all_text(toks) + c.0 + (
                        seq![ch] + rest));
                    } else {
                        let toks2 = toks.push(c);
                        lemma_token_chars_text(t, st, i + 1, toks2, Some((seq![ch], st)));
                        lemma_all_text_push(toks, c);
                        assert(all_text(toks2) + seq![ch] + rest =~= all_text(toks) + c.0 + (
                        seq![ch] + rest));
                    }
                },
                None => {
                    lemma_token_chars_text(t, st, i + 1, toks, Some((seq![ch], st)));
                    assert(all_text(toks) + seq![ch] + rest =~= all_text(toks) + pending_text(
                        cur,
                    ) + (seq![ch] + rest));
                },
            }
        }
    } else {
        assert(t.subrange(i, t.len() as int) =~= seq![]);
        assert(all_text(toks) + pending_text(cur) + seq![] =~= all_text(toks) + pending_text(cur));
    }
}

proof fn lemma_token_runs_text(
    runs: Seq<(Seq<char>, u64)>,
    j: int,
    toks: Seq<(Seq<char>, u64)>,
    cur: Option<(Seq<char>, u64)>,
)
    requires
        0 <= j <= runs.len(),
    ensures
        all_text(token_runs(runs, j, toks, cur)) == all_text(toks) + pending_text(cur) + all_text(
            runs.subrange(j, runs.len() as int),
        ),
    decreases runs.len() - j,
{
    if j < runs.len() {
        let (t2, c2) = token_chars(runs[j].0, runs[j].1, 0, toks, cur);
        lemma_token_chars_text(runs[j].0, runs[j].1, 0, toks, cur);
        lemma_token_runs_text(runs, j + 1, t2, c2);
        let tail = runs.subrange(j, runs.len() as int);
        assert(tail.subrange(1, tail.len() as int) =~= runs.subrange(j + 1, runs.len() as int));
        assert(runs[j].0.subrange(0, runs[j].0.len() as int) =~= runs[j].0);
        assert(all_text(tail) == runs[j].0 + all_text(runs.subrange(j + 1, runs.len() as int)));
        assert(all_text(toks) + pending_text(cur) + runs[j].0 + all_text(
            runs.subrange(j + 1, runs.len() as int),
        ) =~= all_text(toks) + pending_text(cur) + all_text(tail));
    } else {
        lemma_flush_text(toks, cur);
        assert(runs.subrange(j, runs.len() as int) =~= Seq::<(Seq<char>, u64)>::empty());
        assert(all_text(toks) + pending_text(cur) + seq![] =~= all_text(toks) + pending_text(cur));
    }
}

/// A word token: characters none of which breaks alone.
pub open spec fn word_token(w: Seq<char>) -> bool {
    w.len() > 0 && forall|k: int| 0 <= k < w.len() ==> !breaks_alone(#[trigger] w[k])
}

/// A token as `inline_tokens` makes them: a word, or one character that breaks alone.
pub open spec fn well_cut(w: Seq<char>) -> bool {
    word_token(w) || (w.len() == 1 && breaks_alone(w[0]))
}

/// Every token is well cut, and two neighbouring words differ in style.
pub open spec fn tokens_well_cut(toks: Seq<(Seq<char>, u64)>) -> bool {
    &&& forall|k: int| 0 <= k < toks.len() ==> well_cut(#[trigger] toks[k].0)
    &&& forall|k: int|
        0 <= k < toks.len() - 1 && word_token(#[trigger] toks[k].0) && word_token(toks[k + 1].0)
            ==> toks[k].1 != toks[k + 1].1
}

/// What holds of the tokens made so far and the pending one while cutting.
pub open spec fn cutting_state(toks: Seq<(Seq<char>, u64)>, cur: Option<(Seq<char>, u64)>) -> bool {
    &&& tokens_well_cut(toks)
    &&& match cur {
        Some(c) => word_token(c.0) && (toks.len() > 0 && word_token(toks.last().0)
            ==> toks.last().1 != c.1),
        None => toks.len() > 0 ==> !word_token(toks.last().0),
    }
}

proof fn lemma_flush_well_cut(toks: Seq<(Seq<char>, u64)>, cur: Option<(Seq<char>, u64)>)
    requires
        cutting_state(toks, cur),
    ensures
        tokens_well_cut(flush(toks, cur)),
{
    match cur {
        Some(c) => {
            let r = toks.push(c);
            assert forall|k: int| 0 <= k < r.len() implies well_cut(#[trigger] r[k].0) by {
                if k < toks.len() {
                    assert(r[k] == toks[k]);
                }
            }
            assert forall|k: int|
                0 <= k < r.len() - 1 && word_token(#[trigger] r[k].0) && word_token(r[k + 1].0)
                    implies r[k].1 != r[k + 1].1 by {
                assert(r[k] == toks[k]);
                if k + 1 < toks.len() {
                    assert(r[k + 1] == toks[k + 1]);
                } else {
                    assert(toks.last() == toks[k]);
                }
            }
        },
        None => {},
    }
}

proof fn lemma_token_chars_well_cut(
    t: Seq<char>,
    st: u64,
    i: int,
    toks: Seq<(Seq<char>, u64)>,
    cur: Option<(Seq<char>, u64)>,
)
    requires
        0 <= i,
        cutting_state(toks, cur),
    ensures
        cutting_state(token_chars(t, st, i, toks, cur).0, token_chars(t, st, i, toks, cur).1),
    decreases t.len() - i,
{
    if i < t.len() {
        if breaks_alone(t[i]) {
            lemma_flush_well_cut(toks, cur);
            let f = flush(toks, cur);
            let b = seq![t[i]];
            let r = f.push((b, st));
            assert(b[0] == t[i] && breaks_alone(b[0]));
            assert(!word_token(b));
            assert(well_cut(b));
            assert forall|k: int| 0 <= k < r.len() implies well_cut(#[trigger] r[k].0) by {
                if k < f.len() {
                    assert(r[k] == f[k]);
                }
            }
            assert forall|k: int|
                0 <= k < r.len() - 1 && word_token(#[trigger] r[k].0) && word_token(r[k + 1].0)
                    implies r[k].1 != r[k + 1].1 by {
                assert(r[k] == f[k]);
                if k + 1 < f.len() {
                    assert(r[k + 1] == f[k + 1]);
                }
            }
            assert(r.last() == (b, st));
            lemma_token_chars_well_cut(t, st, i + 1, r, None);
        } else {
            let one = seq![t[i]];
            assert(word_token(one));
            match cur {
                Some(c) => {
                    if c.1 == st {
                        let w = c.0.push(t[i]);
                        assert forall|k: int| 0 <= k < w.len() implies !breaks_alone(#[trigger] w[k]) by {
                            if k < c.0.len() {
                                assert(w[k] == c.0[k]);
                            }
                        }
                        lemma_token_chars_well_cut(t, st, i + 1, toks, Some((w, st)));
                    } else {
                        lemma_flush_well_cut(toks, cur);
                        let r = toks.push(c);
                        assert(r.last() == c);
                        lemma_token_chars_well_cut(t, st, i + 1, r, Some((one, st)));
                    }
                },
                None => {
                    lemma_token_chars_well_cut(t, st, i + 1, toks, Some((one, st)));
                },
            }
        }
    }
}

proof fn lemma_token_runs_well_cut(
    runs: Seq<(Seq<char>, u64)>,
    j: int,
    toks: Seq<(Seq<char>, u64)>,
    cur: Option<(Seq<char>, u64)>,
)
    requires
        0 <= j,
        cutting_state(toks, cur),
    ensures
        tokens_well_cut(token_runs(runs, j, toks, cur)),
    decreases runs.len() - j,
{
    if j < runs.len() {
        lemma_token_chars_well_cut(runs[j].0, runs[j].1, 0, toks, cur);
        let (t2, c2) = token_chars(runs[j].0, runs[j].1, 0, toks, cur);
        lemma_token_runs_well_cut(runs, j + 1, t2, c2);
    } else {
        lemma_flush_well_cut(toks, cur);
    }
}

/// Law: every token is either one character that breaks alone (a space, a line break or a
/// CJK character) or a non-empty word with none of them; two neighbouring words differ in
/// style, so each word is as long as its style allows.
pub proof fn tokens_are_well_cut(runs: Seq<(Seq<char>, u64)>)
    ensures
        tokens_well_cut(inline_token_runs(runs)),
{
    lemma_token_runs_well_cut(runs, 0, seq![], None);
}

/// Law: cutting runs into tokens keeps every character, in order.
pub proof fn tokens_keep_text(runs: Seq<(Seq<char>, u64)>)
    ensures
        all_text(inline_token_runs(runs)) == all_text(runs),
{
    lemma_token_runs_text(runs, 0, seq![], None);
    assert(runs.subrange(0, runs.len() as int) =~= runs);
    assert(all_text(Seq::<(Seq<char>, u64)>::empty()) + pending_text(None) + all_text(runs)
        =~= all_text(runs));
}

} // verus!

verus! {

/// No two neighbouring runs share a style key.
pub open spec fn styles_alternate(s: Seq<(Seq<char>, u64)>) -> bool {
    forall|k: int| 0 <= k < s.len() - 1 ==> #[trigger] s[k].1 != s[k + 1].1
}

/// No run is empty.
pub open spec fn all_nonempty(s: Seq<(Seq<char>, u64)>) -> bool {
    forall|k: int| 0 <= k < s.len() ==> (#[trigger] s[k]).0.len() > 0
}

proof fn lemma_push_run_keeps(out: Seq<(Seq<char>, u64)>, t: Seq<char>, st: u64)
    requires
        styles_alternate(out),
        all_nonempty(out),
        t.len() > 0,
    ensures
        styles_alternate(push_run(out, t, st)),
        all_nonempty(push_run(out, t, st)),
{
    let r = push_run(out, t, st);
    if out.len() > 0 && out.last().1 == st {
        assert forall|k: int| 0 <= k < r.len() - 1 implies #[trigger] r[k].1 != r[k + 1].1 by {
            assert(r[k] == out[k]);
            if k + 1 < r.len() - 1 {
                assert(r[k + 1] == out[k + 1]);
            } else {
                assert(r[k + 1].1 == out[k + 1].1);
            }
        }
        assert forall|k: int| 0 <= k < r.len() implies (#[trigger] r[k]).0.len() > 0 by {
            if k < r.len() - 1 {
                assert(r[k] == out[k]);
            }
        }
    } else {
        assert forall|k: int| 0 <= k < r.len() - 1 implies #[trigger] r[k].1 != r[k + 1].1 by {
            assert(r[k] == out[k]);
            if k + 1 < out.len() {
                assert(r[k + 1] == out[k + 1]);
            }
        }
        assert forall|k: int| 0 <= k < r.len() implies (#[trigger] r[k]).0.len() > 0 by {
            if k < out.len() {
                assert(r[k] == out[k]);
            }
        }
    }
}

proof fn lemma_norm_runs_keeps(
    runs: Seq<(Seq<char>, u64)>,
    j: int,
    prev: bool,
    out: Seq<(Seq<char>, u64)>,
)
    requires
        styles_alternate(out),
        all_nonempty(out),
    ensures
        styles_alternate(norm_runs(runs, j, prev, out)),
        all_nonempty(norm_runs(runs, j, prev, out)),
    decreases runs.len() - j,
{
    if 0 <= j < runs.len() {
        let (t, p) = norm_chars(runs[j].0, 0, prev, seq![]);
        if t.len() > 0 {
            lemma_push_run_keeps(out, t, runs[j].1);
            lemma_norm_runs_keeps(runs, j + 1, p, push_run(out, t, runs[j].1));
        } else {
            lemma_norm_runs_keeps(runs, j + 1, p, out);
        }
    }
}

proof fn lemma_filter_all(s: Seq<(Seq<char>, u64)>)
    requires
        all_nonempty(s),
    ensures
        nonempty_runs(s) == s,
    decreases s.len(),
{
    reveal(Seq::filter);
    if s.len() > 0 {
        assert(all_nonempty(s.drop_last())) by {
            assert forall|k: int| 0 <= k < s.drop_last().len() implies (#[trigger] s.drop_last()[k]).0.len() > 0 by {
                assert(s.drop_last()[k] == s[k]);
            }
        }
        lemma_filter_all(s.drop_last());
        assert(s.last() == s[s.len() - 1]);
        assert(s.drop_last().push(s.last()) =~= s);
    }
}

/// Text spaced as inline formatting leaves it: no two spaces in a row, none at the start.
pub open spec fn spacing_ok(w: Seq<char>) -> bool {
    &&& forall|k: int| 0 <= k < w.len() - 1 && #[trigger] w[k] == ' ' ==> w[k + 1] != ' '
    &&& w.len() > 0 ==> w[0] != ' '
}

/// Whether `prev` (in `norm_chars`) tells that the text `w` so far ends as after a space.
pub open spec fn prev_matches(w: Seq<char>, prev: bool) -> bool {
    prev <==> (w.len() == 0 || w.last() == ' ' || w.last() == '\n')
}

proof fn lemma_spacing_push(w: Seq<char>, c: char)
    requires
        spacing_ok(w),
        c == ' ' ==> w.len() > 0 && w.last() != ' ',
    ensures
        spacing_ok(w.push(c)),
{
    let v = w.push(c);
    assert forall|k: int| 0 <= k < v.len() - 1 && #[trigger] v[k] == ' ' implies v[k + 1] != ' ' by {
        assert(v[k] == w[k]);
        if k + 1 < w.len() {
            assert(v[k + 1] == w[k + 1]);
        }
    }
    if w.len() > 0 {
        assert(v[0] == w[0]);
    }
}

proof fn lemma_spacing_drop(w: Seq<char>)
    requires
        spacing_ok(w),
        w.len() > 0,
    ensures
        spacing_ok(w.drop_last()),
{
    let v = w.drop_last();
    assert forall|k: int| 0 <= k < v.len() - 1 && #[trigger] v[k] == ' ' implies v[k + 1] != ' ' by {
        assert(v[k] == w[k]);
        assert(v[k + 1] == w[k + 1]);
    }
    if v.len() > 0 {
        assert(v[0] == w[0]);
    }
}

proof fn lemma_norm_chars_spacing(s: Seq<char>, i: int, prev: bool, acc: Seq<char>, j: Seq<char>)
    requires
        0 <= i,
        spacing_ok(j + acc),
        prev_matches(j + acc, prev),
    ensures
        spacing_ok(j + norm_chars(s, i, prev, acc).0),
        prev_matches(j + norm_chars(s, i, prev, acc).0, norm_chars(s, i, prev, acc).1),
    decreases s.len() - i,
{
    let w = j + acc;
    if i < s.len() {
        if s[i] == '\n' {
            let a = if acc.len() > 0 && acc.last() == ' ' {
                acc.drop_last()
            } else {
                acc
            };
            if acc.len() > 0 && acc.last() == ' ' {
                assert(j + a =~= w.drop_last());
                lemma_spacing_drop(w);
            }
            assert(spacing_ok(j + a));
            lemma_spacing_push(j + a, '\n');
            assert(j + a.push('\n') =~= (j + a).push('\n'));
            lemma_norm_chars_spacing(s, i + 1, true, a.push('\n'), j);
        } else if is_ws(s[i]) {
            let b = if !prev {
                acc.push(' ')
            } else {
                acc
            };
            if !prev {
                lemma_spacing_push(w, ' ');
                assert(j + b =~= w.push(' '));
            }
            lemma_norm_chars_spacing(s, i + 1, true, b, j);
        } else {
            let b = acc.push(s[i]);
            assert(s[i] != ' ');
            lemma_spacing_push(w, s[i]);
            assert(j + b =~= w.push(s[i]));
            lemma_norm_chars_spacing(s, i + 1, false, b, j);
        }
    }
}

proof fn lemma_all_text_push_run(out: Seq<(Seq<char>, u64)>, t: Seq<char>, st: u64)
    ensures
        all_text(push_run(out, t, st)) == all_text(out) + t,
{
    if out.len() > 0 && out.last().1 == st {
        let d = out.drop_last();
        lemma_all_text_push(d, out.last());
        assert(d.push(out.last()) =~= out);
        lemma_all_text_push(d, (out.last().0 + t, st));
        assert(all_text(push_run(out, t, st)) =~= all_text(out) + t);
    } else {
        lemma_all_text_push(out, (t, st));
    }
}

proof fn lemma_norm_runs_spacing(
    runs: Seq<(Seq<char>, u64)>,
    j: int,
    prev: bool,
    out: Seq<(Seq<char>, u64)>,
)
    requires
        0 <= j,
        spacing_ok(all_text(out)),
        prev_matches(all_text(out), prev),
    ensures
        spacing_ok(all_text(norm_runs(runs, j, prev, out))),
    decreases runs.len() - j,
{
    if j < runs.len() {
        let (t, p) = norm_chars(runs[j].0, 0, prev, seq![]);
        let w = all_text(out);
        assert(w + Seq::<char>::empty() =~= w);
        lemma_norm_chars_spacing(runs[j].0, 0, prev, seq![], w);
        if t.len() > 0 {
            lemma_all_text_push_run(out, t, runs[j].1);
            lemma_norm_runs_spacing(runs, j + 1, p, push_run(out, t, runs[j].1));
        } else {
            assert(w + t =~= w);
            lemma_norm_runs_spacing(runs, j + 1, p, out);
        }
    }
}

proof fn lemma_all_text_filter(s: Seq<(Seq<char>, u64)>)
    ensures
        all_text(nonempty_runs(s)) == all_text(s),
    decreases s.len(),
{
    reveal(Seq::filter);
    if s.len() > 0 {
        let d = s.drop_last();
        lemma_all_text_filter(d);
        lemma_all_text_push(d, s.last());
        assert(d.push(s.last()) =~= s);
        if nonempty_run(s.last()) {
            lemma_all_text_push(nonempty_runs(d), s.last());
        } else {
            assert(s.last().0 =~= Seq::<char>::empty());
            assert(all_text(s) =~= all_text(d));
        }
    }
}

/// Law: the text of the runs that `normalize_inline_runs` gives has no two spaces in a row
/// and no space at its start or its end.
pub proof fn normalized_text_is_single_spaced(runs: Seq<(Seq<char>, u64)>)
    ensures
        spacing_ok(all_text(normalized_runs(runs))),
        all_text(normalized_runs(runs)).len() > 0 ==> all_text(normalized_runs(runs)).last() != ' ',
{
    let e = Seq::<(Seq<char>, u64)>::empty();
    assert(all_text(e) =~= Seq::<char>::empty());
    lemma_norm_runs_spacing(runs, 0, true, e);
    lemma_norm_runs_keeps(runs, 0, true, e);
    let o = norm_runs(runs, 0, true, e);
    let w = all_text(o);
    let t = trim_last_space(o);
    if o.len() > 0 {
        let d = o.drop_last();
        lemma_all_text_push(d, o.last());
        assert(d.push(o.last()) =~= o);
        assert(o.last().0.len() > 0);
        assert(w.last() == o.last().0.last());
        if o.last().0.last() == ' ' {
            let l2 = (o.last().0.drop_last(), o.last().1);
            assert(t =~= d.push(l2));
            lemma_all_text_push(d, l2);
            assert(all_text(t) =~= w.drop_last());
            lemma_spacing_drop(w);
            if w.len() >= 2 {
                assert(w[w.len() - 2] == ' ' ==> w[w.len() - 1] != ' ');
                assert(w.drop_last().len() > 0 ==> w.drop_last().last() == w[w.len() - 2]);
            }
        } else {
            assert(t == o);
        }
    } else {
        assert(t == o);
    }
    lemma_all_text_filter(t);
}

/// The characters of `s` that are not white space, in order.
pub open spec fn without_ws(s: Seq<char>) -> Seq<char>
    decreases s.len(),
{
    if s.len() == 0 {
        seq![]
    } else if is_ws(s.last()) {
        without_ws(s.drop_last())
    } else {
        without_ws(s.drop_last()).push(s.last())
    }
}

proof fn lemma_without_ws_concat(a: Seq<char>, b: Seq<char>)
    ensures
        without_ws(a + b) == without_ws(a) + without_ws(b),
    decreases b.len(),
{
    if b.len() == 0 {
        assert(a + b =~= a);
        assert(without_ws(a) + without_ws(b) =~= without_ws(a));
    } else {
        lemma_without_ws_concat(a, b.drop_last());
        assert((a + b).drop_last() =~= a + b.drop_last());
        assert((a + b).last() == b.last());
        if !is_ws(b.last()) {
            assert(without_ws(a) + without_ws(b) =~= (without_ws(a) + without_ws(b.drop_last())).push(
                b.last(),
            ));
        }
    }
}

proof fn lemma_norm_chars_content(s: Seq<char>, i: int, prev: bool, acc: Seq<char>, j: Seq<char>)
    requires
        0 <= i <= s.len(),
    ensures
        without_ws(j + norm_chars(s, i, prev, acc).0) == without_ws(j + acc) + without_ws(
            s.subrange(i, s.len() as int),
        ),
    decreases s.len() - i,
{
    let w = j + acc;
    let rest = s.subrange(i, s.len() as int);
    if i == s.len() {
        assert(rest =~= Seq::<char>::empty());
        assert(without_ws(w) + without_ws(rest) =~= without_ws(w));
    } else {
        let c = s[i];
        let tail = s.subrange(i + 1, s.len() as int);
        assert(rest =~= seq![c] + tail);
        lemma_without_ws_concat(seq![c], tail);
        assert(seq![c].drop_last() =~= Seq::<char>::empty());
        assert(seq![c].last() == c);
        assert(without_ws(Seq::<char>::empty()) =~= Seq::<char>::empty());
        if c == '\n' {
            let a = if acc.len() > 0 && acc.last() == ' ' {
                acc.drop_last()
            } else {
                acc
            };
            if acc.len() > 0 && acc.last() == ' ' {
                assert(j + a =~= w.drop_last());
                assert(w.last() == ' ');
                assert(without_ws(j + a) == without_ws(w));
            }
            assert(j + a.push('\n') =~= (j + a).push('\n'));
            assert((j + a).push('\n').drop_last() =~= j + a);
            assert(is_ws('\n'));
            assert(without_ws((j + a).push('\n')) == without_ws(j + a));
            lemma_norm_chars_content(s, i + 1, true, a.push('\n'), j);
            assert(without_ws(seq![c]) =~= Seq::<char>::empty());
            assert(without_ws(w) + without_ws(rest) =~= without_ws(w) + without_ws(tail));
        } else if is_ws(c) {
            let b = if !prev {
                acc.push(' ')
            } else {
                acc
            };
            if !prev {
                assert(j + b =~= w.push(' '));
                assert(w.push(' ').drop_last() =~= w);
                assert(is_ws(' '));
                assert(without_ws(w.push(' ')) == without_ws(w));
            }
            lemma_norm_chars_content(s, i + 1, true, b, j);
            assert(without_ws(seq![c]) =~= Seq::<char>::empty());
            assert(without_ws(w) + without_ws(rest) =~= without_ws(w) + without_ws(tail));
        } else {
            let b = acc.push(c);
            assert(j + b =~= w.push(c));
            assert(w.push(c).drop_last() =~= w);
            assert(without_ws(w.push(c)) == without_ws(w).push(c));
            lemma_norm_chars_content(s, i + 1, false, b, j);
            assert(without_ws(seq![c]) =~= seq![c]);
            assert(without_ws(w).push(c) + without_ws(tail) =~= without_ws(w) + without_ws(rest));
        }
    }
}

proof fn lemma_all_text_split(runs: Seq<(Seq<char>, u64)>, j: int)
    requires
        0 <= j < runs.len(),
    ensures
        all_text(runs.subrange(j, runs.len() as int)) == runs[j].0 + all_text(
            runs.subrange(j + 1, runs.len() as int),
        ),
{
    let r = runs.subrange(j, runs.len() as int);
    assert(r.subrange(1, r.len() as int) =~= runs.subrange(j + 1, runs.len() as int));
}

proof fn lemma_norm_runs_content(
    runs: Seq<(Seq<char>, u64)>,
    j: int,
    prev: bool,
    out: Seq<(Seq<char>, u64)>,
)
    requires
        0 <= j <= runs.len(),
    ensures
        without_ws(all_text(norm_runs(runs, j, prev, out))) == without_ws(all_text(out))
            + without_ws(all_text(runs.subrange(j, runs.len() as int))),
    decreases runs.len() - j,
{
    let w = all_text(out);
    if j == runs.len() {
        assert(runs.subrange(j, runs.len() as int) =~= Seq::<(Seq<char>, u64)>::empty());
        assert(all_text(runs.subrange(j, runs.len() as int)) =~= Seq::<char>::empty());
        assert(without_ws(w) + without_ws(Seq::<char>::empty()) =~= without_ws(w));
    } else {
        let (t, p) = norm_chars(runs[j].0, 0, prev, seq![]);
        assert(w + Seq::<char>::empty() =~= w);
        lemma_norm_chars_content(runs[j].0, 0, prev, seq![], w);
        assert(runs[j].0.subrange(0, runs[j].0.len() as int) =~= runs[j].0);
        lemma_all_text_split(runs, j);
        let rest = all_text(runs.subrange(j + 1, runs.len() as int));
        lemma_without_ws_concat(runs[j].0, rest);
        lemma_without_ws_concat(w, t);
        if t.len() > 0 {
            lemma_all_text_push_run(out, t, runs[j].1);
            lemma_norm_runs_content(runs, j + 1, p, push_run(out, t, runs[j].1));
        } else {
            assert(w + t =~= w);
            lemma_norm_runs_content(runs, j + 1, p, out);
        }
        assert(without_ws(w) + without_ws(t) + without_ws(rest) =~= without_ws(w) + (without_ws(
            runs[j].0,
        ) + without_ws(rest)));
    }
}

/// Law: `normalize_inline_runs` keeps every character that is not white space, in order:
/// with the white space taken out, its text is that of the runs it was given.
pub proof fn normalized_runs_keep_words(runs: Seq<(Seq<char>, u64)>)
    ensures
        without_ws(all_text(normalized_runs(runs))) == without_ws(all_text(runs)),
{
    let e = Seq::<(Seq<char>, u64)>::empty();
    assert(all_text(e) =~= Seq::<char>::empty());
    lemma_norm_runs_content(runs, 0, true, e);
    assert(runs.subrange(0, runs.len() as int) =~= runs);
    assert(without_ws(Seq::<char>::empty()) + without_ws(all_text(runs)) =~= without_ws(all_text(runs)));
    lemma_norm_runs_keeps(runs, 0, true, e);
    let o = norm_runs(runs, 0, true, e);
    let w = all_text(o);
    let t = trim_last_space(o);
    if o.len() > 0 {
        let d = o.drop_last();
        lemma_all_text_push(d, o.last());
        assert(d.push(o.last()) =~= o);
        if o.last().0.len() > 0 && o.last().0.last() == ' ' {
            let l2 = (o.last().0.drop_last(), o.last().1);
            assert(t =~= d.push(l2));
            lemma_all_text_push(d, l2);
            assert(all_text(t) =~= w.drop_last());
            assert(w.last() == ' ');
            assert(without_ws(all_text(t)) == without_ws(w));
        } else {
            assert(t == o);
        }
    } else {
        assert(t == o);
    }
    lemma_all_text_filter(t);
}

/// White space left as inline formatting leaves it: only spaces and line breaks.
pub open spec fn kept_char(c: char) -> bool {
    !is_ws(c) || c == ' ' || c == '\n'
}

/// Every character of every run is a kept one.
pub open spec fn runs_keep_chars(s: Seq<(Seq<char>, u64)>) -> bool {
    forall|k: int, m: int| 0 <= k < s.len() && 0 <= m < s[k].0.len() ==> kept_char(#[trigger] s[k].0[m])
}

proof fn lemma_norm_chars_kept(s: Seq<char>, i: int, prev: bool, acc: Seq<char>)
    requires
        forall|m: int| 0 <= m < acc.len() ==> kept_char(#[trigger] acc[m]),
    ensures
        forall|m: int|
            0 <= m < norm_chars(s, i, prev, acc).0.len() ==> kept_char(
                #[trigger] norm_chars(s, i, prev, acc).0[m],
            ),
    decreases s.len() - i,
{
    if 0 <= i < s.len() {
        if s[i] == '\n' {
            let a = if acc.len() > 0 && acc.last() == ' ' {
                acc.drop_last()
            } else {
                acc
            };
            let b = a.push('\n');
            assert forall|m: int| 0 <= m < b.len() implies kept_char(#[trigger] b[m]) by {
                if m < a.len() {
                    assert(b[m] == acc[m]);
                }
            }
            assert(norm_chars(s, i, prev, acc) == norm_chars(s, i + 1, true, b));
            lemma_norm_chars_kept(s, i + 1, true, b);
        } else if is_ws(s[i]) {
            let b = if !prev {
                acc.push(' ')
            } else {
                acc
            };
            assert forall|m: int| 0 <= m < b.len() implies kept_char(#[trigger] b[m]) by {
                if m < acc.len() {
                    assert(b[m] == acc[m]);
                }
            }
            assert(norm_chars(s, i, prev, acc) == norm_chars(s, i + 1, true, b));
            lemma_norm_chars_kept(s, i + 1, true, b);
        } else {
            let b = acc.push(s[i]);
            assert forall|m: int| 0 <= m < b.len() implies kept_char(#[trigger] b[m]) by {
                if m < acc.len() {
                    assert(b[m] == acc[m]);
                }
            }
            assert(norm_chars(s, i, prev, acc) == norm_chars(s, i + 1, false, b));
            lemma_norm_chars_kept(s, i + 1, false, b);
        }
    } else {
        assert(norm_chars(s, i, prev, acc).0 == acc);
    }
}

proof fn lemma_norm_runs_kept(runs: Seq<(Seq<char>, u64)>, j: int, prev: bool, out: Seq<(Seq<char>, u64)>)
    requires
        runs_keep_chars(out),
    ensures
        runs_keep_chars(norm_runs(runs, j, prev, out)),
    decreases runs.len() - j,
{
    if 0 <= j < runs.len() {
        let (t, p) = norm_chars(runs[j].0, 0, prev, seq![]);
        lemma_norm_chars_kept(runs[j].0, 0, prev, seq![]);
        if t.len() > 0 {
            let o2 = push_run(out, t, runs[j].1);
            assert forall|k: int, m: int| 0 <= k < o2.len() && 0 <= m < o2[k].0.len() implies kept_char(
                #[trigger] o2[k].0[m],
            ) by {
                if out.len() > 0 && out.last().1 == runs[j].1 {
                    if k < out.len() - 1 {
                        assert(o2[k] == out[k]);
                    } else {
                        let joined = out.last().0 + t;
                        assert(o2[k].0 == joined);
                        if m < out.last().0.len() {
                            assert(joined[m] == out[out.len() - 1].0[m]);
                        } else {
                            assert(joined[m] == t[m - out.last().0.len()]);
                        }
                    }
                } else {
                    if k < out.len() {
                        assert(o2[k] == out[k]);
                    }
                }
            }
            lemma_norm_runs_kept(runs, j + 1, p, o2);
        } else {
            lemma_norm_runs_kept(runs, j + 1, p, out);
        }
    }
}

proof fn lemma_filter_kept(s: Seq<(Seq<char>, u64)>)
    requires
        runs_keep_chars(s),
    ensures
        runs_keep_chars(nonempty_runs(s)),
    decreases s.len(),
{
    reveal(Seq::filter);
    if s.len() > 0 {
        let d = s.drop_last();
        assert(runs_keep_chars(d)) by {
            assert forall|k: int, m: int| 0 <= k < d.len() && 0 <= m < d[k].0.len() implies kept_char(
                #[trigger] d[k].0[m],
            ) by {
                assert(d[k] == s[k]);
            }
        }
        lemma_filter_kept(d);
        let f = nonempty_runs(s);
        let fd = nonempty_runs(d);
        assert forall|k: int, m: int| 0 <= k < f.len() && 0 <= m < f[k].0.len() implies kept_char(
            #[trigger] f[k].0[m],
        ) by {
            if nonempty_run(s.last()) {
                assert(f == fd.push(s.last()));
                if k < fd.len() {
                    assert(f[k] == fd[k]);
                } else {
                    assert(f[k] == s[s.len() - 1]);
                }
            } else {
                assert(f == fd);
            }
        }
    }
}

/// Law: in the runs that `normalize_inline_runs` gives, the only white space left is spaces
/// and line breaks.
pub proof fn normalized_runs_keep_only_spaces_and_breaks(runs: Seq<(Seq<char>, u64)>)
    ensures
        runs_keep_chars(normalized_runs(runs)),
{
    let e = Seq::<(Seq<char>, u64)>::empty();
    lemma_norm_runs_kept(runs, 0, true, e);
    let o = norm_runs(runs, 0, true, e);
    let t = trim_last_space(o);
    assert(runs_keep_chars(t)) by {
        assert forall|k: int, m: int| 0 <= k < t.len() && 0 <= m < t[k].0.len() implies kept_char(
            #[trigger] t[k].0[m],
        ) by {
            if o.len() > 0 && o.last().0.len() > 0 && o.last().0.last() == ' ' && k == o.len() - 1 {
                assert(t[k].0 == o[k].0.drop_last());
                assert(t[k].0[m] == o[k].0[m]);
            } else {
                assert(t[k] == o[k]);
            }
        }
    }
    lemma_filter_kept(t);
}

/// Law: the runs that `normalize_inline_runs` gives are none of them empty, and no two
/// neighbours share a style (they would have been joined).
pub proof fn normalized_runs_are_joined(runs: Seq<(Seq<char>, u64)>)
    ensures
        all_nonempty(normalized_runs(runs)),
        styles_alternate(normalized_runs(runs)),
{
    let e = Seq::<(Seq<char>, u64)>::empty();
    lemma_norm_runs_keeps(runs, 0, true, e);
    let o = norm_runs(runs, 0, true, e);
    let t = trim_last_space(o);
    if o.len() > 0 {
        let n = o.len() - 1;
        let front = t.drop_last();
        assert(all_nonempty(front)) by {
            assert forall|k: int| 0 <= k < front.len() implies (#[trigger] front[k]).0.len() > 0 by {
                assert(front[k] == o[k]);
            }
        }
        assert(styles_alternate(t)) by {
            assert forall|k: int| 0 <= k < t.len() - 1 implies #[trigger] t[k].1 != t[k + 1].1 by {
                assert(t[k].1 == o[k].1);
                assert(t[k + 1].1 == o[k + 1].1);
            }
        }
        lemma_filter_all(front);
        reveal(Seq::filter);
        assert(t.drop_last() == front);
        if t.last().0.len() > 0 {
            assert(nonempty_runs(t) == front.push(t.last()));
            assert(front.push(t.last()) =~= t);
            assert forall|k: int| 0 <= k < t.len() implies (#[trigger] t[k]).0.len() > 0 by {
                if k < n {
                    assert(t[k] == front[k]);
                }
            }
        } else {
            assert(nonempty_runs(t) == front);
            assert forall|k: int| 0 <= k < front.len() - 1 implies #[trigger] front[k].1 != front[k + 1].1 by {
                assert(front[k] == t[k]);
                assert(front[k + 1] == t[k + 1]);
            }
        }
    } else {
        lemma_filter_all(t);
    }
}

} // verus!

verus! {

// ---------------------------------------------------------------------------
// Grouping the children of a block
// ---------------------------------------------------------------------------

/// A group of a block's children: a run of inline children laid out in one wrapping row
/// (from the first index up to, not including, the second), or one child on its own.
#[derive(Clone, Copy, Debug, PartialEq, Eq)]
pub enum ChildGroup {
    InlineRow(usize, usize),
    Alone(usize),
}

/// The pending inline run from `start` up to `end`, as a group when it is not empty.
pub open spec fn pending_row(start: int, end: int) -> Seq<ChildGroup> {
    if start < end {
        seq![ChildGroup::InlineRow(start as usize, end as usize)]
    } else {
        seq![]
    }
}

/// The groups of the children from index `i` on, `flags` telling which flow inline, with an
/// inline run pending from `start`.
pub open spec fn groups_from(flags: Seq<bool>, i: int, start: int) -> Seq<ChildGroup>
    decreases flags.len() - i,
{
    if i < 0 || i >= flags.len() {
        pending_row(start, flags.len() as int)
    } else if flags[i] {
        groups_from(flags, i + 1, start)
    } else {
        pending_row(start, i) + seq![ChildGroup::Alone(i as usize)] + groups_from(flags, i + 1, i + 1)
    }
}

/// The groups of a block's children, `flags` telling which flow inline: each maximal run of
/// inline children forms a row, each other child stands alone, in order.
pub open spec fn child_groups(flags: Seq<bool>) -> Seq<ChildGroup> {
    groups_from(flags, 0, 0)
}

/// Groups a block's children for layout; `inline` tells, for each child, whether it flows
/// inline.
pub fn group_children(inline: &[bool]) -> (r: Vec<ChildGroup>)
    ensures
        r@ == child_groups(inline@),
{
    let mut out: Vec<ChildGroup> = Vec::new();
    let mut start: usize = 0;
    let mut i: usize = 0;
    while i < inline.len()
        invariant
            start <= i <= inline@.len(),
            out@ + groups_from(inline@, i as int, start as int) == child_groups(inline@),
        decreases inline@.len() - i,
    {
        if !inline[i] {
            let ghost before = out@;
            if start < i {
                out.push(ChildGroup::InlineRow(start, i));
            }
            out.push(ChildGroup::Alone(i));
            assert(out@ =~= before + pending_row(start as int, i as int) + seq![ChildGroup::Alone(i)]);
            start = i + 1;
        }
        i = i + 1;
    }
    let ghost before = out@;
    if start < inline.len() {
        out.push(ChildGroup::InlineRow(start, inline.len()));
    }
    assert(out@ =~= before + pending_row(start as int, inline@.len() as int));
    out
}

/// The child indices that a group covers.
pub open spec fn group_indices(g: ChildGroup) -> Seq<int> {
    match g {
        ChildGroup::InlineRow(a, b) => Seq::new((b - a) as nat, |k: int| a + k),
        ChildGroup::Alone(i) => seq![i as int],
    }
}

/// The child indices that the groups cover, one group after another.
pub open spec fn covered(gs: Seq<ChildGroup>) -> Seq<int>
    decreases gs.len(),
{
    if gs.len() == 0 {
        seq![]
    } else {
        group_indices(gs[0]) + covered(gs.subrange(1, gs.len() as int))
    }
}

proof fn lemma_covered_concat(a: Seq<ChildGroup>, b: Seq<ChildGroup>)
    ensures
        covered(a + b) == covered(a) + covered(b),
    decreases a.len(),
{
    if a.len() == 0 {
        assert(a + b =~= b);
        assert(covered(a) + covered(b) =~= covered(b));
    } else {
        assert((a + b).subrange(1, (a + b).len() as int) =~= a.subrange(1, a.len() as int) + b);
        lemma_covered_concat(a.subrange(1, a.len() as int), b);
        assert((a + b)[0] == a[0]);
        assert(covered(a + b) =~= covered(a) + covered(b));
    }
}

proof fn lemma_covered_one(g: ChildGroup)
    ensures
        covered(seq![g]) == group_indices(g),
{
    let e = seq![g].subrange(1, 1);
    assert(e =~= Seq::<ChildGroup>::empty());
    assert(covered(e) =~= Seq::<int>::empty());
    assert(seq![g][0] == g);
    assert(covered(seq![g]) == group_indices(g) + covered(e));
    assert(covered(seq![g]) =~= group_indices(g));
}

/// The indices from `a` up to, not including, `b`.
pub open spec fn index_range(a: int, b: int) -> Seq<int> {
    Seq::new(if a <= b { (b - a) as nat } else { 0 }, |k: int| a + k)
}

proof fn lemma_groups_cover(flags: Seq<bool>, i: int, start: int)
    requires
        0 <= start <= i <= flags.len(),
        flags.len() <= usize::MAX,
    ensures
        covered(groups_from(flags, i, start)) == index_range(start, flags.len() as int),
    decreases flags.len() - i,
{
    let n = flags.len() as int;
    if i >= n {
        if start < n {
            lemma_covered_one(ChildGroup::InlineRow(start as usize, n as usize));
            assert(covered(pending_row(start, n)) =~= index_range(start, n));
        } else {
            assert(covered(pending_row(start, n)) =~= index_range(start, n));
        }
    } else if flags[i] {
        lemma_groups_cover(flags, i + 1, start);
    } else {
        lemma_groups_cover(flags, i + 1, i + 1);
        let p = pending_row(start, i);
        let al = seq![ChildGroup::Alone(i as usize)];
        let rest = groups_from(flags, i + 1, i + 1);
        lemma_covered_concat(p + al, rest);
        lemma_covered_concat(p, al);
        lemma_covered_one(ChildGroup::Alone(i as usize));
        if start < i {
            lemma_covered_one(ChildGroup::InlineRow(start as usize, i as usize));
        }
        assert(covered(p) =~= index_range(start, i));
        assert(index_range(start, i) + seq![i] + index_range(i + 1, n) =~= index_range(start, n));
    }
}

/// Law: the groups cover every child exactly once, in order.
pub proof fn groups_cover_children(flags: Seq<bool>)
    requires
        flags.len() <= usize::MAX,
    ensures
        covered(child_groups(flags)) == index_range(0, flags.len() as int),
{
    lemma_groups_cover(flags, 0, 0);
}

} // verus!

verus! {

/// Text in collapsed form: white space only as single spaces.
pub open spec fn single_spaced(t: Seq<char>) -> bool {
    &&& forall|k: int| 0 <= k < t.len() && is_ws(#[trigger] t[k]) ==> t[k] == ' '
    &&& forall|k: int| 0 <= k < t.len() - 1 && #[trigger] t[k] == ' ' ==> t[k + 1] != ' '
}

proof fn lemma_collapse_single_spaced(t: Seq<char>, i: int, prev: bool)
    requires
        single_spaced(t),
        0 <= i <= t.len(),
        prev && i < t.len() ==> t[i] != ' ',
    ensures
        collapse_from(t, i, prev) == t.subrange(i, t.len() as int),
    decreases t.len() - i,
{
    if i < t.len() {
        let rest = t.subrange(i + 1, t.len() as int);
        assert(t.subrange(i, t.len() as int) =~= seq![t[i]] + rest);
        if is_ws(t[i]) {
            assert(t[i] == ' ');
            assert(i + 1 < t.len() ==> t[i + 1] != ' ');
            lemma_collapse_single_spaced(t, i + 1, true);
        } else {
            lemma_collapse_single_spaced(t, i + 1, false);
        }
    } else {
        assert(t.subrange(i, t.len() as int) =~= Seq::<char>::empty());
    }
}

/// Law: collapsing white space twice gives what collapsing once gave.
/// Words joined by single spaces.
pub open spec fn join_with_spaces(ws: Seq<Seq<char>>) -> Seq<char>
    decreases ws.len(),
{
    if ws.len() == 0 {
        seq![]
    } else if ws.len() == 1 {
        ws[0]
    } else {
        ws[0] + seq![' '] + join_with_spaces(ws.drop_first())
    }
}

/// `c` without a final space.
pub open spec fn without_last_space(c: Seq<char>) -> Seq<char> {
    if c.len() > 0 && c.last() == ' ' {
        c.drop_last()
    } else {
        c
    }
}

proof fn lemma_collapse_word(s: Seq<char>, i: int, j: int, prev: bool)
    requires
        0 <= i <= j <= s.len(),
        forall|k: int| i <= k < j ==> !is_ws(s[k]),
    ensures
        i < j ==> collapse_from(s, i, prev) == s.subrange(i, j) + collapse_from(s, j, false),
    decreases j - i,
{
    if i < j {
        lemma_collapse_word(s, i + 1, j, false);
        if i + 1 < j {
            assert(s.subrange(i, j) =~= seq![s[i]] + s.subrange(i + 1, j));
        } else {
            assert(s.subrange(i, j) =~= seq![s[i]]);
        }
    }
}

proof fn lemma_collapse_words(s: Seq<char>, i: int)
    requires
        0 <= i <= s.len(),
    ensures
        without_last_space(collapse_from(s, i, true)) == join_with_spaces(
            crate::text::words_from(s, crate::text::CharClass::Whitespace, i),
        ),
        collapse_from(s, i, true).len() > 0 ==> collapse_from(s, i, true)[0] != ' ',
        crate::text::words_from(s, crate::text::CharClass::Whitespace, i).len() > 0
            ==> join_with_spaces(crate::text::words_from(s, crate::text::CharClass::Whitespace, i)).len() > 0,
    decreases s.len() - i,
{
    let cls = crate::text::CharClass::Whitespace;
    let t = collapse_from(s, i, true);
    if i >= s.len() {
    } else if is_ws(s[i]) {
        lemma_collapse_words(s, i + 1);
    } else {
        let j = crate::text::word_end(s, cls, i);
        crate::text::lemma_word_end(s, cls, i);
        assert(j > i);
        lemma_collapse_word(s, i, j, true);
        let w = s.subrange(i, j);
        assert(w.len() > 0 && w.last() == s[j - 1] && !is_ws(s[j - 1]));
        let words = crate::text::words_from(s, cls, i);
        assert(words == seq![w] + crate::text::words_from(s, cls, j));
        if j == s.len() {
            assert(t == w + collapse_from(s, j, false));
            assert(t =~= w);
            assert(crate::text::words_from(s, cls, j).len() == 0);
            assert(words =~= seq![w]);
        } else {
            assert(is_ws(s[j]));
            lemma_collapse_words(s, j + 1);
            let x = collapse_from(s, j + 1, true);
            assert(collapse_from(s, j, false) == seq![' '] + x);
            assert(crate::text::words_from(s, cls, j) == crate::text::words_from(s, cls, j + 1));
            let rest = crate::text::words_from(s, cls, j + 1);
            assert(t == w + (seq![' '] + x));
            assert(words.drop_first() =~= rest);
            if rest.len() == 0 {
                assert(words =~= seq![w]);
                assert(without_last_space(x).len() == 0);
                if x.len() > 0 {
                    assert(x.len() == 1 && x[0] == ' ');
                }
                assert(x.len() == 0);
                assert(t =~= w + seq![' ']);
                assert(without_last_space(t) =~= w);
            } else {
                assert(x.len() > 0);
                assert(without_last_space(t) =~= w + seq![' '] + without_last_space(x));
            }
        }
        assert(t[0] == w[0]);
    }
}

/// Law: collapsing white space gives the words of the text (as `str::split_whitespace` cuts
/// it) joined by single spaces.
pub proof fn collapse_joins_words(s: Seq<char>)
    ensures
        collapsed(s) == join_with_spaces(crate::text::split_whitespace(s)),
{
    lemma_collapse_words(s, 0);
}

pub proof fn collapse_is_idempotent(s: Seq<char>)
    ensures
        collapsed(collapsed(s)) == collapsed(s),
{
    collapsed_text_is_normal(s);
    let c = collapsed(s);
    lemma_collapse_single_spaced(c, 0, true);
    assert(c.subrange(0, c.len() as int) =~= c);
}

} // verus!

verus! {

// ---------------------------------------------------------------------------
// Images
// ---------------------------------------------------------------------------

/// The RGBA pixels, width and height of the image that `bytes` encode, as the `image` crate
/// decodes them (`image::load_from_memory`, then `to_rgba8`); `None` when they do not decode.
pub uninterp spec fn decoded_rgba(bytes: Seq<u8>) -> Option<(Seq<u8>, u32, u32)>;

/// Decodes an image with `image::load_from_memory`, converts it with `to_rgba8` and takes its
/// width, height and raw pixels. The contract names the result: a function of the bytes.
#[verifier::external_body]
fn decode_rgba(bytes: &[u8]) -> (r: Option<(Vec<u8>, u32, u32)>)
    ensures
        match r {
            Some((px, w, h)) => decoded_rgba(bytes@) == Some((px@, w, h)),
            None => decoded_rgba(bytes@) is None,
        },
{
    match image::load_from_memory(bytes) {
        Ok(img) => {
            let rgba = img.to_rgba8();
            let (w, h) = (rgba.width(), rgba.height());
            Some((rgba.into_raw(), w, h))
        },
        Err(_) => None,
    }
}

/// The image that encoded `bytes` hold, ready for layout.
pub fn load_image_for_layout(bytes: &[u8]) -> (r: Option<LayoutImage>)
    ensures
        match r {
            Some(img) => decoded_rgba(bytes@) == Some((img.rgba@, img.width, img.height)),
            None => decoded_rgba(bytes@) is None,
        },
{
    match decode_rgba(bytes) {
        Some((rgba, width, height)) => Some(LayoutImage { rgba, width, height }),
        None => None,
    }
}

// ---------------------------------------------------------------------------
// Tables
// ---------------------------------------------------------------------------

/// Whether an element named `tag` is a table cell (`td` or `th`, any ASCII case).
pub open spec fn table_cell_tag(tag: Seq<char>) -> bool {
    crate::text::eq_ignore_case(tag, "td"@) || crate::text::eq_ignore_case(tag, "th"@)
}

pub fn is_table_cell_tag(tag: &str) -> (r: bool)
    ensures
        r == table_cell_tag(tag@),
{
    let t = chars_of(tag);
    let td = chars_of("td");
    let th = chars_of("th");
    crate::text::eq_ignore_case_vec(t.as_slice(), td.as_slice())
        || crate::text::eq_ignore_case_vec(t.as_slice(), th.as_slice())
}

/// The columns a cell spans: its `colspan`, at least 1.
pub open spec fn span_of(s: u16) -> nat {
    if s < 1 {
        1
    } else {
        s as nat
    }
}

/// The columns that the first `n` cells of a row span, in all.
pub open spec fn spanned(spans: Seq<u16>, n: int) -> nat
    decreases n,
{
    if n <= 0 || n > spans.len() {
        0
    } else {
        spanned(spans, n - 1) + span_of(spans[n - 1])
    }
}

/// The column at which each cell of a row begins, cells spanning their `colspan` columns.
pub fn cell_columns(colspans: &[u16]) -> (r: Vec<usize>)
    requires
        colspans@.len() * 65535 <= usize::MAX,
    ensures
        r@.len() == colspans@.len(),
        forall|k: int| 0 <= k < r@.len() ==> #[trigger] r@[k] as nat == spanned(colspans@, k),
{
    let mut r: Vec<usize> = Vec::new();
    let mut col: usize = 0;
    let mut i: usize = 0;
    while i < colspans.len()
        invariant
            colspans@.len() * 65535 <= usize::MAX,
            i <= colspans@.len(),
            r@.len() == i,
            col as nat == spanned(colspans@, i as int),
            col <= i * 65535,
            forall|k: int| 0 <= k < i ==> #[trigger] r@[k] as nat == spanned(colspans@, k),
        decreases colspans@.len() - i,
    {
        r.push(col);
        let s = colspans[i];
        let w: usize = if s < 1 {
            1
        } else {
            s as usize
        };
        assert(col + w <= (i + 1) * 65535) by (nonlinear_arith)
            requires
                col <= i * 65535,
                w <= 65535,
        ;
        assert((i + 1) * 65535 <= colspans@.len() * 65535) by (nonlinear_arith)
            requires
                i + 1 <= colspans@.len(),
        ;
        col = col + w;
        i = i + 1;
    }
    r
}

/// The number of columns a table needs: the most that any of its rows spans.
pub open spec fn max_columns_upto(rows: Seq<Seq<u16>>, n: int) -> nat
    decreases n,
{
    if n <= 0 || n > rows.len() {
        0
    } else {
        let rest = max_columns_upto(rows, n - 1);
        let w = spanned(rows[n - 1], rows[n - 1].len() as int);
        if w > rest {
            w
        } else {
            rest
        }
    }
}

fn row_width(colspans: &[u16]) -> (r: usize)
    requires
        colspans@.len() * 65535 <= usize::MAX,
    ensures
        r as nat == spanned(colspans@, colspans@.len() as int),
{
    let mut col: usize = 0;
    let mut i: usize = 0;
    while i < colspans.len()
        invariant
            colspans@.len() * 65535 <= usize::MAX,
            i <= colspans@.len(),
            col as nat == spanned(colspans@, i as int),
            col <= i * 65535,
        decreases colspans@.len() - i,
    {
        let s = colspans[i];
        let w: usize = if s < 1 {
            1
        } else {
            s as usize
        };
        assert(col + w <= (i + 1) * 65535) by (nonlinear_arith)
            requires
                col <= i * 65535,
                w <= 65535,
        ;
        assert((i + 1) * 65535 <= colspans@.len() * 65535) by (nonlinear_arith)
            requires
                i + 1 <= colspans@.len(),
        ;
        col = col + w;
        i = i + 1;
    }
    col
}

/// The number of columns a table needs, given the `colspan` of each cell of each row.
pub fn count_max_columns(rows: &Vec<Vec<u16>>) -> (r: usize)
    requires
        forall|k: int| 0 <= k < rows@.len() ==> (#[trigger] rows@[k])@.len() * 65535 <= usize::MAX,
    ensures
        r as nat == max_columns_upto(rows@.map_values(|v: Vec<u16>| v@), rows@.len() as int),
{
    let ghost rv = rows@.map_values(|v: Vec<u16>| v@);
    let mut best: usize = 0;
    let mut i: usize = 0;
    while i < rows.len()
        invariant
            rv == rows@.map_values(|v: Vec<u16>| v@),
            forall|k: int| 0 <= k < rows@.len() ==> (#[trigger] rows@[k])@.len() * 65535 <= usize::MAX,
            i <= rows@.len(),
            best as nat == max_columns_upto(rv, i as int),
        decreases rows@.len() - i,
    {
        assert(rv[i as int] == rows@[i as int]@);
        let w = row_width(rows[i].as_slice());
        if w > best {
            best = w;
        }
        i = i + 1;
    }
    best
}

} // verus!

verus! {

proof fn lemma_rows_separated(flags: Seq<bool>, i: int, start: int)
    requires
        0 <= start <= i <= flags.len(),
    ensures
        forall|k: int|
            0 <= k < groups_from(flags, i, start).len() - 1 && (#[trigger] groups_from(
                flags,
                i,
                start,
            )[k]) is InlineRow ==> groups_from(flags, i, start)[k + 1] is Alone,
    decreases flags.len() - i,
{
    if i < flags.len() {
        if flags[i] {
            lemma_rows_separated(flags, i + 1, start);
        } else {
            lemma_rows_separated(flags, i + 1, i + 1);
            let p = pending_row(start, i);
            let al = seq![ChildGroup::Alone(i as usize)];
            let rest = groups_from(flags, i + 1, i + 1);
            let g = p + al + rest;
            assert forall|k: int| 0 <= k < g.len() - 1 && (#[trigger] g[k]) is InlineRow implies g[k
                + 1] is Alone by {
                if k < p.len() {
                    assert(g[k + 1] == al[0]);
                } else if k == p.len() {
                    assert(g[k] == al[0]);
                } else {
                    assert(g[k] == rest[k - p.len() - 1]);
                    assert(g[k + 1] == rest[k - p.len()]);
                }
            }
        }
    }
}

/// How many of the children from `i` on do not flow inline.
pub open spec fn block_children_from(flags: Seq<bool>, i: int) -> nat
    decreases flags.len() - i,
{
    if i < 0 || i >= flags.len() {
        0
    } else {
        block_children_from(flags, i + 1) + if flags[i] {
            0nat
        } else {
            1nat
        }
    }
}

/// How many maximal runs of inline children begin at or after `i`; `in_run` tells whether the
/// child before `i` flows inline, so that a run going on at `i` is not counted again.
pub open spec fn inline_runs_from(flags: Seq<bool>, i: int, in_run: bool) -> nat
    decreases flags.len() - i,
{
    if i < 0 || i >= flags.len() {
        0
    } else if flags[i] {
        inline_runs_from(flags, i + 1, true) + if in_run {
            0nat
        } else {
            1nat
        }
    } else {
        inline_runs_from(flags, i + 1, false)
    }
}

proof fn lemma_group_count(flags: Seq<bool>, i: int, start: int)
    requires
        0 <= start <= i <= flags.len(),
    ensures
        groups_from(flags, i, start).len() == block_children_from(flags, i) + inline_runs_from(
            flags,
            i,
            start < i,
        ) + if start < i {
            1int
        } else {
            0int
        },
    decreases flags.len() - i,
{
    if i < flags.len() {
        if flags[i] {
            lemma_group_count(flags, i + 1, start);
        } else {
            lemma_group_count(flags, i + 1, i + 1);
        }
    }
}

/// Law: a block's children form one group for each child that does not flow inline and one
/// for each maximal run of children that do.
pub proof fn group_count(flags: Seq<bool>)
    ensures
        child_groups(flags).len() == block_children_from(flags, 0) + inline_runs_from(flags, 0, false),
{
    lemma_group_count(flags, 0, 0);
}

/// Law: an inline row is always followed by a child on its own, never by another row (rows
/// are maximal runs).
pub proof fn inline_rows_are_maximal(flags: Seq<bool>)
    ensures
        forall|k: int|
            0 <= k < child_groups(flags).len() - 1 && (#[trigger] child_groups(flags)[k]) is InlineRow
                ==> child_groups(flags)[k + 1] is Alone,
{
    lemma_rows_separated(flags, 0, 0);
}

} // verus!
