//! The style sheet grammar: rules (`selector { declarations }`) and declaration lists
//! (`name: value; ...`), read over the tokens that `cssparser` cuts the text into.

use vstd::prelude::*;

use cssparser::{ParseError, Parser as CssParser, ParserInput, Token};

use crate::css::{
    compute_specificity, entries_view, importance_split, is_custom_property, make_declaration,
    pseudo_split, specificity_fits, specificity_of, split_pseudo_selector, subst,
    substitute_vars_bounded, CssVariables, Declaration, PseudoElement,
};
use crate::text::{chars_of, is_word, starts_with, string_of, trim, trim_vec, unicode_lowercase};

verus! {

// ---------------------------------------------------------------------------
// Tokens
// ---------------------------------------------------------------------------

/// One token of a style sheet at the outermost nesting level: the whitespace and comments
/// before it (`gap`), its name when it is an identifier, and its source text. A `{...}` block
/// is one token whose text is the whole block; the contents of a function or of a `(...)` or
/// `[...]` block are counted into the gap of the token that follows them.
#[derive(Clone, Debug)]
pub struct CssToken {
    pub gap: String,
    pub ident: Option<String>,
    pub text: String,
}

/// A token by its characters.
pub struct TokenView {
    pub gap: Seq<char>,
    pub ident: Option<Seq<char>>,
    pub text: Seq<char>,
}

impl View for CssToken {
    type V = TokenView;

    open spec fn view(&self) -> TokenView {
        TokenView {
            gap: self.gap@,
            ident: match self.ident {
                Some(n) => Some(n@),
                None => None,
            },
            text: self.text@,
        }
    }
}

/// Tokens by their characters.
pub open spec fn tokens_view(s: Seq<CssToken>) -> Seq<TokenView> {
    s.map_values(|t: CssToken| t@)
}

/// The outermost tokens of `css` as `cssparser` reads them, with the text after the last
/// one (its trailing whitespace, comments and unfinished block contents).
pub uninterp spec fn css_token_list(css: Seq<char>) -> (Seq<TokenView>, Seq<char>);

/// Cuts `css` into its outermost tokens with `cssparser::Parser`: `skip_whitespace` gives each
/// gap, `next_including_whitespace_and_comments` each token, `slice` and `slice_from` their
/// texts, and `parse_nested_block` steps over a `{...}` block (the closure reads nothing; the
/// parser consumes the rest of the block when it returns). The contract names the result: a
/// function of the text alone.
#[verifier::external_body]
fn css_tokens(css: &str) -> (r: (Vec<CssToken>, String))
    ensures
        (tokens_view(r.0@), r.1@) == css_token_list(css@),
{
    let mut input = ParserInput::new(css);
    let mut parser = CssParser::new(&mut input);
    let mut out = Vec::new();
    loop {
        let gap = parser.position();
        parser.skip_whitespace();
        let start = parser.position();
        let ident = match parser.next_including_whitespace_and_comments() {
            Ok(Token::Ident(name)) => Some(name.to_string()),
            Ok(Token::CurlyBracketBlock) => parser.parse_nested_block(|_| Ok::<_, ParseError<()>>(None)).unwrap_or(None),
            Ok(_) => None,
            Err(_) => return (out, parser.slice(gap..start).to_string()),
        };
        out.push(CssToken { gap: parser.slice(gap..start).to_string(), ident, text: parser.slice_from(start).to_string() });
    }
}

// ---------------------------------------------------------------------------
// Spans of tokens
// ---------------------------------------------------------------------------

/// The source text from the start of the gap before token `a` up to the start of token `m`
/// (that is, through the gap before `m`; the trailing text when `m` is the end).
pub open spec fn span(t: Seq<TokenView>, tail: Seq<char>, a: int, m: int) -> Seq<char>
    decreases m - a,
{
    if a >= m {
        if 0 <= m < t.len() {
            t[m].gap
        } else {
            tail
        }
    } else {
        t[a].gap + t[a].text + span(t, tail, a + 1, m)
    }
}

/// The first token at or after `i` that is `;`, or the end.
pub open spec fn next_semi(t: Seq<TokenView>, i: int) -> int
    decreases t.len() - i,
{
    if i < 0 || i >= t.len() {
        t.len() as int
    } else if t[i].text == ";"@ {
        i
    } else {
        next_semi(t, i + 1)
    }
}

/// Where reading goes on after the statement that ends at `m` (a `;`, or the end).
pub open spec fn after(t: Seq<TokenView>, m: int) -> int {
    if m < t.len() {
        m + 1
    } else {
        t.len() as int
    }
}

fn text_is(t: &CssToken, w: &str) -> (r: bool)
    ensures
        r == (t@.text == w@),
{
    let c = chars_of(t.text.as_str());
    is_word(c.as_slice(), w)
}

fn find_semi(toks: &Vec<CssToken>, i: usize) -> (r: usize)
    requires
        i <= toks@.len(),
    ensures
        r as int == next_semi(tokens_view(toks@), i as int),
        i <= r <= toks@.len(),
{
    let ghost v = tokens_view(toks@);
    let mut q = i;
    while q < toks.len()
        invariant
            i <= q <= toks@.len(),
            v == tokens_view(toks@),
            next_semi(v, i as int) == next_semi(v, q as int),
        decreases toks@.len() - q,
    {
        if text_is(&toks[q], ";") {
            return q;
        }
        q = q + 1;
    }
    q
}

fn span_chars(toks: &Vec<CssToken>, tail: &String, a: usize, m: usize) -> (r: Vec<char>)
    requires
        a <= m <= toks@.len(),
    ensures
        r@ == span(tokens_view(toks@), tail@, a as int, m as int),
{
    let ghost v = tokens_view(toks@);
    let mut acc: Vec<char> = Vec::new();
    let mut q = a;
    while q < m
        invariant
            a <= q <= m <= toks@.len(),
            v == tokens_view(toks@),
            acc@ + span(v, tail@, q as int, m as int) == span(v, tail@, a as int, m as int),
        decreases m - q,
    {
        let g = chars_of(toks[q].gap.as_str());
        let x = chars_of(toks[q].text.as_str());
        proof {
            let rest = span(v, tail@, q + 1, m as int);
            assert(span(v, tail@, q as int, m as int) == v[q as int].gap + v[q as int].text + rest);
            assert(acc@ + (g@ + x@ + rest) =~= (acc@ + g@ + x@) + rest);
        }
        crate::text::extend_vec(&mut acc, g.as_slice());
        crate::text::extend_vec(&mut acc, x.as_slice());
        q = q + 1;
    }
    let last = if m < toks.len() {
        chars_of(toks[m].gap.as_str())
    } else {
        chars_of(tail.as_str())
    };
    crate::text::extend_vec(&mut acc, last.as_slice());
    acc
}

// ---------------------------------------------------------------------------
// Declaration lists
// ---------------------------------------------------------------------------

/// A declaration by its characters: property, value and whether it is `!important`.
pub open spec fn decl_view(d: Declaration) -> (Seq<char>, Seq<char>, bool) {
    (d.property@, d.value@, d.important)
}

/// Declarations by their characters.
pub open spec fn decls_view(s: Seq<Declaration>) -> Seq<(Seq<char>, Seq<char>, bool)> {
    s.map_values(|d: Declaration| decl_view(d))
}

/// The declaration `name: raw`.
pub open spec fn declaration_of(name: Seq<char>, raw: Seq<char>) -> (Seq<char>, Seq<char>, bool) {
    (unicode_lowercase(name), importance_split(raw).0, importance_split(raw).1)
}

/// The declarations and the custom properties (`--name: value`) of the declaration list that
/// starts at token `i`, each in source order.
///
/// An identifier followed by `:` starts a declaration whose value runs to the next `;` (or the
/// end). A custom property keeps its value trimmed; any other property is lower-cased and its
/// value split from `!important`. An identifier followed by anything else is dropped: for a
/// custom property, with that token; otherwise through the next `;` after that token. A list
/// that starts with anything but an identifier is dropped through its `;`.
pub open spec fn decls_from(t: Seq<TokenView>, tail: Seq<char>, i: int) -> (
    Seq<(Seq<char>, Seq<char>, bool)>,
    Seq<(Seq<char>, Seq<char>)>,
)
    decreases t.len() - i, 1int,
{
    if i < 0 || i >= t.len() {
        (seq![], seq![])
    } else {
        match t[i].ident {
            Some(name) => {
                let k = i + 1;
                if k < t.len() && t[k].text == ":"@ {
                    let m = next_semi(t, k + 1);
                    let value = span(t, tail, k + 1, m);
                    let rest = decls_from_after(t, tail, i, m);
                    if starts_with(name, "--"@) {
                        (rest.0, seq![(name, trim(value))] + rest.1)
                    } else {
                        (seq![declaration_of(name, value)] + rest.0, rest.1)
                    }
                } else if k >= t.len() {
                    (seq![], seq![])
                } else if starts_with(name, "--"@) {
                    decls_from_after(t, tail, i, k)
                } else {
                    decls_from_after(t, tail, i, next_semi(t, k + 1))
                }
            },
            None => decls_from_after(t, tail, i, next_semi(t, i)),
        }
    }
}

/// `decls_from` after the statement that starts at `i` and ends at `m`.
pub open spec fn decls_from_after(t: Seq<TokenView>, tail: Seq<char>, i: int, m: int) -> (
    Seq<(Seq<char>, Seq<char>, bool)>,
    Seq<(Seq<char>, Seq<char>)>,
)
    decreases t.len() - i, 0int,
{
    if i <= m && after(t, m) > i {
        decls_from(t, tail, after(t, m))
    } else {
        (seq![], seq![])
    }
}

proof fn lemma_next_semi_bounds(t: Seq<TokenView>, i: int)
    requires
        0 <= i,
    ensures
        i <= next_semi(t, i) <= t.len() || (i > t.len() && next_semi(t, i) == t.len()),
        next_semi(t, i) <= t.len(),
    decreases t.len() - i,
{
    if i < t.len() && t[i].text != ";"@ {
        lemma_next_semi_bounds(t, i + 1);
    }
}

/// Reads the declaration list of the tokens `toks` (ending in `tail`).
fn decls_of_tokens(toks: &Vec<CssToken>, tail: &String) -> (r: (
    Vec<Declaration>,
    Vec<(String, String)>,
))
    ensures
        decls_view(r.0@) == decls_from(tokens_view(toks@), tail@, 0).0,
        entries_view(r.1@) == decls_from(tokens_view(toks@), tail@, 0).1,
{
    let ghost v = tokens_view(toks@);
    let n = toks.len();
    let mut decls: Vec<Declaration> = Vec::new();
    let mut vars: Vec<(String, String)> = Vec::new();
    let mut i: usize = 0;
    while i < n
        invariant
            i <= n == toks@.len(),
            v == tokens_view(toks@),
            decls_view(decls@) + decls_from(v, tail@, i as int).0 == decls_from(v, tail@, 0).0,
            entries_view(vars@) + decls_from(v, tail@, i as int).1 == decls_from(v, tail@, 0).1,
        decreases n - i,
    {
        let ghost d0 = decls@;
        let ghost e0 = vars@;
        let ghost here = decls_from(v, tail@, i as int);
        let next: usize;
        match &toks[i].ident {
            Some(name) => {
                assert(v[i as int].ident == Some(name@));
                let k = i + 1;
                if k < n && text_is(&toks[k], ":") {
                    let m = find_semi(toks, k + 1);
                    let value = span_chars(toks, tail, k + 1, m);
                    next = if m < n { m + 1 } else { n };
                    let ghost rest = decls_from(v, tail@, next as int);
                    assert(decls_from_after(v, tail@, i as int, m as int) == rest);
                    if is_custom_property(name.as_str()) {
                        let tv = trim_vec(value.as_slice());
                        vars.push((name.clone(), string_of(tv.as_slice())));
                        proof {
                            assert(here == (rest.0, seq![(name@, trim(value@))] + rest.1));
                            assert(entries_view(vars@) =~= entries_view(e0).push(
                                (name@, trim(value@)),
                            ));
                            assert(entries_view(vars@) + rest.1 =~= entries_view(e0) + here.1);
                        }
                    } else {
                        let raw = string_of(value.as_slice());
                        let d = make_declaration(name.as_str(), raw.as_str());
                        decls.push(d);
                        proof {
                            assert(decl_view(d) == declaration_of(name@, value@));
                            assert(here == (seq![declaration_of(name@, value@)] + rest.0, rest.1));
                            assert(decls_view(decls@) =~= decls_view(d0).push(decl_view(d)));
                            assert(decls_view(decls@) + rest.0 =~= decls_view(d0) + here.0);
                        }
                    }
                } else if k >= n {
                    next = n;
                } else if is_custom_property(name.as_str()) {
                    next = k + 1;
                    assert(decls_from_after(v, tail@, i as int, k as int) == decls_from(
                        v,
                        tail@,
                        next as int,
                    ));
                } else {
                    let m = find_semi(toks, k + 1);
                    next = if m < n { m + 1 } else { n };
                    assert(decls_from_after(v, tail@, i as int, m as int) == decls_from(
                        v,
                        tail@,
                        next as int,
                    ));
                }
            },
            None => {
                let m = find_semi(toks, i);
                next = if m < n { m + 1 } else { n };
                assert(decls_from_after(v, tail@, i as int, m as int) == decls_from(
                    v,
                    tail@,
                    next as int,
                ));
            },
        }
        assert(decls_view(decls@) + decls_from(v, tail@, next as int).0 == decls_from(v, tail@, 0).0);
        assert(entries_view(vars@) + decls_from(v, tail@, next as int).1 == decls_from(v, tail@, 0).1);
        i = next;
    }
    assert(decls_view(decls@) =~= decls_view(decls@) + seq![]);
    assert(entries_view(vars@) =~= entries_view(vars@) + seq![]);
    (decls, vars)
}

/// The declarations of a declaration list such as a `style` attribute holds.
pub open spec fn declaration_list(text: Seq<char>) -> Seq<(Seq<char>, Seq<char>, bool)> {
    decls_from(css_token_list(text).0, css_token_list(text).1, 0).0
}

/// Reads the declarations of a declaration list, such as a `style` attribute holds.
pub fn parse_declarations(text: &str) -> (r: Vec<Declaration>)
    ensures
        decls_view(r@) == declaration_list(text@),
{
    let (toks, tail) = css_tokens(text);
    let (decls, _) = decls_of_tokens(&toks, &tail);
    decls
}

// ---------------------------------------------------------------------------
// Rules
// ---------------------------------------------------------------------------

/// A rule of a style sheet: its selector text, trimmed, and its declarations.
#[derive(Clone, Debug)]
pub struct RawRule {
    pub selector: String,
    pub declarations: Vec<Declaration>,
}

/// A rule by its characters.
pub open spec fn rule_view(r: RawRule) -> (Seq<char>, Seq<(Seq<char>, Seq<char>, bool)>) {
    (r.selector@, decls_view(r.declarations@))
}

/// Rules by their characters.
pub open spec fn rules_view(s: Seq<RawRule>) -> Seq<(Seq<char>, Seq<(Seq<char>, Seq<char>, bool)>)> {
    s.map_values(|r: RawRule| rule_view(r))
}

/// Whether a token is a `{...}` block.
pub open spec fn is_block(x: TokenView) -> bool {
    x.text.len() > 0 && x.text[0] == '{'
}

/// The first `{...}` block at or after token `i`, or the end.
pub open spec fn next_block(t: Seq<TokenView>, i: int) -> int
    decreases t.len() - i,
{
    if i < 0 || i >= t.len() {
        t.len() as int
    } else if is_block(t[i]) {
        i
    } else {
        next_block(t, i + 1)
    }
}

/// The text of a block without its opening `{`.
pub open spec fn after_open(text: Seq<char>) -> Seq<char> {
    if text.len() > 0 {
        text.subrange(1, text.len() as int)
    } else {
        seq![]
    }
}

/// The tokens inside a `{...}` block and the text after the last of them: the block's
/// tokens up to its closing `}`, when it has one.
pub open spec fn block_inner(text: Seq<char>) -> (Seq<TokenView>, Seq<char>) {
    let (bt, btail) = css_token_list(after_open(text));
    if bt.len() > 0 && bt.last().text == "}"@ {
        (bt.drop_last(), bt.last().gap)
    } else {
        (bt, btail)
    }
}

/// The declarations and custom properties of a `{...}` block.
pub open spec fn block_decls(text: Seq<char>) -> (
    Seq<(Seq<char>, Seq<char>, bool)>,
    Seq<(Seq<char>, Seq<char>)>,
) {
    decls_from(block_inner(text).0, block_inner(text).1, 0)
}

/// The selector of a rule whose text starts at token `i` and whose block is token `b`:
/// the text from token `i` up to the `{`, trimmed.
pub open spec fn selector_at(t: Seq<TokenView>, tail: Seq<char>, i: int, b: int) -> Seq<char> {
    if i < b {
        trim(t[i].text + span(t, tail, i + 1, b))
    } else {
        seq![]
    }
}

/// The rules from token `i` on, and the custom properties that their `:root` rules declare,
/// in source order. A rule's selector is all the text up to the next `{...}` block; text
/// after the last block is no rule.
pub open spec fn rules_from(t: Seq<TokenView>, tail: Seq<char>, i: int) -> (
    Seq<(Seq<char>, Seq<(Seq<char>, Seq<char>, bool)>)>,
    Seq<(Seq<char>, Seq<char>)>,
)
    decreases t.len() - i,
{
    if i < 0 || i >= t.len() {
        (seq![], seq![])
    } else {
        let b = next_block(t, i);
        if b < i || b >= t.len() {
            (seq![], seq![])
        } else {
            let sel = selector_at(t, tail, i, b);
            let body = block_decls(t[b].text);
            let rest = rules_from(t, tail, b + 1);
            let root_vars = if trim(sel) == ":root"@ {
                body.1
            } else {
                seq![]
            };
            (seq![(sel, body.0)] + rest.0, root_vars + rest.1)
        }
    }
}

/// The rules of a style sheet and the custom properties that its `:root` rules declare.
pub open spec fn sheet_rules(css: Seq<char>) -> (
    Seq<(Seq<char>, Seq<(Seq<char>, Seq<char>, bool)>)>,
    Seq<(Seq<char>, Seq<char>)>,
) {
    rules_from(css_token_list(css).0, css_token_list(css).1, 0)
}

fn token_is_block(t: &CssToken) -> (r: bool)
    ensures
        r == is_block(t@),
{
    let c = chars_of(t.text.as_str());
    c.len() > 0 && c[0] == '{'
}

proof fn lemma_next_block_bounds(t: Seq<TokenView>, i: int)
    requires
        0 <= i <= t.len(),
    ensures
        i <= next_block(t, i) <= t.len(),
    decreases t.len() - i,
{
    if i < t.len() && !is_block(t[i]) {
        lemma_next_block_bounds(t, i + 1);
    }
}

fn find_block(toks: &Vec<CssToken>, i: usize) -> (r: usize)
    requires
        i <= toks@.len(),
    ensures
        r as int == next_block(tokens_view(toks@), i as int),
        i <= r <= toks@.len(),
{
    let ghost v = tokens_view(toks@);
    let mut q = i;
    while q < toks.len()
        invariant
            i <= q <= toks@.len(),
            v == tokens_view(toks@),
            next_block(v, i as int) == next_block(v, q as int),
        decreases toks@.len() - q,
    {
        if token_is_block(&toks[q]) {
            return q;
        }
        q = q + 1;
    }
    q
}

/// Reads the declarations and custom properties of a `{...}` block.
fn block_declarations(text: &String) -> (r: (Vec<Declaration>, Vec<(String, String)>))
    ensures
        decls_view(r.0@) == block_decls(text@).0,
        entries_view(r.1@) == block_decls(text@).1,
{
    let c = chars_of(text.as_str());
    let inner_chars = if c.len() > 0 {
        crate::text::subrange_vec(c.as_slice(), 1, c.len())
    } else {
        Vec::new()
    };
    assert(inner_chars@ =~= after_open(text@));
    let inner_text = string_of(inner_chars.as_slice());
    let (mut bt, btail) = css_tokens(inner_text.as_str());
    let ghost bv = tokens_view(bt@);
    if bt.len() > 0 && text_is(&bt[bt.len() - 1], "}") {
        let last = bt.pop().unwrap();
        assert(tokens_view(bt@) =~= bv.drop_last());
        assert(last@ == bv.last());
        decls_of_tokens(&bt, &last.gap)
    } else {
        decls_of_tokens(&bt, &btail)
    }
}

/// Reads the rules of a style sheet, and the custom properties that its `:root` rules
/// declare (a later declaration of a name overrides an earlier one).
pub fn parse_rules(css: &str) -> (r: (Vec<RawRule>, CssVariables))
    ensures
        rules_view(r.0@) == sheet_rules(css@).0,
        r.1@ == sheet_rules(css@).1,
{
    let (toks, tail) = css_tokens(css);
    let ghost v = tokens_view(toks@);
    let n = toks.len();
    let mut rules: Vec<RawRule> = Vec::new();
    let mut vars: Vec<(String, String)> = Vec::new();
    let mut i: usize = 0;
    while i < n
        invariant
            i <= n == toks@.len(),
            v == tokens_view(toks@),
            (v, tail@) == css_token_list(css@),
            rules_view(rules@) + rules_from(v, tail@, i as int).0 == sheet_rules(css@).0,
            entries_view(vars@) + rules_from(v, tail@, i as int).1 == sheet_rules(css@).1,
        decreases n - i,
    {
        let b = find_block(&toks, i);
        if b >= n {
            assert(rules_from(v, tail@, i as int) == rules_from(v, tail@, n as int));
            i = n;
            continue;
        }
        let ghost r0 = rules@;
        let ghost e0 = vars@;
        let ghost here = rules_from(v, tail@, i as int);
        let sel = if i < b {
            let mut s = chars_of(toks[i].text.as_str());
            let rest = span_chars(&toks, &tail, i + 1, b);
            crate::text::extend_vec(&mut s, rest.as_slice());
            trim_vec(s.as_slice())
        } else {
            Vec::new()
        };
        assert(sel@ == selector_at(v, tail@, i as int, b as int));
        let selector = string_of(sel.as_slice());
        let (decls, block_vars) = block_declarations(&toks[b].text);
        let ghost rest = rules_from(v, tail@, b + 1);
        let ghost body = block_decls(v[b as int].text);
        proof {
            assert(here == (
                seq![(selector@, body.0)] + rest.0,
                (if trim(selector@) == ":root"@ { body.1 } else { seq![] }) + rest.1,
            ));
        }
        let is_root = crate::css::is_root_selector(selector.as_str());
        let rule = RawRule { selector, declarations: decls };
        rules.push(rule);
        proof {
            assert(rules_view(rules@) =~= rules_view(r0).push(rule_view(rule)));
            assert(rules_view(rules@) + rest.0 =~= rules_view(r0) + here.0);
        }
        if is_root {
            let mut k: usize = 0;
            while k < block_vars.len()
                invariant
                    k <= block_vars@.len(),
                    entries_view(vars@) == entries_view(e0) + entries_view(block_vars@).subrange(0, k as int),
                decreases block_vars@.len() - k,
            {
                let pair = (block_vars[k].0.clone(), block_vars[k].1.clone());
                let ghost before = vars@;
                vars.push(pair);
                assert(entries_view(vars@) =~= entries_view(before).push((pair.0@, pair.1@)));
                assert(entries_view(block_vars@).subrange(0, k + 1) =~= entries_view(block_vars@).subrange(0, k as int).push((pair.0@, pair.1@)));
                k = k + 1;
            }
            assert(entries_view(block_vars@).subrange(0, k as int) =~= entries_view(block_vars@));
            assert(entries_view(vars@) + rest.1 =~= entries_view(e0) + here.1);
        } else {
            assert(entries_view(vars@) + rest.1 =~= entries_view(e0) + here.1);
        }
        i = b + 1;
    }
    assert(rules_view(rules@) =~= rules_view(rules@) + rules_from(v, tail@, i as int).0);
    assert(entries_view(vars@) =~= entries_view(vars@) + rules_from(v, tail@, i as int).1);
    (rules, CssVariables { entries: vars })
}

// ---------------------------------------------------------------------------
// The rules of a style sheet, ready for matching
// ---------------------------------------------------------------------------

/// Whether `scraper` reads `text` as a selector list.
pub uninterp spec fn selector_accepts(text: Seq<char>) -> bool;

/// Tries `scraper::Selector::parse` on `text` and tells whether it succeeded. The contract
/// names the answer: a function of the text alone.
#[verifier::external_body]
fn selector_parses(text: &str) -> (r: bool)
    ensures
        r == selector_accepts(text@),
{
    scraper::Selector::parse(text).is_ok()
}

/// A rule whose selector `scraper` reads: the selector text without its pseudo-element, the
/// pseudo-element, the declarations and the selector's specificity.
#[derive(Clone, Debug)]
pub struct RuleEntry {
    pub selector_text: String,
    pub pseudo: Option<PseudoElement>,
    pub declarations: Vec<Declaration>,
    pub specificity: u32,
}

/// Why a style sheet could not be made ready.
#[derive(Clone, Copy, Debug, PartialEq, Eq)]
pub enum SheetError {
    /// A selector's specificity does not fit in a `u32`.
    SpecificityOverflow,
    /// A `var()` substitution took more steps than allowed.
    UnfinishedSubstitution,
}

/// A rule entry by its characters.
pub open spec fn entry_view(e: RuleEntry) -> (
    Seq<char>,
    Option<PseudoElement>,
    Seq<(Seq<char>, Seq<char>, bool)>,
    int,
) {
    (e.selector_text@, e.pseudo, decls_view(e.declarations@), e.specificity as int)
}

/// Rule entries by their characters.
pub open spec fn entry_views(s: Seq<RuleEntry>) -> Seq<
    (Seq<char>, Option<PseudoElement>, Seq<(Seq<char>, Seq<char>, bool)>, int),
> {
    s.map_values(|e: RuleEntry| entry_view(e))
}

/// The rules whose selector, its pseudo-element split off, `scraper` reads, each with that
/// selector text, the pseudo-element, its declarations and the selector's specificity.
pub open spec fn accepted_rules(rules: Seq<(Seq<char>, Seq<(Seq<char>, Seq<char>, bool)>)>) -> Seq<
    (Seq<char>, Option<PseudoElement>, Seq<(Seq<char>, Seq<char>, bool)>, int),
>
    decreases rules.len(),
{
    if rules.len() == 0 {
        seq![]
    } else {
        let prev = accepted_rules(rules.drop_last());
        let (sel, pseudo) = pseudo_split(rules.last().0);
        if selector_accepts(sel) {
            prev.push((sel, pseudo, rules.last().1, specificity_of(sel)))
        } else {
            prev
        }
    }
}

/// Whether every specificity fits in a `u32`.
pub open spec fn specificities_fit(
    es: Seq<(Seq<char>, Option<PseudoElement>, Seq<(Seq<char>, Seq<char>, bool)>, int)>,
) -> bool {
    forall|k: int| 0 <= k < es.len() ==> (#[trigger] es[k]).3 <= u32::MAX
}

/// The declarations with `var()` substituted in their values with at most `fuel` steps along
/// a chain; `None` when one of them needs more.
pub open spec fn values_substituted(
    ds: Seq<(Seq<char>, Seq<char>, bool)>,
    vars: Seq<(Seq<char>, Seq<char>)>,
    fuel: nat,
) -> Option<Seq<(Seq<char>, Seq<char>, bool)>>
    decreases ds.len(),
{
    if ds.len() == 0 {
        Some(seq![])
    } else {
        match (values_substituted(ds.drop_last(), vars, fuel), subst(ds.last().1, vars, fuel)) {
            (Some(p), Some(v)) => Some(p.push((ds.last().0, v, ds.last().2))),
            _ => None,
        }
    }
}

/// The rule entries with `var()` substituted in all their declarations; `None` when one
/// substitution needs more than `fuel` steps.
pub open spec fn entries_substituted(
    es: Seq<(Seq<char>, Option<PseudoElement>, Seq<(Seq<char>, Seq<char>, bool)>, int)>,
    vars: Seq<(Seq<char>, Seq<char>)>,
    fuel: nat,
) -> Option<Seq<(Seq<char>, Option<PseudoElement>, Seq<(Seq<char>, Seq<char>, bool)>, int)>>
    decreases es.len(),
{
    if es.len() == 0 {
        Some(seq![])
    } else {
        let e = es.last();
        match (entries_substituted(es.drop_last(), vars, fuel), values_substituted(e.2, vars, fuel)) {
            (Some(p), Some(ds)) => Some(p.push((e.0, e.1, ds, e.3))),
            _ => None,
        }
    }
}

fn substitute_declarations(ds: &Vec<Declaration>, vars: &CssVariables, fuel: u64) -> (r: Option<
    Vec<Declaration>,
>)
    ensures
        match r {
            Some(v) => values_substituted(decls_view(ds@), vars@, fuel as nat) == Some(decls_view(v@)),
            None => values_substituted(decls_view(ds@), vars@, fuel as nat) is None,
        },
{
    let ghost dv = decls_view(ds@);
    let mut out: Vec<Declaration> = Vec::new();
    let mut k: usize = 0;
    while k < ds.len()
        invariant
            k <= ds@.len(),
            dv == decls_view(ds@),
            values_substituted(dv.subrange(0, k as int), vars@, fuel as nat) == Some(decls_view(out@)),
        decreases ds@.len() - k,
    {
        let ghost pre = dv.subrange(0, k + 1);
        assert(pre.drop_last() =~= dv.subrange(0, k as int));
        assert(pre.last() == decl_view(ds@[k as int]));
        match substitute_vars_bounded(ds[k].value.as_str(), vars, fuel) {
            Some(v) => {
                let d = Declaration {
                    property: ds[k].property.clone(),
                    value: v,
                    important: ds[k].important,
                };
                let ghost before = decls_view(out@);
                out.push(d);
                assert(decls_view(out@) =~= before.push(decl_view(d)));
            },
            None => {
                assert(values_substituted(pre, vars@, fuel as nat) is None);
                proof {
                    lemma_values_none(dv, vars@, fuel as nat, k + 1);
                }
                return None;
            },
        }
        k = k + 1;
    }
    assert(dv.subrange(0, k as int) =~= dv);
    Some(out)
}

proof fn lemma_values_none(
    ds: Seq<(Seq<char>, Seq<char>, bool)>,
    vars: Seq<(Seq<char>, Seq<char>)>,
    fuel: nat,
    k: int,
)
    requires
        0 <= k <= ds.len(),
        values_substituted(ds.subrange(0, k), vars, fuel) is None,
    ensures
        values_substituted(ds, vars, fuel) is None,
    decreases ds.len() - k,
{
    if k < ds.len() {
        let pre = ds.subrange(0, k + 1);
        assert(pre.drop_last() =~= ds.subrange(0, k));
        lemma_values_none(ds, vars, fuel, k + 1);
    } else {
        assert(ds.subrange(0, k) =~= ds);
    }
}

proof fn lemma_entries_none(
    es: Seq<(Seq<char>, Option<PseudoElement>, Seq<(Seq<char>, Seq<char>, bool)>, int)>,
    vars: Seq<(Seq<char>, Seq<char>)>,
    fuel: nat,
    k: int,
)
    requires
        0 <= k <= es.len(),
        entries_substituted(es.subrange(0, k), vars, fuel) is None,
    ensures
        entries_substituted(es, vars, fuel) is None,
    decreases es.len() - k,
{
    if k < es.len() {
        let pre = es.subrange(0, k + 1);
        assert(pre.drop_last() =~= es.subrange(0, k));
        lemma_entries_none(es, vars, fuel, k + 1);
    } else {
        assert(es.subrange(0, k) =~= es);
    }
}

/// The rules of a style sheet made ready for matching: those whose selector `scraper` reads,
/// each with its pseudo-element split off, its specificity, and the style sheet's `:root`
/// custom properties substituted into its declarations with at most `fuel` steps along a
/// chain of references. Fails when a specificity does not fit in a `u32`, else when a
/// substitution needs more steps.
pub fn flat_rules(css: &str, fuel: u64) -> (r: Result<(Vec<RuleEntry>, CssVariables), SheetError>)
    ensures
        ({
            let es = accepted_rules(sheet_rules(css@).0);
            let vars = sheet_rules(css@).1;
            match r {
                Err(SheetError::SpecificityOverflow) => !specificities_fit(es),
                Err(SheetError::UnfinishedSubstitution) => specificities_fit(es)
                    && entries_substituted(es, vars, fuel as nat) is None,
                Ok((v, cv)) => specificities_fit(es) && cv@ == vars && entries_substituted(
                    es,
                    vars,
                    fuel as nat,
                ) == Some(entry_views(v@)),
            }
        }),
{
    let (raw, vars) = parse_rules(css);
    let ghost rv = rules_view(raw@);
    let mut entries: Vec<RuleEntry> = Vec::new();
    let mut overflow = false;
    let mut k: usize = 0;
    while k < raw.len()
        invariant
            k <= raw@.len(),
            rv == rules_view(raw@),
            overflow == !specificities_fit(accepted_rules(rv.subrange(0, k as int))),
            !overflow ==> entry_views(entries@) == accepted_rules(rv.subrange(0, k as int)),
        decreases raw@.len() - k,
    {
        let ghost pre = rv.subrange(0, k + 1);
        let ghost prev = accepted_rules(rv.subrange(0, k as int));
        assert(pre.drop_last() =~= rv.subrange(0, k as int));
        assert(pre.last() == rule_view(raw@[k as int]));
        let (sel, pseudo) = split_pseudo_selector(raw[k].selector.as_str());
        if selector_parses(sel.as_str()) {
            let ghost e = (sel@, pseudo, decls_view(raw@[k as int].declarations@), specificity_of(sel@));
            assert(accepted_rules(pre) == prev.push(e));
            if specificity_fits(sel.as_str()) {
                let spec = compute_specificity(sel.as_str());
                let mut decls: Vec<Declaration> = Vec::new();
                let mut j: usize = 0;
                while j < raw[k].declarations.len()
                    invariant
                        k < raw@.len(),
                        j <= raw@[k as int].declarations@.len(),
                        decls_view(decls@) == decls_view(raw@[k as int].declarations@).subrange(0, j as int),
                    decreases raw@[k as int].declarations@.len() - j,
                {
                    let d = &raw[k].declarations[j];
                    let c = Declaration {
                        property: d.property.clone(),
                        value: d.value.clone(),
                        important: d.important,
                    };
                    let ghost before = decls_view(decls@);
                    decls.push(c);
                    assert(decl_view(c) == decls_view(raw@[k as int].declarations@)[j as int]);
                    assert(decls_view(decls@) =~= before.push(decl_view(c)));
                    assert(decls_view(decls@) =~= decls_view(raw@[k as int].declarations@).subrange(
                        0,
                        j + 1,
                    ));
                    j = j + 1;
                }
                assert(decls_view(decls@) =~= decls_view(raw@[k as int].declarations@));
                let entry = RuleEntry { selector_text: sel, pseudo, declarations: decls, specificity: spec };
                let ghost before = entry_views(entries@);
                entries.push(entry);
                proof {
                    assert(entry_view(entry) == e);
                    if !overflow {
                        assert(entry_views(entries@) =~= before.push(e));
                    }
                    let all = prev.push(e);
                    if specificities_fit(prev) {
                        assert forall|m: int| 0 <= m < all.len() implies (#[trigger] all[m]).3 <= u32::MAX by {
                            if m < prev.len() {
                                assert(all[m] == prev[m]);
                            }
                        }
                    } else {
                        let m = choose|m: int| 0 <= m < prev.len() && !((#[trigger] prev[m]).3 <= u32::MAX);
                        assert(all[m] == prev[m]);
                    }
                }
            } else {
                overflow = true;
                proof {
                    let all = prev.push(e);
                    assert(all[prev.len() as int] == e);
                }
            }
        } else {
            assert(accepted_rules(pre) == prev);
        }
        k = k + 1;
    }
    assert(rv.subrange(0, k as int) =~= rv);
    if overflow {
        return Err(SheetError::SpecificityOverflow);
    }
    let ghost es = accepted_rules(rv);
    let mut out: Vec<RuleEntry> = Vec::new();
    let mut i: usize = 0;
    while i < entries.len()
        invariant
            i <= entries@.len(),
            entry_views(entries@) == es,
            specificities_fit(es),
            es == accepted_rules(sheet_rules(css@).0),
            vars@ == sheet_rules(css@).1,
            entries_substituted(es.subrange(0, i as int), vars@, fuel as nat) == Some(
                entry_views(out@),
            ),
        decreases entries@.len() - i,
    {
        let ghost pre = es.subrange(0, i + 1);
        assert(pre.drop_last() =~= es.subrange(0, i as int));
        assert(pre.last() == entry_view(entries@[i as int]));
        match substitute_declarations(&entries[i].declarations, &vars, fuel) {
            Some(ds) => {
                let e = RuleEntry {
                    selector_text: entries[i].selector_text.clone(),
                    pseudo: entries[i].pseudo,
                    declarations: ds,
                    specificity: entries[i].specificity,
                };
                let ghost before = entry_views(out@);
                out.push(e);
                assert(entry_views(out@) =~= before.push(entry_view(e)));
            },
            None => {
                proof {
                    lemma_entries_none(es, vars@, fuel as nat, i + 1);
                }
                return Err(SheetError::UnfinishedSubstitution);
            },
        }
        i = i + 1;
    }
    assert(es.subrange(0, i as int) =~= es);
    Ok((out, vars))
}

} // verus!
