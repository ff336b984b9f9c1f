use vstd::prelude::*;
use vstd::string::StringSliceAdditionalSpecFns;

use crate::text::{
    chars_match_at, chars_of, eq_ignore_case, eq_ignore_case_vec, find, find_chars,
    find_chars_from, find_from, lemma_find_from_props, lemma_rfind_upto_props, matches_at,
    rfind, rfind_chars, split_whitespace, split_whitespace_vec, string_of, subrange_vec, trim,
    trim_vec, seqs_of, extend_vec,
};

verus! {

/// One `property: value` pair of a declaration block.
#[derive(Clone, Debug)]
pub struct Declaration {
    pub property: String,
    pub value: String,
    pub important: bool,
}

/// The generated boxes that a rule can style.
#[derive(Clone, Copy, Debug, PartialEq, Eq)]
pub enum PseudoElement {
    Before,
    After,
}

// ---------------------------------------------------------------------------
// Comments
// ---------------------------------------------------------------------------

/// `*/` as characters.
pub open spec fn comment_close() -> Seq<char> {
    seq!['*', '/']
}

/// The index just after the comment whose body starts at `j`: past the first `*/` at or
/// after `j`, or the end when the comment is not closed.
pub open spec fn comment_end(s: Seq<char>, j: int) -> int {
    match find_from(s, comment_close(), j) {
        Some(k) => k + 2,
        None => s.len() as int,
    }
}

/// The characters of `s` from `i` on, with every `/* ... */` comment removed.
pub open spec fn without_comments_from(s: Seq<char>, i: int) -> Seq<char>
    decreases s.len() - i,
{
    if i < 0 || i >= s.len() {
        Seq::empty()
    } else if s[i] == '/' && i + 1 < s.len() && s[i + 1] == '*' {
        let e = comment_end(s, i + 2);
        if e <= i || e > s.len() {
            Seq::empty()
        } else {
            without_comments_from(s, e)
        }
    } else {
        seq![s[i]] + without_comments_from(s, i + 1)
    }
}

/// What `strip_comments` gives.
pub open spec fn without_comments(s: Seq<char>) -> Seq<char> {
    without_comments_from(s, 0)
}

/// Removes `/* ... */` comments from style sheet text; a comment left open runs to the end.
pub fn strip_comments(css: &str) -> (r: String)
    ensures
        r@ == without_comments(css@),
{
    let s = chars_of(css);
    let close: [char; 2] = ['*', '/'];
    assert(close@ =~= comment_close());
    let mut out: Vec<char> = Vec::new();
    let mut i: usize = 0;
    while i < s.len()
        invariant
            i <= s@.len(),
            close@ == comment_close(),
            without_comments(s@) == out@ + without_comments_from(s@, i as int),
        decreases s@.len() - i,
    {
        if s[i] == '/' && i + 1 < s.len() && s[i + 1] == '*' {
            proof {
                lemma_find_from_props(s@, comment_close(), i + 2);
            }
            match find_chars_from(s.as_slice(), &close, i + 2) {
                Some(k) => {
                    assert(k + 2 <= s.len());
                    i = k + 2;
                },
                None => {
                    i = s.len();
                },
            }
            assert(without_comments_from(s@, i as int) =~= Seq::<char>::empty() + without_comments_from(s@, i as int));
        } else {
            let ghost old_out = out@;
            out.push(s[i]);
            assert(out@ + without_comments_from(s@, i + 1) =~= old_out + without_comments_from(
                s@,
                i as int,
            ));
            i = i + 1;
        }
    }
    assert(out@ + without_comments_from(s@, i as int) =~= out@);
    string_of(out.as_slice())
}

/// Law: text without `/*` is left as it stands by comment removal.
pub proof fn strip_comments_keeps_comment_free_text(s: Seq<char>)
    requires
        find(s, seq!['/', '*']) is None,
    ensures
        without_comments(s) == s,
{
    lemma_find_from_props(s, seq!['/', '*'], 0);
    lemma_comment_free_from(s, 0);
    assert(s.subrange(0, s.len() as int) =~= s);
}

proof fn lemma_comment_free_from(s: Seq<char>, i: int)
    requires
        0 <= i <= s.len(),
        forall|j: int| 0 <= j ==> !matches_at(s, seq!['/', '*'], j),
    ensures
        without_comments_from(s, i) == s.subrange(i, s.len() as int),
    decreases s.len() - i,
{
    if i < s.len() {
        if s[i] == '/' && i + 1 < s.len() && s[i + 1] == '*' {
            assert(s.subrange(i, i + 2) =~= seq!['/', '*']);
            assert(matches_at(s, seq!['/', '*'], i));
        }
        lemma_comment_free_from(s, i + 1);
        assert(s.subrange(i, s.len() as int) =~= seq![s[i]] + s.subrange(i + 1, s.len() as int));
    } else {
        assert(s.subrange(i, s.len() as int) =~= Seq::<char>::empty());
    }
}

// ---------------------------------------------------------------------------
// Braces
// ---------------------------------------------------------------------------

/// Scanning bytes from `i` with `depth` braces open: the index of the `}` that brings the
/// depth to zero (a `}` at depth zero counts too).
pub open spec fn brace_scan(b: Seq<u8>, i: int, depth: nat) -> Option<int>
    decreases b.len() - i,
{
    if i < 0 || i >= b.len() {
        None
    } else if b[i] == 123u8 {
        brace_scan(b, i + 1, depth + 1)
    } else if b[i] == 125u8 {
        let d: nat = if depth == 0 {
            0
        } else {
            (depth - 1) as nat
        };
        if d == 0 {
            Some(i)
        } else {
            brace_scan(b, i + 1, d)
        }
    } else {
        brace_scan(b, i + 1, depth)
    }
}

/// The byte index of the `}` that closes the block opening at byte `open`.
pub fn find_matching_brace(css: &str, open: usize) -> (r: Option<usize>)
    ensures
        opt_index(r) == brace_scan(css.spec_bytes(), open as int, 0),
{
    let bytes = css.as_bytes();
    let mut depth: usize = 0;
    let mut i = open;
    while i < bytes.len()
        invariant
            open <= i,
            depth <= i - open,
            bytes@ == css.spec_bytes(),
            brace_scan(bytes@, open as int, 0) == brace_scan(bytes@, i as int, depth as nat),
        decreases bytes@.len() - i,
    {
        let b = bytes[i];
        if b == 123u8 {
            depth = depth + 1;
        } else if b == 125u8 {
            if depth > 0 {
                depth = depth - 1;
            }
            if depth == 0 {
                return Some(i);
            }
        }
        i = i + 1;
    }
    None
}

/// An index, as an integer.
pub open spec fn opt_index(o: Option<usize>) -> Option<int> {
    match o {
        Some(k) => Some(k as int),
        None => None,
    }
}

// ---------------------------------------------------------------------------
// !important
// ---------------------------------------------------------------------------

/// What `strip_important` gives: the trimmed value, without a final `!important` (in any
/// ASCII case, white space allowed around it), and whether it had one.
pub open spec fn importance_split(value: Seq<char>) -> (Seq<char>, bool) {
    let t = trim(value);
    match rfind(t, seq!['!']) {
        Some(idx) => if eq_ignore_case(trim(t.subrange(idx, t.len() as int)), "!important"@) {
            (trim(t.subrange(0, idx)), true)
        } else {
            (t, false)
        },
        None => (t, false),
    }
}

/// Splits a trailing `!important` off a declaration value.
pub fn strip_important(value: &str) -> (r: (String, bool))
    ensures
        (r.0@, r.1) == importance_split(value@),
{
    let chars = chars_of(value);
    let t = trim_vec(chars.as_slice());
    let bang: [char; 1] = ['!'];
    assert(bang@ =~= seq!['!']);
    match rfind_chars(t.as_slice(), &bang) {
        Some(idx) => {
            proof {
                lemma_rfind_upto_props(t@, seq!['!'], t@.len() - 1);
            }
            assert(idx < t.len());
            let after = subrange_vec(t.as_slice(), idx, t.len());
            let after_t = trim_vec(after.as_slice());
            let imp = chars_of("!important");
            if eq_ignore_case_vec(after_t.as_slice(), imp.as_slice()) {
                let before = subrange_vec(t.as_slice(), 0, idx);
                let before_t = trim_vec(before.as_slice());
                return (string_of(before_t.as_slice()), true);
            }
            (string_of(t.as_slice()), false)
        },
        None => (string_of(t.as_slice()), false),
    }
}

// ---------------------------------------------------------------------------
// Pseudo-elements and specificity
// ---------------------------------------------------------------------------

/// What `split_pseudo_selector` gives: for the first of `::before`, `::after`, `:before`,
/// `:after` that occurs, the trimmed text before it (`*` when empty) and the pseudo-element;
/// else the trimmed selector.
pub open spec fn pseudo_split(sel: Seq<char>) -> (Seq<char>, Option<PseudoElement>) {
    if find(sel, "::before"@) is Some {
        (base_or_star(trim(sel.subrange(0, find(sel, "::before"@).unwrap()))), Some(PseudoElement::Before))
    } else if find(sel, "::after"@) is Some {
        (base_or_star(trim(sel.subrange(0, find(sel, "::after"@).unwrap()))), Some(PseudoElement::After))
    } else if find(sel, ":before"@) is Some {
        (base_or_star(trim(sel.subrange(0, find(sel, ":before"@).unwrap()))), Some(PseudoElement::Before))
    } else if find(sel, ":after"@) is Some {
        (base_or_star(trim(sel.subrange(0, find(sel, ":after"@).unwrap()))), Some(PseudoElement::After))
    } else {
        (trim(sel), None)
    }
}

/// `*` for an empty selector.
pub open spec fn base_or_star(base: Seq<char>) -> Seq<char> {
    if base.len() == 0 {
        "*"@
    } else {
        base
    }
}

/// Splits a `::before`/`::after` pseudo-element off a selector.
pub fn split_pseudo_selector(selector_text: &str) -> (r: (String, Option<PseudoElement>))
    ensures
        (r.0@, r.1) == pseudo_split(selector_text@),
{
    let sel = chars_of(selector_text);
    let markers: [(&str, PseudoElement); 4] = [
        ("::before", PseudoElement::Before),
        ("::after", PseudoElement::After),
        (":before", PseudoElement::Before),
        (":after", PseudoElement::After),
    ];
    let mut m: usize = 0;
    while m < 4
        invariant
            m <= 4,
            sel@ == selector_text@,
            markers@ == seq![
                ("::before", PseudoElement::Before),
                ("::after", PseudoElement::After),
                (":before", PseudoElement::Before),
                (":after", PseudoElement::After),
            ],
            forall|k: int| 0 <= k < m ==> find(sel@, (#[trigger] markers@[k]).0@) is None,
        decreases 4 - m,
    {
        let (marker, pseudo) = markers[m];
        let mc = chars_of(marker);
        match find_chars(sel.as_slice(), mc.as_slice()) {
            Some(idx) => {
                proof {
                    lemma_find_from_props(sel@, mc@, 0);
                }
                let base = subrange_vec(sel.as_slice(), 0, idx);
                let base_t = trim_vec(base.as_slice());
                if base_t.len() == 0 {
                    return (crate::text::string_from_str("*"), Some(pseudo));
                }
                return (string_of(base_t.as_slice()), Some(pseudo));
            },
            None => {},
        }
        m = m + 1;
    }
    let t = trim_vec(sel.as_slice());
    (string_of(t.as_slice()), None)
}

/// How many times `c` occurs in `s`.
pub open spec fn count_char(s: Seq<char>, c: char) -> nat
    decreases s.len(),
{
    if s.len() == 0 {
        0
    } else {
        count_char(s.drop_last(), c) + if s.last() == c {
            1nat
        } else {
            0nat
        }
    }
}

/// Whether a compound selector names an element type: it does not begin with `#`, `.` or
/// `[`, is not `*`, and holds no `:`.
pub open spec fn names_type(p: Seq<char>) -> bool {
    &&& p.len() > 0
    &&& p[0] != '#'
    &&& p[0] != '.'
    &&& p[0] != '['
    &&& p != "*"@
    &&& count_char(p, ':') == 0
}

/// The `(ids, classes, types)` counts over the compound selectors `parts`.
pub open spec fn selector_counts(parts: Seq<Seq<char>>) -> (nat, nat, nat)
    decreases parts.len(),
{
    if parts.len() == 0 {
        (0, 0, 0)
    } else {
        let (a, b, c) = selector_counts(parts.drop_last());
        let p = parts.last();
        (
            a + count_char(p, '#'),
            b + count_char(p, '.'),
            c + if names_type(p) {
                1nat
            } else {
                0nat
            },
        )
    }
}

/// What `compute_specificity` gives: `256 * ids + 16 * classes + types`, over the
/// whitespace-separated compound selectors.
pub open spec fn specificity_of(sel: Seq<char>) -> int {
    let (a, b, c) = selector_counts(split_whitespace(sel));
    (256 * a + 16 * b + c) as int
}

fn count_char_exec(s: &[char], c: char) -> (r: u64)
    ensures
        r as nat == count_char(s@, c),
{
    let mut n: u64 = 0;
    let mut i: usize = 0;
    while i < s.len()
        invariant
            i <= s@.len(),
            n <= i,
            n as nat == count_char(s@.subrange(0, i as int), c),
        decreases s@.len() - i,
    {
        assert(s@.subrange(0, i + 1).drop_last() =~= s@.subrange(0, i as int));
        if s[i] == c {
            n = n + 1;
        }
        i = i + 1;
    }
    assert(s@.subrange(0, i as int) =~= s@);
    n
}

proof fn lemma_selector_counts_mono(parts: Seq<Seq<char>>, k: int)
    requires
        0 <= k <= parts.len(),
    ensures
        selector_counts(parts.subrange(0, k)).0 <= selector_counts(parts).0,
        selector_counts(parts.subrange(0, k)).1 <= selector_counts(parts).1,
        selector_counts(parts.subrange(0, k)).2 <= selector_counts(parts).2,
    decreases parts.len(),
{
    if k < parts.len() {
        assert(parts.drop_last().subrange(0, k) =~= parts.subrange(0, k));
        lemma_selector_counts_mono(parts.drop_last(), k);
    } else {
        assert(parts.subrange(0, k) =~= parts);
    }
}

/// The specificity of a selector: `256 * ids + 16 * classes + types`.
pub fn compute_specificity(selector_text: &str) -> (r: u32)
    requires
        specificity_of(selector_text@) <= u32::MAX,
    ensures
        r as int == specificity_of(selector_text@),
{
    let sel = chars_of(selector_text);
    let parts = split_whitespace_vec(sel.as_slice());
    let ghost all = seqs_of(parts@);
    let mut ids: u64 = 0;
    let mut classes: u64 = 0;
    let mut types: u64 = 0;
    let mut i: usize = 0;
    let star = chars_of("*");
    while i < parts.len()
        invariant
            i <= parts@.len(),
            all == seqs_of(parts@),
            all == split_whitespace(selector_text@),
            star@ == "*"@,
            256 * selector_counts(all).0 + 16 * selector_counts(all).1 + selector_counts(all).2
                <= u32::MAX,
            (ids as nat, classes as nat, types as nat) == selector_counts(
                all.subrange(0, i as int),
            ),
        decreases parts@.len() - i,
    {
        proof {
            lemma_selector_counts_mono(all, i + 1);
            assert(all.subrange(0, i + 1).drop_last() =~= all.subrange(0, i as int));
        }
        let p = &parts[i];
        assert(all[i as int] == p@);
        let h = count_char_exec(p.as_slice(), '#');
        let d = count_char_exec(p.as_slice(), '.');
        ids = ids + h;
        classes = classes + d;
        if p.len() > 0 && p[0] != '#' && p[0] != '.' && p[0] != '[' {
            let is_star = p.len() == 1 && p[0] == '*';
            assert(is_star == (p@ == "*"@)) by {
                reveal_strlit("*");
                if p@ == "*"@ {
                    assert(p@[0] == '*');
                }
                if is_star {
                    assert(p@ =~= "*"@);
                }
            }
            if !is_star && count_char_exec(p.as_slice(), ':') == 0 {
                types = types + 1;
            }
        }
        i = i + 1;
    }
    assert(all.subrange(0, i as int) =~= all);
    (ids * 256 + classes * 16 + types) as u32
}

} // verus!

verus! {

// ---------------------------------------------------------------------------
// Custom properties
// ---------------------------------------------------------------------------

/// The custom properties of a style sheet (`--name: value` in `:root`), in the order they
/// were declared; a later declaration of a name overrides an earlier one.
#[derive(Clone, Debug)]
pub struct CssVariables {
    pub entries: Vec<(String, String)>,
}

/// The entries of a variable table, by their characters.
pub open spec fn entries_view(e: Seq<(String, String)>) -> Seq<(Seq<char>, Seq<char>)> {
    e.map_values(|p: (String, String)| (p.0@, p.1@))
}

impl View for CssVariables {
    type V = Seq<(Seq<char>, Seq<char>)>;

    open spec fn view(&self) -> Seq<(Seq<char>, Seq<char>)> {
        entries_view(self.entries@)
    }
}

/// The value of the last entry of `vars[..n]` named `name`.
pub open spec fn lookup_upto(vars: Seq<(Seq<char>, Seq<char>)>, name: Seq<char>, n: int) -> Option<
    Seq<char>,
>
    decreases n,
{
    if n <= 0 || n > vars.len() {
        None
    } else if vars[n - 1].0 == name {
        Some(vars[n - 1].1)
    } else {
        lookup_upto(vars, name, n - 1)
    }
}

/// The value that `name` has in `vars`: that of its last declaration.
pub open spec fn lookup(vars: Seq<(Seq<char>, Seq<char>)>, name: Seq<char>) -> Option<Seq<char>> {
    lookup_upto(vars, name, vars.len() as int)
}

impl CssVariables {
    /// A table without variables.
    pub fn new() -> (r: CssVariables)
        ensures
            r@ == Seq::<(Seq<char>, Seq<char>)>::empty(),
    {
        let r = CssVariables { entries: Vec::new() };
        assert(r@ =~= Seq::<(Seq<char>, Seq<char>)>::empty());
        r
    }

    /// Declares `name` with `value`, overriding an earlier declaration.
    pub fn insert(&mut self, name: String, value: String)
        ensures
            final(self)@ == old(self)@.push((name@, value@)),
    {
        let ghost before = self@;
        self.entries.push((name, value));
        assert(self@ =~= before.push((name@, value@)));
    }

    /// The value declared last for `name`.
    pub fn get(&self, name: &str) -> (r: Option<String>)
        ensures
            match r {
                Some(v) => lookup(self@, name@) == Some(v@),
                None => lookup(self@, name@) is None,
            },
    {
        match self.get_chars(name) {
            Some(v) => Some(string_of(v.as_slice())),
            None => None,
        }
    }

    fn get_chars(&self, name: &str) -> (r: Option<Vec<char>>)
        ensures
            match r {
                Some(v) => lookup(self@, name@) == Some(v@),
                None => lookup(self@, name@) is None,
            },
    {
        let target = chars_of(name);
        let mut n = self.entries.len();
        while n > 0
            invariant
                n <= self.entries@.len(),
                target@ == name@,
                lookup(self@, name@) == lookup_upto(self@, name@, n as int),
            decreases n,
        {
            let entry = &self.entries[n - 1];
            assert(self@[n - 1] == (entry.0@, entry.1@));
            let key = chars_of(entry.0.as_str());
            if key.len() == target.len() && chars_match_at(key.as_slice(), target.as_slice(), 0) {
                assert(key@ =~= target@) by {
                    assert(key@.subrange(0, target@.len() as int) =~= key@);
                }
                let v = chars_of(entry.1.as_str());
                return Some(v);
            } else {
                assert(key@ != target@) by {
                    if key@ == target@ {
                        assert(key@.subrange(0, target@.len() as int) =~= target@);
                    }
                }
            }
            n = n - 1;
        }
        None
    }
}

/// Law: after declaring `name` with `value`, looking `name` up gives `value`, and every other
/// name keeps its value.
pub proof fn variables_read_after_write(
    vars: Seq<(Seq<char>, Seq<char>)>,
    name: Seq<char>,
    value: Seq<char>,
    other: Seq<char>,
)
    ensures
        lookup(vars.push((name, value)), name) == Some(value),
        other != name ==> lookup(vars.push((name, value)), other) == lookup(vars, other),
{
    let v2 = vars.push((name, value));
    assert(v2[v2.len() - 1] == (name, value));
    if other != name {
        lemma_lookup_prefix(v2, other, vars.len() as int);
        assert(v2.subrange(0, vars.len() as int) =~= vars);
        lemma_lookup_same(vars, v2, other, vars.len() as int);
    }
}

proof fn lemma_lookup_prefix(v: Seq<(Seq<char>, Seq<char>)>, name: Seq<char>, n: int)
    requires
        0 <= n <= v.len(),
        forall|k: int| n <= k < v.len() ==> v[k].0 != name,
    ensures
        lookup(v, name) == lookup_upto(v, name, n),
    decreases v.len() - n,
{
    if n < v.len() {
        lemma_lookup_prefix(v, name, n + 1);
    }
}

proof fn lemma_lookup_same(
    a: Seq<(Seq<char>, Seq<char>)>,
    b: Seq<(Seq<char>, Seq<char>)>,
    name: Seq<char>,
    n: int,
)
    requires
        0 <= n <= a.len(),
        n <= b.len(),
        forall|k: int| 0 <= k < n ==> a[k] == b[k],
    ensures
        lookup_upto(a, name, n) == lookup_upto(b, name, n),
    decreases n,
{
    if n > 0 {
        lemma_lookup_same(a, b, name, n - 1);
    }
}

} // verus!

verus! {

/// Scanning from `i` with `depth` parentheses open: the index of the `)` that closes them all.
pub open spec fn paren_close(s: Seq<char>, i: int, depth: int) -> Option<int>
    decreases s.len() - i,
{
    if i < 0 || i >= s.len() {
        None
    } else if s[i] == '(' {
        paren_close(s, i + 1, depth + 1)
    } else if s[i] == ')' {
        if depth - 1 == 0 {
            Some(i)
        } else {
            paren_close(s, i + 1, depth - 1)
        }
    } else {
        paren_close(s, i + 1, depth)
    }
}

pub proof fn lemma_paren_close(s: Seq<char>, i: int, depth: int)
    requires
        0 <= i,
    ensures
        paren_close(s, i, depth) matches Some(e) ==> i <= e < s.len() && s[e] == ')',
    decreases s.len() - i,
{
    if i < s.len() {
        lemma_paren_close(s, i + 1, depth + 1);
        lemma_paren_close(s, i + 1, depth - 1);
        lemma_paren_close(s, i + 1, depth);
    }
}

/// The name and fallback of the arguments of `var(...)`: split at the first comma, trimmed.
pub open spec fn var_args(inner: Seq<char>) -> (Seq<char>, Seq<char>) {
    match find(inner, seq![',']) {
        Some(c) => (trim(inner.subrange(0, c)), trim(inner.subrange(c + 1, inner.len() as int))),
        None => (trim(inner), Seq::empty()),
    }
}

/// Substituting `var(...)` references in `value`, with at most `fuel` steps along any chain of
/// substitutions; `None` when the fuel runs out. The first reference is replaced by the
/// (substituted) value of its name, or by its fallback when the name is not declared, and the
/// result is substituted again; an unclosed reference ends the substitution.
pub open spec fn subst(value: Seq<char>, vars: Seq<(Seq<char>, Seq<char>)>, fuel: nat) -> Option<
    Seq<char>,
>
    decreases fuel,
{
    if fuel == 0 {
        None
    } else {
        match find(value, "var("@) {
            None => Some(value),
            Some(start) => match paren_close(value, start + 4, 1) {
                None => Some(value),
                Some(e) => {
                    let (name, fallback) = var_args(value.subrange(start + 4, e));
                    let resolved = match lookup(vars, name) {
                        Some(v) => subst(v, vars, (fuel - 1) as nat),
                        None => Some(fallback),
                    };
                    match resolved {
                        None => None,
                        Some(r) => subst(
                            value.subrange(0, start) + r + value.subrange(e + 1, value.len() as int),
                            vars,
                            (fuel - 1) as nat,
                        ),
                    }
                },
            },
        }
    }
}

/// Whether substituting the references of `value` comes to an end.
pub open spec fn substitution_ends(value: Seq<char>, vars: Seq<(Seq<char>, Seq<char>)>) -> bool {
    exists|f: nat| subst(value, vars, f) is Some
}

/// What `substitute_vars` gives, when the substitution comes to an end.
pub open spec fn substituted(value: Seq<char>, vars: Seq<(Seq<char>, Seq<char>)>) -> Seq<char> {
    subst(value, vars, choose|f: nat| subst(value, vars, f) is Some).unwrap()
}

/// More fuel gives the same substitution.
pub proof fn lemma_subst_fuel(
    value: Seq<char>,
    vars: Seq<(Seq<char>, Seq<char>)>,
    f1: nat,
    f2: nat,
)
    requires
        f1 <= f2,
        subst(value, vars, f1) is Some,
    ensures
        subst(value, vars, f2) == subst(value, vars, f1),
    decreases f1,
{
    match find(value, "var("@) {
        None => {},
        Some(start) => match paren_close(value, start + 4, 1) {
            None => {},
            Some(e) => {
                let (name, fallback) = var_args(value.subrange(start + 4, e));
                match lookup(vars, name) {
                    Some(v) => {
                        lemma_subst_fuel(v, vars, (f1 - 1) as nat, (f2 - 1) as nat);
                    },
                    None => {},
                }
                let resolved = match lookup(vars, name) {
                    Some(v) => subst(v, vars, (f1 - 1) as nat),
                    None => Some(fallback),
                };
                match resolved {
                    None => {},
                    Some(r) => {
                        lemma_subst_fuel(
                            value.subrange(0, start) + r + value.subrange(
                                e + 1,
                                value.len() as int,
                            ),
                            vars,
                            (f1 - 1) as nat,
                            (f2 - 1) as nat,
                        );
                    },
                }
            },
        },
    }
}

/// Law: a value without `var(` comes out of substitution as it went in.
pub proof fn substitution_keeps_reference_free_text(
    value: Seq<char>,
    vars: Seq<(Seq<char>, Seq<char>)>,
)
    requires
        find(value, "var("@) is None,
    ensures
        substitution_ends(value, vars),
        substituted(value, vars) == value,
{
    assert(subst(value, vars, 1) is Some);
    let f = choose|f: nat| subst(value, vars, f) is Some;
    assert(subst(value, vars, f) is Some);
    assert(f > 0);
}

/// Text in which substitution finds nothing more to do: no `var(`, or none whose
/// parentheses close.
pub open spec fn settled(r: Seq<char>) -> bool {
    match find(r, "var("@) {
        None => true,
        Some(start) => paren_close(r, start + 4, 1) is None,
    }
}

/// Law: what a substitution that ends gives is settled: it holds no `var(...)` reference
/// left to resolve.
pub proof fn substitution_result_is_settled(
    value: Seq<char>,
    vars: Seq<(Seq<char>, Seq<char>)>,
    fuel: nat,
)
    requires
        subst(value, vars, fuel) is Some,
    ensures
        settled(subst(value, vars, fuel).unwrap()),
    decreases fuel,
{
    match find(value, "var("@) {
        None => {},
        Some(start) => match paren_close(value, start + 4, 1) {
            None => {},
            Some(e) => {
                let (name, fallback) = var_args(value.subrange(start + 4, e));
                let resolved = match lookup(vars, name) {
                    Some(v) => subst(v, vars, (fuel - 1) as nat),
                    None => Some(fallback),
                };
                let r = resolved.unwrap();
                substitution_result_is_settled(
                    value.subrange(0, start) + r + value.subrange(e + 1, value.len() as int),
                    vars,
                    (fuel - 1) as nat,
                );
            },
        },
    }
}

/// Law: substituting again what a substitution gave changes nothing.
pub proof fn substitution_is_idempotent(value: Seq<char>, vars: Seq<(Seq<char>, Seq<char>)>)
    requires
        substitution_ends(value, vars),
    ensures
        substitution_ends(substituted(value, vars), vars),
        substituted(substituted(value, vars), vars) == substituted(value, vars),
{
    let f = choose|f: nat| subst(value, vars, f) is Some;
    let r = substituted(value, vars);
    substitution_result_is_settled(value, vars, f);
    assert(subst(r, vars, 1) == Some(r));
    let g = choose|g: nat| subst(r, vars, g) is Some;
    assert(subst(r, vars, g) is Some);
    assert(g > 0);
    assert(subst(r, vars, g) == Some(r));
}

fn var_args_exec(inner: &[char]) -> (r: (Vec<char>, Vec<char>))
    ensures
        (r.0@, r.1@) == var_args(inner@),
{
    let comma: [char; 1] = [','];
    assert(comma@ =~= seq![',']);
    match find_chars(inner, &comma) {
        Some(c) => {
            proof {
                lemma_find_from_props(inner@, seq![','], 0);
            }
            assert(c < inner.len());
            let a = subrange_vec(inner, 0, c);
            let b = subrange_vec(inner, c + 1, inner.len());
            (trim_vec(a.as_slice()), trim_vec(b.as_slice()))
        },
        None => (trim_vec(inner), Vec::new()),
    }
}

pub(crate) fn paren_close_exec(s: &[char], from: usize) -> (r: Option<usize>)
    requires
        1 <= from,
    ensures
        opt_index(r) == paren_close(s@, from as int, 1),
{
    let mut depth: usize = 1;
    let mut i = from;
    while i < s.len()
        invariant
            1 <= from <= i,
            1 <= depth <= i - from + 1,
            paren_close(s@, from as int, 1) == paren_close(s@, i as int, depth as int),
        decreases s@.len() - i,
    {
        if s[i] == '(' {
            depth = depth + 1;
        } else if s[i] == ')' {
            if depth - 1 == 0 {
                return Some(i);
            }
            depth = depth - 1;
        }
        i = i + 1;
    }
    None
}

/// One substitution pass over `value` with at most `fuel` steps; `None` when the fuel runs out.
fn subst_exec(value: Vec<char>, vars: &CssVariables, fuel: u64) -> (r: Option<Vec<char>>)
    ensures
        match r {
            Some(v) => subst(value@, vars@, fuel as nat) == Some(v@),
            None => subst(value@, vars@, fuel as nat) is None,
        },
    decreases fuel,
{
    if fuel == 0 {
        return None;
    }
    let pat = chars_of("var(");
    proof {
        reveal_strlit("var(");
    }
    let start = match find_chars(value.as_slice(), pat.as_slice()) {
        Some(k) => k,
        None => {
            return Some(value);
        },
    };
    proof {
        lemma_find_from_props(value@, pat@, 0);
    }
    assert(start + 4 <= value.len());
    let e = match paren_close_exec(value.as_slice(), start + 4) {
        Some(e) => e,
        None => {
            return Some(value);
        },
    };
    proof {
        lemma_paren_close(value@, start + 4, 1);
    }
    let inner = subrange_vec(value.as_slice(), start + 4, e);
    let (name, fallback) = var_args_exec(inner.as_slice());
    let name_text = string_of(name.as_slice());
    let resolved = match vars.get_chars(name_text.as_str()) {
        Some(v) => subst_exec(v, vars, fuel - 1),
        None => Some(fallback),
    };
    match resolved {
        None => None,
        Some(r) => {
            let mut next = subrange_vec(value.as_slice(), 0, start);
            extend_vec(&mut next, r.as_slice());
            let tail = subrange_vec(value.as_slice(), e + 1, value.len());
            extend_vec(&mut next, tail.as_slice());
            subst_exec(next, vars, fuel - 1)
        },
    }
}

/// The substitution of `value` along a chain of at most `fuel` steps, where that chain is known
/// to end within `fuel`.
fn subst_ending(value: Vec<char>, vars: &CssVariables, Ghost(fuel): Ghost<nat>) -> (r: Vec<char>)
    requires
        subst(value@, vars@, fuel) is Some,
    ensures
        subst(value@, vars@, fuel) == Some(r@),
    decreases fuel,
{
    let pat = chars_of("var(");
    proof {
        reveal_strlit("var(");
    }
    let start = match find_chars(value.as_slice(), pat.as_slice()) {
        Some(k) => k,
        None => {
            return value;
        },
    };
    proof {
        lemma_find_from_props(value@, pat@, 0);
    }
    assert(start + 4 <= value.len());
    let e = match paren_close_exec(value.as_slice(), start + 4) {
        Some(e) => e,
        None => {
            return value;
        },
    };
    proof {
        lemma_paren_close(value@, start + 4, 1);
    }
    let inner = subrange_vec(value.as_slice(), start + 4, e);
    let (name, fallback) = var_args_exec(inner.as_slice());
    let name_text = string_of(name.as_slice());
    let resolved = match vars.get_chars(name_text.as_str()) {
        Some(v) => subst_ending(v, vars, Ghost((fuel - 1) as nat)),
        None => fallback,
    };
    let mut next = subrange_vec(value.as_slice(), 0, start);
    extend_vec(&mut next, resolved.as_slice());
    let tail = subrange_vec(value.as_slice(), e + 1, value.len());
    extend_vec(&mut next, tail.as_slice());
    subst_ending(next, vars, Ghost((fuel - 1) as nat))
}

/// Replaces each `var(--name)` or `var(--name, fallback)` in `value` by the declared value of
/// the name (itself substituted), or by the fallback when the name is not declared. The
/// substitution must come to an end: a self-referring declaration never does.
pub fn substitute_vars(value: &str, vars: &CssVariables) -> (r: String)
    requires
        substitution_ends(value@, vars@),
    ensures
        r@ == substituted(value@, vars@),
{
    let ghost f = choose|f: nat| subst(value@, vars@, f) is Some;
    let chars = chars_of(value);
    let v = subst_ending(chars, vars, Ghost(f));
    string_of(v.as_slice())
}

/// Substitutes the `var(...)` references of `value` with at most `fuel` steps along any chain
/// of substitutions; `None` when the fuel runs out (as it does for self-referring declarations).
pub fn substitute_vars_bounded(value: &str, vars: &CssVariables, fuel: u64) -> (r: Option<String>)
    ensures
        match r {
            Some(v) => subst(value@, vars@, fuel as nat) == Some(v@),
            None => subst(value@, vars@, fuel as nat) is None,
        },
{
    let chars = chars_of(value);
    match subst_exec(chars, vars, fuel) {
        Some(v) => Some(string_of(v.as_slice())),
        None => None,
    }
}

} // verus!

verus! {

// ---------------------------------------------------------------------------
// Style elements
// ---------------------------------------------------------------------------

/// The texts among the nodes `cs` from index `i` on, one after another.
pub open spec fn child_texts(cs: Seq<crate::dom::NodeView>, i: int) -> Seq<char>
    decreases cs.len() - i,
{
    if 0 <= i < cs.len() {
        (match cs[i].kind {
            crate::dom::KindView::Text(t) => t,
            _ => seq![],
        }) + child_texts(cs, i + 1)
    } else {
        seq![]
    }
}

/// The style sheet text of the tree `v`: for each `style` element, in document order, the
/// text of its text children.
pub open spec fn style_text(v: crate::dom::NodeView) -> Seq<char>
    decreases v, 1int, 0int,
{
    (match crate::resolve::element_attrs(v, "style"@) {
        Some(_) => child_texts(v.children, 0),
        None => seq![],
    }) + style_text_from(v.children, 0)
}

pub open spec fn style_text_from(cs: Seq<crate::dom::NodeView>, i: int) -> Seq<char>
    decreases cs, 0int, cs.len() - i,
{
    if 0 <= i < cs.len() {
        style_text(cs[i]) + style_text_from(cs, i + 1)
    } else {
        seq![]
    }
}

fn push_style_text(node: &crate::dom::Node, out: &mut Vec<char>)
    ensures
        final(out)@ == old(out)@ + style_text(crate::dom::node_view(*node)),
    decreases node,
{
    let ghost v = crate::dom::node_view(*node);
    let ghost start = out@;
    proof {
        crate::dom::lemma_node_view(*node);
    }
    let ghost own: Seq<char> = match crate::resolve::element_attrs(v, "style"@) {
        Some(_) => child_texts(v.children, 0),
        None => seq![],
    };
    if crate::resolve::element_attrs_of(node, "style").is_some() {
        let mut k: usize = 0;
        while k < node.children.len()
            invariant
                v == crate::dom::node_view(*node),
                v.children == crate::dom::nodes_view(node.children@),
                k <= node.children@.len(),
                out@ + child_texts(v.children, k as int) == start + child_texts(v.children, 0),
            decreases node.children@.len() - k,
        {
            assert(v.children[k as int] == crate::dom::node_view(node.children@[k as int]));
            proof {
                crate::dom::lemma_node_view(node.children@[k as int]);
            }
            let ghost before = out@;
            match &node.children[k].kind {
                crate::dom::NodeKind::Text(t) => {
                    let tc = chars_of(t.as_str());
                    extend_vec(out, tc.as_slice());
                },
                _ => {},
            }
            assert(before + child_texts(v.children, k as int) =~= out@ + child_texts(
                v.children,
                k + 1,
            ));
            k = k + 1;
        }
        assert(out@ + child_texts(v.children, k as int) =~= out@);
    }
    assert(out@ =~= start + own);
    let mut i: usize = 0;
    while i < node.children.len()
        invariant
            v == crate::dom::node_view(*node),
            v.children == crate::dom::nodes_view(node.children@),
            i <= node.children@.len(),
            out@ + style_text_from(v.children, i as int) == start + style_text(v),
        decreases node.children@.len() - i,
    {
        let ghost before = out@;
        push_style_text(&node.children[i], out);
        assert(v.children[i as int] == crate::dom::node_view(node.children@[i as int]));
        assert(before + style_text_from(v.children, i as int) =~= out@ + style_text_from(
            v.children,
            i + 1,
        ));
        i = i + 1;
    }
    assert(out@ + style_text_from(v.children, i as int) =~= out@);
}

/// The style sheet text that the `style` elements of a document hold, in document order.
pub fn extract_style_text(html: &crate::dom::Node) -> (r: String)
    ensures
        r@ == style_text(crate::dom::node_view(*html)),
{
    let mut out: Vec<char> = Vec::new();
    push_style_text(html, &mut out);
    assert(out@ =~= style_text(crate::dom::node_view(*html)));
    string_of(out.as_slice())
}

} // verus!

verus! {

// ---------------------------------------------------------------------------
// Media blocks
// ---------------------------------------------------------------------------

/// `brace_scan` over characters.
pub open spec fn char_brace_scan(s: Seq<char>, i: int, depth: nat) -> Option<int>
    decreases s.len() - i,
{
    if i < 0 || i >= s.len() {
        None
    } else if s[i] == '{' {
        char_brace_scan(s, i + 1, depth + 1)
    } else if s[i] == '}' {
        let d: nat = if depth == 0 {
            0
        } else {
            (depth - 1) as nat
        };
        if d == 0 {
            Some(i)
        } else {
            char_brace_scan(s, i + 1, d)
        }
    } else {
        char_brace_scan(s, i + 1, depth)
    }
}

proof fn lemma_char_brace_scan(s: Seq<char>, i: int, depth: nat)
    requires
        0 <= i,
    ensures
        char_brace_scan(s, i, depth) matches Some(k) ==> i <= k < s.len(),
    decreases s.len() - i,
{
    if i < s.len() {
        lemma_char_brace_scan(s, i + 1, depth + 1);
        lemma_char_brace_scan(s, i + 1, (if depth == 0 { 0 } else { depth - 1 }) as nat);
        lemma_char_brace_scan(s, i + 1, depth);
    }
}

fn char_brace_close(s: &[char], open: usize) -> (r: Option<usize>)
    ensures
        opt_index(r) == char_brace_scan(s@, open as int, 0),
{
    let mut depth: usize = 0;
    let mut i = open;
    while i < s.len()
        invariant
            open <= i,
            depth <= i - open,
            char_brace_scan(s@, open as int, 0) == char_brace_scan(s@, i as int, depth as nat),
        decreases s@.len() - i,
    {
        let c = s[i];
        if c == '{' {
            depth = depth + 1;
        } else if c == '}' {
            if depth > 0 {
                depth = depth - 1;
            }
            if depth == 0 {
                return Some(i);
            }
        }
        i = i + 1;
    }
    None
}

/// A piece of a style sheet: plain text, or an `@media` block with its condition (trimmed)
/// and the text inside its braces.
#[derive(Debug)]
pub enum CssSegment {
    Plain(String),
    Media(String, String),
}

pub enum SegmentView {
    Plain(Seq<char>),
    Media(Seq<char>, Seq<char>),
}

pub open spec fn segment_view(s: CssSegment) -> SegmentView {
    match s {
        CssSegment::Plain(t) => SegmentView::Plain(t@),
        CssSegment::Media(c, b) => SegmentView::Media(c@, b@),
    }
}

pub open spec fn segments_view(v: Seq<CssSegment>) -> Seq<SegmentView> {
    v.map_values(|s: CssSegment| segment_view(s))
}

/// The plain text gathered so far, as a segment when there is any.
pub open spec fn plain_segment(p: Seq<char>) -> Seq<SegmentView> {
    if p.len() > 0 {
        seq![SegmentView::Plain(p)]
    } else {
        seq![]
    }
}

/// The segments of `s` from index `i` on, with `plain` the plain text gathered before `i`.
/// An `@media` whose `{` or matching `}` is missing ends the style sheet there.
pub open spec fn segments_from(s: Seq<char>, i: int, plain: Seq<char>) -> Seq<SegmentView>
    decreases s.len() - i,
{
    if i < 0 || i >= s.len() {
        plain_segment(plain)
    } else if crate::text::matches_at(s, "@media"@, i) {
        let cs = i + 6;
        match find(s.subrange(cs, s.len() as int), seq!['{']) {
            None => plain_segment(plain),
            Some(o) => {
                let open = cs + o;
                match char_brace_scan(s, open, 0) {
                    None => plain_segment(plain),
                    Some(close) => if i < open && open < close < s.len() {
                        plain_segment(plain) + seq![
                            SegmentView::Media(
                                trim(s.subrange(cs, open)),
                                s.subrange(open + 1, close),
                            ),
                        ] + segments_from(s, close + 1, seq![])
                    } else {
                        plain_segment(plain)
                    },
                }
            },
        }
    } else {
        segments_from(s, i + 1, plain.push(s[i]))
    }
}

/// The segments of a style sheet.
pub open spec fn css_segments(s: Seq<char>) -> Seq<SegmentView> {
    segments_from(s, 0, seq![])
}

fn push_plain(out: &mut Vec<CssSegment>, plain: &Vec<char>)
    ensures
        segments_view(final(out)@) == segments_view(old(out)@) + plain_segment(plain@),
{
    let ghost before = segments_view(out@);
    if plain.len() > 0 {
        out.push(CssSegment::Plain(string_of(plain.as_slice())));
        assert(segments_view(out@) =~= before + plain_segment(plain@));
    } else {
        assert(segments_view(out@) =~= before + plain_segment(plain@));
    }
}

/// Splits a style sheet into plain text and `@media` blocks, outermost blocks only.
pub fn split_media_blocks(css: &str) -> (r: Vec<CssSegment>)
    ensures
        segments_view(r@) == css_segments(css@),
{
    let s = chars_of(css);
    let media = chars_of("@media");
    proof {
        reveal_strlit("@media");
    }
    let mut out: Vec<CssSegment> = Vec::new();
    let mut plain: Vec<char> = Vec::new();
    let mut i: usize = 0;
    assert(segments_view(out@) =~= seq![]);
    while i < s.len()
        invariant
            s@ == css@,
            media@ == "@media"@,
            media@.len() == 6,
            i <= s@.len(),
            segments_view(out@) + segments_from(s@, i as int, plain@) == css_segments(css@),
        decreases s@.len() - i,
    {
        if chars_match_at(s.as_slice(), media.as_slice(), i) {
            let cs = i + 6;
            let rest = subrange_vec(s.as_slice(), cs, s.len());
            let brace: [char; 1] = ['{'];
            assert(brace@ =~= seq!['{']);
            let o = match find_chars(rest.as_slice(), &brace) {
                Some(o) => o,
                None => {
                    push_plain(&mut out, &plain);
                    return out;
                },
            };
            proof {
                lemma_find_from_props(rest@, seq!['{'], 0);
            }
            let open = cs + o;
            let close = match char_brace_close(s.as_slice(), open) {
                Some(c) => c,
                None => {
                    push_plain(&mut out, &plain);
                    return out;
                },
            };
            proof {
                assert(s@.subrange(cs as int, s@.len() as int) == rest@);
                assert(rest@.subrange(o as int, o + 1) == seq!['{']);
                assert(rest@[o as int] == '{');
                assert(s@[open as int] == rest@[o as int]);
                lemma_char_brace_scan(s@, open + 1, 1);
            }
            assert(open < close);
            let ghost old_plain = plain@;
            let ghost before = segments_view(out@);
            push_plain(&mut out, &plain);
            let cond = subrange_vec(s.as_slice(), cs, open);
            let cond = trim_vec(cond.as_slice());
            let body = subrange_vec(s.as_slice(), open + 1, close);
            let ghost mid = segments_view(out@);
            out.push(CssSegment::Media(string_of(cond.as_slice()), string_of(body.as_slice())));
            assert(segments_view(out@) =~= mid.push(SegmentView::Media(cond@, body@)));
            plain = Vec::new();
            assert(plain@ =~= Seq::<char>::empty());
            assert(segments_from(s@, i as int, old_plain) == plain_segment(old_plain) + seq![
                SegmentView::Media(cond@, body@),
            ] + segments_from(s@, close + 1, seq![]));
            assert(before + segments_from(s@, i as int, old_plain) =~= segments_view(out@)
                + segments_from(s@, close + 1, plain@));
            i = close + 1;
        } else {
            plain.push(s[i]);
            i = i + 1;
        }
    }
    push_plain(&mut out, &plain);
    out
}

} // verus!

verus! {

// ---------------------------------------------------------------------------
// Media conditions
// ---------------------------------------------------------------------------

/// Each of `ps`, trimmed.
pub open spec fn trimmed_all(ps: Seq<Seq<char>>) -> Seq<Seq<char>> {
    ps.map_values(|p: Seq<char>| trim(p))
}

/// The queries of a media condition: its parts between commas, trimmed.
pub open spec fn media_queries(cond: Seq<char>) -> Seq<Seq<char>> {
    trimmed_all(crate::text::split(cond, ','))
}

pub fn media_query_parts(condition: &str) -> (r: Vec<String>)
    ensures
        crate::text::strings_view(r@) == media_queries(condition@),
{
    let s = chars_of(condition);
    let parts = crate::text::split_vec(s.as_slice(), ',');
    let ghost ps = crate::text::seqs_of(parts@);
    let mut out: Vec<String> = Vec::new();
    let mut k: usize = 0;
    while k < parts.len()
        invariant
            ps == crate::text::seqs_of(parts@),
            ps == crate::text::split(condition@, ','),
            k <= parts@.len(),
            crate::text::strings_view(out@) == trimmed_all(ps.take(k as int)),
        decreases parts@.len() - k,
    {
        let t = trim_vec(parts[k].as_slice());
        assert(ps[k as int] == parts@[k as int]@);
        let ghost before = crate::text::strings_view(out@);
        out.push(string_of(t.as_slice()));
        assert(crate::text::strings_view(out@) =~= before.push(t@));
        assert(t@ == trim(ps[k as int]));
        assert(trimmed_all(ps.take(k + 1)) =~= trimmed_all(ps.take(k as int)).push(trim(ps[k as int])));
        k = k + 1;
    }
    assert(ps.take(k as int) =~= ps);
    out
}

/// The `name: value` feature inside one `(`-started piece of a media query: the text up to
/// its `)`, split at the first `:`, both sides trimmed.
pub open spec fn media_feature(clause: Seq<char>) -> Seq<(Seq<char>, Seq<char>)> {
    match find(clause, seq![')']) {
        None => seq![],
        Some(end) => {
            let expr = trim(clause.subrange(0, end));
            match find(expr, seq![':']) {
                None => seq![],
                Some(c) => seq![(trim(expr.subrange(0, c)), trim(expr.subrange(c + 1, expr.len() as int)))],
            }
        },
    }
}

/// The features of the pieces `parts` from index `i` on.
pub open spec fn media_features_from(parts: Seq<Seq<char>>, i: int) -> Seq<(Seq<char>, Seq<char>)>
    decreases parts.len() - i,
{
    if 0 <= i < parts.len() {
        media_feature(parts[i]) + media_features_from(parts, i + 1)
    } else {
        seq![]
    }
}

/// What a single media query asks, lower-cased: `None` when it can never hold here (it holds
/// `not ` or `print`, or names none of `screen`, `all`, `width`); else the `name: value`
/// features that follow its `(`s.
pub open spec fn media_query_features(query: Seq<char>) -> Option<Seq<(Seq<char>, Seq<char>)>> {
    let lower = crate::text::ascii_lower_seq(query);
    if find(lower, "not "@) is Some || find(lower, "print"@) is Some {
        None
    } else if find(lower, "screen"@) is Some || find(lower, "all"@) is Some || find(lower, "width"@) is Some {
        Some(media_features_from(crate::text::split(lower, '('), 1))
    } else {
        None
    }
}

pub open spec fn pairs_of(v: Seq<(String, String)>) -> Seq<(Seq<char>, Seq<char>)> {
    v.map_values(|a: (String, String)| (a.0@, a.1@))
}

fn contains_word(s: &[char], w: &str) -> (r: bool)
    ensures
        r == (find(s@, w@) is Some),
{
    let wc = chars_of(w);
    find_chars(s, wc.as_slice()).is_some()
}

fn push_media_feature(out: &mut Vec<(String, String)>, clause: &[char])
    ensures
        pairs_of(final(out)@) == pairs_of(old(out)@) + media_feature(clause@),
{
    let ghost before = pairs_of(out@);
    let close: [char; 1] = [')'];
    assert(close@ =~= seq![')']);
    let end = match find_chars(clause, &close) {
        Some(e) => e,
        None => {
            assert(pairs_of(out@) =~= before + media_feature(clause@));
            return;
        },
    };
    proof {
        lemma_find_from_props(clause@, seq![')'], 0);
    }
    let expr = subrange_vec(clause, 0, end);
    let expr = trim_vec(expr.as_slice());
    let colon: [char; 1] = [':'];
    assert(colon@ =~= seq![':']);
    match find_chars(expr.as_slice(), &colon) {
        Some(c) => {
            proof {
                lemma_find_from_props(expr@, seq![':'], 0);
            }
            assert(c < expr.len());
            let name = trim_vec(subrange_vec(expr.as_slice(), 0, c).as_slice());
            let value = trim_vec(subrange_vec(expr.as_slice(), c + 1, expr.len()).as_slice());
            out.push((string_of(name.as_slice()), string_of(value.as_slice())));
            assert(pairs_of(out@) =~= before + media_feature(clause@));
        },
        None => {
            assert(pairs_of(out@) =~= before + media_feature(clause@));
        },
    }
}

/// What a single media query asks: `None` when it can never hold here; else the
/// `name: value` features that it tests.
pub fn media_query_width_features(query: &str) -> (r: Option<Vec<(String, String)>>)
    ensures
        match r {
            Some(v) => media_query_features(query@) == Some(pairs_of(v@)),
            None => media_query_features(query@) is None,
        },
{
    let s = chars_of(query);
    let lower = crate::text::ascii_lower_vec(s.as_slice());
    let l = lower.as_slice();
    if contains_word(l, "not ") || contains_word(l, "print") {
        return None;
    }
    if !(contains_word(l, "screen") || contains_word(l, "all") || contains_word(l, "width")) {
        return None;
    }
    let parts = crate::text::split_vec(l, '(');
    let ghost ps = crate::text::seqs_of(parts@);
    let mut out: Vec<(String, String)> = Vec::new();
    let mut k: usize = 1;
    assert(pairs_of(out@) =~= seq![]);
    while k < parts.len()
        invariant
            ps == crate::text::seqs_of(parts@),
            1 <= k,
            k <= parts@.len() || parts@.len() == 0,
            pairs_of(out@) + media_features_from(ps, k as int) == media_features_from(ps, 1),
        decreases parts@.len() - k,
    {
        assert(ps[k as int] == parts@[k as int]@);
        let ghost before = pairs_of(out@);
        push_media_feature(&mut out, parts[k].as_slice());
        assert(before + media_features_from(ps, k as int) =~= pairs_of(out@) + media_features_from(ps, k + 1));
        k = k + 1;
    }
    assert(pairs_of(out@) + media_features_from(ps, k as int) =~= pairs_of(out@));
    Some(out)
}

} // verus!

verus! {

// ---------------------------------------------------------------------------
// Precedence of matched declarations
// ---------------------------------------------------------------------------

/// The precedence of a matched declaration: `!important` ones above all others, then by the
/// specificity of the selector that matched.
pub open spec fn precedence(d: (Declaration, u32)) -> int {
    (if d.0.important {
        1int
    } else {
        0int
    }) * 0x1_0000_0000 + d.1
}

/// The first index from `j` on whose declaration has a higher precedence than `p`, or the
/// length.
pub open spec fn insert_pos_from(r: Seq<(Declaration, u32)>, p: int, j: int) -> int
    decreases r.len() - j,
{
    if j < 0 || j >= r.len() {
        r.len() as int
    } else if precedence(r[j]) > p {
        j
    } else {
        insert_pos_from(r, p, j + 1)
    }
}

/// The matched declarations in order of precedence, those of equal precedence in the order
/// in which they came: each declaration is placed after all the ones before it of lower or
/// equal precedence.
pub open spec fn by_precedence(s: Seq<(Declaration, u32)>) -> Seq<(Declaration, u32)>
    decreases s.len(),
{
    if s.len() == 0 {
        seq![]
    } else {
        let r = by_precedence(s.drop_last());
        r.insert(insert_pos_from(r, precedence(s.last()), 0), s.last())
    }
}

proof fn lemma_insert_pos(r: Seq<(Declaration, u32)>, p: int, j: int)
    requires
        0 <= j <= r.len(),
    ensures
        j <= insert_pos_from(r, p, j) <= r.len(),
        forall|k: int| j <= k < insert_pos_from(r, p, j) ==> precedence(#[trigger] r[k]) <= p,
        insert_pos_from(r, p, j) < r.len() ==> precedence(r[insert_pos_from(r, p, j)]) > p,
    decreases r.len() - j,
{
    if j < r.len() && precedence(r[j]) <= p {
        lemma_insert_pos(r, p, j + 1);
    }
}

fn precedence_of(d: &(Declaration, u32)) -> (r: u64)
    ensures
        r as int == precedence(*d),
{
    let hi: u64 = if d.0.important {
        0x1_0000_0000
    } else {
        0
    };
    hi + d.1 as u64
}

/// Orders matched declarations by precedence, keeping the order of those of equal
/// precedence.
pub fn sort_by_precedence(decls: Vec<(Declaration, u32)>) -> (r: Vec<(Declaration, u32)>)
    ensures
        r@ == by_precedence(decls@),
{
    let ghost s = decls@;
    let n = decls.len();
    assert(s.len() == n);
    let mut input = decls;
    let mut out: Vec<(Declaration, u32)> = Vec::new();
    let mut k: usize = 0;
    assert(s.take(0) =~= Seq::<(Declaration, u32)>::empty());
    assert(input@ =~= s.subrange(0, s.len() as int));
    while input.len() > 0
        invariant
            k <= s.len(),
            s.len() <= usize::MAX,
            input@ == s.subrange(k as int, s.len() as int),
            out@ == by_precedence(s.take(k as int)),
        decreases input@.len(),
    {
        let x = input.remove(0);
        assert(x == s[k as int]);
        assert(input@ =~= s.subrange(k + 1, s.len() as int));
        let p = precedence_of(&x);
        let mut j: usize = 0;
        while j < out.len() && precedence_of(&out[j]) <= p
            invariant
                j <= out@.len(),
                p as int == precedence(x),
                insert_pos_from(out@, p as int, 0) == insert_pos_from(out@, p as int, j as int),
            decreases out@.len() - j,
        {
            j = j + 1;
        }
        proof {
            assert(s.take(k + 1).drop_last() =~= s.take(k as int));
            assert(s.take(k + 1).last() == x);
        }
        out.insert(j, x);
        k = k + 1;
    }
    assert(s.take(k as int) =~= s);
    out
}

/// Law: declarations ordered by precedence come in nondecreasing precedence.
pub proof fn by_precedence_is_sorted(s: Seq<(Declaration, u32)>)
    ensures
        forall|i: int, j: int|
            0 <= i <= j < by_precedence(s).len() ==> precedence(#[trigger] by_precedence(s)[i])
                <= precedence(#[trigger] by_precedence(s)[j]),
    decreases s.len(),
{
    if s.len() > 0 {
        by_precedence_is_sorted(s.drop_last());
        let r = by_precedence(s.drop_last());
        let p = precedence(s.last());
        lemma_insert_pos(r, p, 0);
        let q = insert_pos_from(r, p, 0);
        let t = r.insert(q, s.last());
        assert forall|i: int, j: int| 0 <= i <= j < t.len() implies precedence(#[trigger] t[i])
            <= precedence(#[trigger] t[j]) by {
            if i < q && j < q {
                assert(t[i] == r[i] && t[j] == r[j]);
            } else if i < q && j == q {
                assert(t[i] == r[i]);
            } else if i < q {
                assert(t[i] == r[i] && t[j] == r[j - 1]);
            } else if i == q && j == q {
            } else if i == q {
                assert(t[j] == r[j - 1]);
                assert(precedence(r[q]) > p);
                assert(precedence(r[q]) <= precedence(r[j - 1]));
            } else {
                assert(t[i] == r[i - 1] && t[j] == r[j - 1]);
            }
        }
    }
}

/// Law: ordering by precedence keeps every declaration, each as many times as it came.
pub proof fn by_precedence_is_permutation(s: Seq<(Declaration, u32)>)
    ensures
        by_precedence(s).to_multiset() == s.to_multiset(),
    decreases s.len(),
{
    if s.len() > 0 {
        by_precedence_is_permutation(s.drop_last());
        let r = by_precedence(s.drop_last());
        let p = precedence(s.last());
        lemma_insert_pos(r, p, 0);
        let q = insert_pos_from(r, p, 0);
        vstd::seq_lib::to_multiset_insert(r, q, s.last());
        vstd::seq_lib::to_multiset_build(s.drop_last(), s.last());
        assert(s.drop_last().push(s.last()) =~= s);
        assert(by_precedence(s) == r.insert(q, s.last()));
        assert(by_precedence(s).to_multiset() == r.to_multiset().insert(s.last()));
        assert(s.to_multiset() == s.drop_last().to_multiset().insert(s.last()));
    } else {
        assert(by_precedence(s) =~= s);
    }
}

} // verus!

verus! {

/// Whether a declaration has precedence `p`.
pub open spec fn has_precedence(p: int) -> spec_fn((Declaration, u32)) -> bool {
    |d: (Declaration, u32)| precedence(d) == p
}

/// The declarations of `s` whose precedence is `p`, in order.
pub open spec fn with_precedence(s: Seq<(Declaration, u32)>, p: int) -> Seq<(Declaration, u32)> {
    s.filter(has_precedence(p))
}

proof fn lemma_with_precedence_none(s: Seq<(Declaration, u32)>, p: int)
    requires
        forall|k: int| 0 <= k < s.len() ==> precedence(#[trigger] s[k]) != p,
    ensures
        with_precedence(s, p) == Seq::<(Declaration, u32)>::empty(),
    decreases s.len(),
{
    reveal(Seq::filter);
    if s.len() > 0 {
        assert forall|k: int| 0 <= k < s.drop_last().len() implies precedence(
            #[trigger] s.drop_last()[k],
        ) != p by {
            assert(s.drop_last()[k] == s[k]);
        }
        lemma_with_precedence_none(s.drop_last(), p);
        assert(precedence(s.last()) != p);
    }
}

proof fn lemma_with_precedence_concat(a: Seq<(Declaration, u32)>, b: Seq<(Declaration, u32)>, p: int)
    ensures
        with_precedence(a + b, p) == with_precedence(a, p) + with_precedence(b, p),
{
    Seq::filter_distributes_over_add(a, b, has_precedence(p));
}

/// Law: ordering by precedence keeps the order of the declarations of equal precedence (the
/// later of two equal ones still wins).
pub proof fn by_precedence_is_stable(s: Seq<(Declaration, u32)>, p: int)
    ensures
        with_precedence(by_precedence(s), p) == with_precedence(s, p),
    decreases s.len(),
{
    if s.len() > 0 {
        by_precedence_is_stable(s.drop_last(), p);
        by_precedence_is_sorted(s.drop_last());
        let r = by_precedence(s.drop_last());
        let x = s.last();
        let px = precedence(x);
        lemma_insert_pos(r, px, 0);
        let q = insert_pos_from(r, px, 0);
        let front = r.subrange(0, q);
        let back = r.subrange(q, r.len() as int);
        assert(r =~= front + back);
        assert(r.insert(q, x) =~= front + seq![x] + back);
        assert(s =~= s.drop_last() + seq![x]);
        lemma_with_precedence_concat(front + seq![x], back, p);
        lemma_with_precedence_concat(front, seq![x], p);
        lemma_with_precedence_concat(front, back, p);
        lemma_with_precedence_concat(s.drop_last(), seq![x], p);
        if px == p {
            assert forall|k: int| 0 <= k < back.len() implies precedence(#[trigger] back[k]) != p by {
                assert(back[k] == r[q + k]);
                assert(precedence(r[q]) > px);
                assert(precedence(r[q]) <= precedence(r[q + k]));
            }
            lemma_with_precedence_none(back, p);
            assert(with_precedence(back, p) =~= Seq::<(Declaration, u32)>::empty());
        }
        reveal(Seq::filter);
        assert(seq![x].drop_last() =~= Seq::<(Declaration, u32)>::empty());
        assert(with_precedence(Seq::<(Declaration, u32)>::empty(), p) =~= Seq::<(Declaration, u32)>::empty());
        assert(with_precedence(r.insert(q, x), p) =~= with_precedence(front, p) + with_precedence(
            seq![x],
            p,
        ) + with_precedence(back, p));
        assert(with_precedence(r, p) =~= with_precedence(front, p) + with_precedence(back, p));
    }
}

} // verus!

verus! {

// ---------------------------------------------------------------------------
// Declarations
// ---------------------------------------------------------------------------

/// The declaration `name: raw_value`: the name lower-cased as `str::to_lowercase` does, the
/// value trimmed and split from its `!important`.
pub fn make_declaration(name: &str, raw_value: &str) -> (d: Declaration)
    ensures
        d.property@ == crate::text::unicode_lowercase(name@),
        (d.value@, d.important) == importance_split(raw_value@),
{
    let (value, important) = strip_important(raw_value);
    Declaration { property: crate::text::to_lowercase(name), value, important }
}

/// Whether a property name declares a custom property (`--name`).
pub fn is_custom_property(name: &str) -> (r: bool)
    ensures
        r == crate::text::starts_with(name@, "--"@),
{
    let s = chars_of(name);
    let dashes = chars_of("--");
    crate::text::starts_with_vec(s.as_slice(), dashes.as_slice())
}

/// Whether a rule's selector is `:root`, whose custom properties are the style sheet's.
pub fn is_root_selector(selector_text: &str) -> (r: bool)
    ensures
        r == (trim(selector_text@) == ":root"@),
{
    let t = trim_vec(chars_of(selector_text).as_slice());
    crate::text::is_word(t.as_slice(), ":root")
}

/// Whether one of the matched declarations sets `property`.
pub fn declares_property(decls: &Vec<(Declaration, u32)>, property: &str) -> (r: bool)
    ensures
        r == exists|k: int| 0 <= k < decls@.len() && (#[trigger] decls@[k]).0.property@ == property@,
{
    let mut k: usize = 0;
    while k < decls.len()
        invariant
            k <= decls@.len(),
            forall|j: int| 0 <= j < k ==> (#[trigger] decls@[j]).0.property@ != property@,
        decreases decls@.len() - k,
    {
        let p = chars_of(decls[k].0.property.as_str());
        if crate::text::is_word(p.as_slice(), property) {
            return true;
        }
        k = k + 1;
    }
    false
}

} // verus!

verus! {

proof fn lemma_paren_close_skip(s: Seq<char>, i: int, j: int, depth: int)
    requires
        0 <= i <= j <= s.len(),
        forall|k: int| i <= k < j ==> s[k] != '(' && s[k] != ')',
    ensures
        paren_close(s, i, depth) == paren_close(s, j, depth),
    decreases j - i,
{
    if i < j {
        lemma_paren_close_skip(s, i + 1, j, depth);
    }
}

/// Substitution with more fuel than needed gives what it gave.
proof fn lemma_substituted(value: Seq<char>, vars: Seq<(Seq<char>, Seq<char>)>, f: nat)
    requires
        subst(value, vars, f) is Some,
    ensures
        substitution_ends(value, vars),
        substituted(value, vars) == subst(value, vars, f).unwrap(),
{
    let g = choose|g: nat| subst(value, vars, g) is Some;
    assert(subst(value, vars, g) is Some);
    if g <= f {
        lemma_subst_fuel(value, vars, g, f);
    } else {
        lemma_subst_fuel(value, vars, f, g);
    }
}

/// Law: a reference `var(name)` to a declared custom property whose value holds no `var(`
/// reads that value (the name trimmed, without parentheses or commas).
pub proof fn var_reference_reads_declared_value(
    name: Seq<char>,
    vars: Seq<(Seq<char>, Seq<char>)>,
    v: Seq<char>,
)
    requires
        lookup(vars, name) == Some(v),
        find(v, "var("@) is None,
        trim(name) == name,
        forall|k: int| 0 <= k < name.len() ==> name[k] != '(' && name[k] != ')' && name[k] != ',',
    ensures
        substitution_ends("var("@ + name + ")"@, vars),
        substituted("var("@ + name + ")"@, vars) == v,
{
    reveal_strlit("var(");
    reveal_strlit(")");
    let s = "var("@ + name + ")"@;
    let n = name.len() as int;
    assert(s.subrange(0, 4) =~= "var("@);
    assert(matches_at(s, "var("@, 0));
    assert(find(s, "var("@) == Some(0int));
    assert forall|k: int| 4 <= k < 4 + n implies s[k] != '(' && s[k] != ')' by {
        assert(s[k] == name[k - 4]);
    }
    lemma_paren_close_skip(s, 4, 4 + n, 1);
    assert(s[4 + n] == ')');
    assert(paren_close(s, 4, 1) == Some(4 + n));
    assert(s.subrange(4, 4 + n) =~= name);
    lemma_find_from_props(name, seq![','], 0);
    if find(name, seq![',']) is Some {
        let c = find(name, seq![',']).unwrap();
        assert(name.subrange(c, c + 1) == seq![',']);
        assert(name[c] == name.subrange(c, c + 1)[0]);
    }
    assert(var_args(name) == (name, Seq::<char>::empty()));
    assert(subst(v, vars, 1) == Some(v));
    let next = s.subrange(0, 0) + v + s.subrange(4 + n + 1, s.len() as int);
    assert(next =~= v);
    assert(subst(s, vars, 2) == Some(v));
    lemma_substituted(s, vars, 2);
}

/// Law: a reference `var(name, fallback)` to an undeclared custom property gives the
/// fallback (both trimmed, without parentheses; the name without commas), when the fallback
/// holds no `var(`.
pub proof fn var_reference_falls_back(
    name: Seq<char>,
    fallback: Seq<char>,
    vars: Seq<(Seq<char>, Seq<char>)>,
)
    requires
        lookup(vars, name) is None,
        find(fallback, "var("@) is None,
        trim(name) == name,
        trim(fallback) == fallback,
        forall|k: int| 0 <= k < name.len() ==> name[k] != '(' && name[k] != ')' && name[k] != ',',
        forall|k: int| 0 <= k < fallback.len() ==> fallback[k] != '(' && fallback[k] != ')',
    ensures
        substitution_ends("var("@ + name + ","@ + fallback + ")"@, vars),
        substituted("var("@ + name + ","@ + fallback + ")"@, vars) == fallback,
{
    reveal_strlit("var(");
    reveal_strlit(")");
    reveal_strlit(",");
    let s = "var("@ + name + ","@ + fallback + ")"@;
    let n = name.len() as int;
    let m = fallback.len() as int;
    let inner = name + ","@ + fallback;
    assert(s.subrange(0, 4) =~= "var("@);
    assert(matches_at(s, "var("@, 0));
    assert(find(s, "var("@) == Some(0int));
    assert forall|k: int| 4 <= k < 4 + n + 1 + m implies s[k] != '(' && s[k] != ')' by {
        if k < 4 + n {
            assert(s[k] == name[k - 4]);
        } else if k == 4 + n {
            assert(s[k] == ',');
        } else {
            assert(s[k] == fallback[k - 5 - n]);
        }
    }
    lemma_paren_close_skip(s, 4, 4 + n + 1 + m, 1);
    assert(s[4 + n + 1 + m] == ')');
    assert(paren_close(s, 4, 1) == Some(4 + n + 1 + m));
    assert(s.subrange(4, 4 + n + 1 + m) =~= inner);
    assert(matches_at(inner, seq![','], n)) by {
        assert(inner.subrange(n, n + 1) =~= seq![',']);
    }
    lemma_find_from_props(inner, seq![','], 0);
    let c = find(inner, seq![',']).unwrap();
    if c < n {
        assert(inner.subrange(c, c + 1) == seq![',']);
        assert(inner[c] == inner.subrange(c, c + 1)[0]);
        assert(inner[c] == name[c]);
    }
    assert(c == n);
    assert(inner.subrange(0, n) =~= name);
    assert(inner.subrange(n + 1, inner.len() as int) =~= fallback);
    assert(var_args(inner) == (name, fallback));
    let next = s.subrange(0, 0) + fallback + s.subrange(4 + n + 1 + m + 1, s.len() as int);
    assert(next =~= fallback);
    assert(subst(fallback, vars, 1) == Some(fallback));
    assert(subst(s, vars, 2) == Some(fallback));
    lemma_substituted(s, vars, 2);
}

} // verus!

verus! {

/// `n`, or `cap` when `n` is larger.
pub open spec fn capped(n: nat, cap: nat) -> nat {
    if n < cap {
        n
    } else {
        cap
    }
}

fn capped_add(acc: u64, h: u64) -> (r: u64)
    requires
        acc <= 0x1_0000_0000,
    ensures
        r <= 0x1_0000_0000,
        r as nat == capped((acc + h) as nat, 0x1_0000_0000),
{
    let cap: u64 = 0x1_0000_0000;
    if h >= cap - acc {
        cap
    } else {
        acc + h
    }
}

/// Whether the specificity of `selector_text` fits in a `u32`, so that
/// `compute_specificity` may be called on it.
pub fn specificity_fits(selector_text: &str) -> (r: bool)
    ensures
        r == (specificity_of(selector_text@) <= u32::MAX),
{
    let sel = chars_of(selector_text);
    let parts = split_whitespace_vec(sel.as_slice());
    let ghost all = seqs_of(parts@);
    let ghost cap: nat = 0x1_0000_0000;
    let mut ids: u64 = 0;
    let mut classes: u64 = 0;
    let mut types: u64 = 0;
    let mut i: usize = 0;
    let star = chars_of("*");
    while i < parts.len()
        invariant
            i <= parts@.len(),
            all == seqs_of(parts@),
            all == split_whitespace(selector_text@),
            star@ == "*"@,
            cap == 0x1_0000_0000,
            ids as nat == capped(selector_counts(all.subrange(0, i as int)).0, cap),
            classes as nat == capped(selector_counts(all.subrange(0, i as int)).1, cap),
            types as nat == capped(selector_counts(all.subrange(0, i as int)).2, cap),
            ids <= cap,
            classes <= cap,
            types <= cap,
        decreases parts@.len() - i,
    {
        proof {
            assert(all.subrange(0, i + 1).drop_last() =~= all.subrange(0, i as int));
        }
        let p = &parts[i];
        assert(all[i as int] == p@);
        let h = count_char_exec(p.as_slice(), '#');
        let d = count_char_exec(p.as_slice(), '.');
        ids = capped_add(ids, h);
        classes = capped_add(classes, d);
        let mut t: u64 = 0;
        if p.len() > 0 && p[0] != '#' && p[0] != '.' && p[0] != '[' {
            let is_star = p.len() == 1 && p[0] == '*';
            assert(is_star == (p@ == "*"@)) by {
                reveal_strlit("*");
                if p@ == "*"@ {
                    assert(p@[0] == '*');
                }
                if is_star {
                    assert(p@ =~= "*"@);
                }
            }
            if !is_star && count_char_exec(p.as_slice(), ':') == 0 {
                t = 1;
            }
        }
        assert(t as nat == (if names_type(p@) { 1nat } else { 0nat }));
        types = capped_add(types, t);
        i = i + 1;
    }
    assert(all.subrange(0, i as int) =~= all);
    ids * 256 + classes * 16 + types <= 0xFFFF_FFFF
}

} // verus!

verus! {

proof fn lemma_split_append(q: Seq<char>, sep: char, c: Seq<char>)
    requires
        forall|i: int| 0 <= i < c.len() ==> c[i] != sep,
    ensures
        crate::text::split(q + seq![sep] + c, sep) == crate::text::split(q, sep) + seq![c],
    decreases q.len(),
{
    crate::text::lemma_next_char(q, sep, 0);
    let j = crate::text::next_char(q, sep, 0);
    if j >= q.len() {
        crate::text::lemma_split_concat(q, sep, c);
        crate::text::lemma_split_single(c, sep);
        crate::text::lemma_split_single(q, sep);
    } else {
        let x = q.subrange(0, j);
        let y = q.subrange(j + 1, q.len() as int);
        assert(q =~= x + seq![sep] + y);
        assert(q + seq![sep] + c =~= x + seq![sep] + (y + seq![sep] + c));
        crate::text::lemma_split_concat(x, sep, y + seq![sep] + c);
        crate::text::lemma_split_concat(x, sep, y);
        lemma_split_append(y, sep, c);
        assert(seq![x] + (crate::text::split(y, sep) + seq![c]) =~= seq![x] + crate::text::split(
            y,
            sep,
        ) + seq![c]);
    }
}

proof fn lemma_features_append(parts: Seq<Seq<char>>, c: Seq<char>, i: int)
    requires
        1 <= i <= parts.len(),
    ensures
        media_features_from(parts + seq![c], i) == media_features_from(parts, i) + media_feature(c),
    decreases parts.len() - i,
{
    let p2 = parts + seq![c];
    if i < parts.len() {
        assert(p2[i] == parts[i]);
        lemma_features_append(parts, c, i + 1);
        assert(media_feature(parts[i]) + (media_features_from(parts, i + 1) + media_feature(c))
            =~= media_feature(parts[i]) + media_features_from(parts, i + 1) + media_feature(c));
    } else {
        assert(p2[i] == c);
        assert(media_features_from(p2, i + 1) =~= Seq::<(Seq<char>, Seq<char>)>::empty());
        assert(media_features_from(parts, i) =~= Seq::<(Seq<char>, Seq<char>)>::empty());
        assert(media_feature(c) + Seq::<(Seq<char>, Seq<char>)>::empty() =~= media_feature(c));
    }
}

/// Law: every `(name: value)` clause of a media query counts. Adding a clause `(c` to a query
/// that holds here keeps the features it had and adds the clause's own after them.
pub proof fn media_features_grow_by_clause(q: Seq<char>, c: Seq<char>)
    requires
        forall|i: int| 0 <= i < c.len() ==> c[i] != '(',
        media_query_features(q) is Some,
        media_query_features(q + seq!['('] + c) is Some,
    ensures
        media_query_features(q + seq!['('] + c) == Some(
            media_query_features(q).unwrap() + media_feature(crate::text::ascii_lower_seq(c)),
        ),
{
    let lq = crate::text::ascii_lower_seq(q);
    let lc = crate::text::ascii_lower_seq(c);
    assert(crate::text::ascii_lower_seq(q + seq!['('] + c) =~= lq + seq!['('] + lc);
    assert forall|i: int| 0 <= i < lc.len() implies lc[i] != '(' by {
        assert(c[i] != '(');
    }
    lemma_split_append(lq, '(', lc);
    let parts = crate::text::split(lq, '(');
    assert(parts.len() >= 1) by {
        crate::text::lemma_next_char(lq, '(', 0);
    }
    lemma_features_append(parts, lc, 1);
}

} // verus!

verus! {

proof fn lemma_word_end_prefix(x: Seq<char>, y: Seq<char>, i: int)
    requires
        0 <= i <= x.len(),
    ensures
        crate::text::word_end(x + seq![' '] + y, crate::text::CharClass::Whitespace, i)
            == crate::text::word_end(x, crate::text::CharClass::Whitespace, i),
    decreases x.len() - i,
{
    let s = x + seq![' '] + y;
    if i < x.len() {
        assert(s[i] == x[i]);
        lemma_word_end_prefix(x, y, i + 1);
    } else {
        assert(s[i] == ' ');
    }
}

proof fn lemma_word_end_shift(p: Seq<char>, q: Seq<char>, k: int)
    requires
        0 <= k <= q.len(),
    ensures
        crate::text::word_end(p + q, crate::text::CharClass::Whitespace, p.len() + k) == p.len()
            + crate::text::word_end(q, crate::text::CharClass::Whitespace, k),
    decreases q.len() - k,
{
    let s = p + q;
    if k < q.len() {
        assert(s[p.len() + k] == q[k]);
        lemma_word_end_shift(p, q, k + 1);
    }
}

proof fn lemma_words_shift(p: Seq<char>, q: Seq<char>, k: int)
    requires
        0 <= k <= q.len(),
    ensures
        crate::text::words_from(p + q, crate::text::CharClass::Whitespace, p.len() + k)
            == crate::text::words_from(q, crate::text::CharClass::Whitespace, k),
    decreases q.len() - k,
{
    let cls = crate::text::CharClass::Whitespace;
    let s = p + q;
    if k < q.len() {
        assert(s[p.len() + k] == q[k]);
        if crate::text::in_class(cls, q[k]) {
            lemma_words_shift(p, q, k + 1);
        } else {
            lemma_word_end_shift(p, q, k);
            crate::text::lemma_word_end(q, cls, k);
            let j = crate::text::word_end(q, cls, k);
            assert(s.subrange(p.len() + k, p.len() + j) =~= q.subrange(k, j));
            lemma_words_shift(p, q, j);
        }
    }
}

proof fn lemma_words_prefix(x: Seq<char>, y: Seq<char>, i: int)
    requires
        0 <= i <= x.len(),
    ensures
        crate::text::words_from(x + seq![' '] + y, crate::text::CharClass::Whitespace, i)
            == crate::text::words_from(x, crate::text::CharClass::Whitespace, i)
            + crate::text::words_from(x + seq![' '] + y, crate::text::CharClass::Whitespace, x.len() + 1int),
    decreases x.len() - i,
{
    let cls = crate::text::CharClass::Whitespace;
    let s = x + seq![' '] + y;
    let tail = crate::text::words_from(s, cls, x.len() + 1int);
    if i == x.len() {
        assert(s[i] == ' ');
        assert(crate::text::in_class(cls, ' '));
        assert(crate::text::words_from(x, cls, i) =~= Seq::<Seq<char>>::empty());
        assert(Seq::<Seq<char>>::empty() + tail =~= tail);
    } else {
        assert(s[i] == x[i]);
        if crate::text::in_class(cls, x[i]) {
            lemma_words_prefix(x, y, i + 1);
        } else {
            lemma_word_end_prefix(x, y, i);
            crate::text::lemma_word_end(x, cls, i);
            let j = crate::text::word_end(x, cls, i);
            assert(s.subrange(i, j) =~= x.subrange(i, j));
            lemma_words_prefix(x, y, j);
            assert(seq![x.subrange(i, j)] + (crate::text::words_from(x, cls, j) + tail)
                =~= seq![x.subrange(i, j)] + crate::text::words_from(x, cls, j) + tail);
        }
    }
}

/// Splitting at white space: a space between two texts separates their words.
proof fn lemma_split_whitespace_join(x: Seq<char>, y: Seq<char>)
    ensures
        crate::text::split_whitespace(x + seq![' '] + y) == crate::text::split_whitespace(x)
            + crate::text::split_whitespace(y),
{
    lemma_words_prefix(x, y, 0);
    assert(x + seq![' '] + y =~= (x + seq![' ']) + y);
    lemma_words_shift(x + seq![' '], y, 0);
}

proof fn lemma_selector_counts_concat(a: Seq<Seq<char>>, b: Seq<Seq<char>>)
    ensures
        selector_counts(a + b).0 == selector_counts(a).0 + selector_counts(b).0,
        selector_counts(a + b).1 == selector_counts(a).1 + selector_counts(b).1,
        selector_counts(a + b).2 == selector_counts(a).2 + selector_counts(b).2,
    decreases b.len(),
{
    if b.len() == 0 {
        assert(a + b =~= a);
    } else {
        lemma_selector_counts_concat(a, b.drop_last());
        assert((a + b).drop_last() =~= a + b.drop_last());
        assert((a + b).last() == b.last());
    }
}

/// Law: specificity adds up over the compound selectors of a descendant selector: the
/// specificity of `x y` is that of `x` plus that of `y`. Each compound counts its own ids,
/// classes and element type, whatever stands before it.
pub proof fn specificity_is_additive(x: Seq<char>, y: Seq<char>)
    ensures
        specificity_of(x + seq![' '] + y) == specificity_of(x) + specificity_of(y),
{
    lemma_split_whitespace_join(x, y);
    lemma_selector_counts_concat(
        crate::text::split_whitespace(x),
        crate::text::split_whitespace(y),
    );
}

} // verus!

verus! {

/// Law: a compound selector that only names an element type (no id, no class, such as `ul`
/// or `li`) has specificity 1; with `specificity_is_additive`, every such compound of a
/// descendant selector adds exactly 1.
pub proof fn type_selector_counts_one(p: Seq<char>)
    requires
        forall|i: int| 0 <= i < p.len() ==> !crate::text::is_ws(p[i]),
        names_type(p),
        count_char(p, '#') == 0,
        count_char(p, '.') == 0,
    ensures
        specificity_of(p) == 1,
{
    let cls = crate::text::CharClass::Whitespace;
    crate::text::lemma_word_end(p, cls, 0);
    let j = crate::text::word_end(p, cls, 0);
    if j < p.len() {
        assert(crate::text::in_class(cls, p[j]));
    }
    assert(j == p.len());
    assert(p.subrange(0, j) =~= p);
    assert(!crate::text::in_class(cls, p[0]));
    assert(crate::text::words_from(p, cls, p.len() as int) =~= Seq::<Seq<char>>::empty());
    assert(crate::text::words_from(p, cls, 0) == seq![p.subrange(0, j)] + crate::text::words_from(
        p,
        cls,
        j,
    ));
    assert(crate::text::split_whitespace(p) =~= seq![p]);
    let parts = seq![p];
    assert(parts.drop_last() =~= Seq::<Seq<char>>::empty());
    assert(parts.last() == p);
    assert(selector_counts(parts.drop_last()) == (0nat, 0nat, 0nat));
}

} // verus!
