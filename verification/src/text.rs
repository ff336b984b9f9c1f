use vstd::prelude::*;

verus! {

/// The Unicode `White_Space` property, the one that `char::is_whitespace` tests.
pub open spec fn is_ws(c: char) -> bool {
    let u = c as u32;
    ||| 0x09 <= u <= 0x0d
    ||| u == 0x20
    ||| u == 0x85
    ||| u == 0xa0
    ||| u == 0x1680
    ||| 0x2000 <= u <= 0x200a
    ||| u == 0x2028
    ||| u == 0x2029
    ||| u == 0x202f
    ||| u == 0x205f
    ||| u == 0x3000
}

/// Whether `c` has the Unicode `White_Space` property.
pub fn is_whitespace(c: char) -> (r: bool)
    ensures
        r == is_ws(c),
{
    let u = c as u32;
    (0x09 <= u && u <= 0x0d) || u == 0x20 || u == 0x85 || u == 0xa0 || u == 0x1680 || (0x2000
        <= u && u <= 0x200a) || u == 0x2028 || u == 0x2029 || u == 0x202f || u == 0x205f || u
        == 0x3000
}

/// The characters of `s`, in order.
pub fn chars_of(s: &str) -> (v: Vec<char>)
    ensures
        v@ == s@,
{
    let mut v: Vec<char> = Vec::new();
    for c in it: s.chars()
        invariant
            v@ == it.seq().take(it.index() as int),
            it.seq() == s@,
    {
        v.push(c);
    }
    v
}

/// A `String` holding exactly the characters of `v`.
#[verifier::external_body]
pub(crate) fn string_of(v: &[char]) -> (s: String)
    ensures
        s@ == v@,
{
    v.iter().collect()
}

} // verus!

verus! {

// ---------------------------------------------------------------------------
// Searching
// ---------------------------------------------------------------------------

/// `pat` occurs in `s` starting at index `i`.
pub open spec fn matches_at<A>(s: Seq<A>, pat: Seq<A>, i: int) -> bool {
    0 <= i && i + pat.len() <= s.len() && s.subrange(i, i + pat.len()) == pat
}

/// The first index `>= i` at which `pat` occurs in `s`.
pub open spec fn find_from<A>(s: Seq<A>, pat: Seq<A>, i: int) -> Option<int>
    decreases s.len() + 1 - i,
{
    if i < 0 || i + pat.len() > s.len() {
        None
    } else if matches_at(s, pat, i) {
        Some(i)
    } else {
        find_from(s, pat, i + 1)
    }
}

/// The first index at which `pat` occurs in `s`.
pub open spec fn find<A>(s: Seq<A>, pat: Seq<A>) -> Option<int> {
    find_from(s, pat, 0)
}

/// The greatest index `<= i` at which `pat` occurs in `s`.
pub open spec fn rfind_upto<A>(s: Seq<A>, pat: Seq<A>, i: int) -> Option<int>
    decreases i + 1,
{
    if i < 0 {
        None
    } else if matches_at(s, pat, i) {
        Some(i)
    } else {
        rfind_upto(s, pat, i - 1)
    }
}

/// The last index at which `pat` occurs in `s`.
pub open spec fn rfind<A>(s: Seq<A>, pat: Seq<A>) -> Option<int> {
    rfind_upto(s, pat, s.len() - pat.len())
}

pub proof fn lemma_find_from_props<A>(s: Seq<A>, pat: Seq<A>, i: int)
    requires
        0 <= i,
    ensures
        match find_from(s, pat, i) {
            Some(k) => i <= k && matches_at(s, pat, k) && forall|j: int|
                i <= j < k ==> !matches_at(s, pat, j),
            None => forall|j: int| i <= j ==> !matches_at(s, pat, j),
        },
    decreases s.len() + 1 - i,
{
    if i + pat.len() > s.len() {
    } else if matches_at(s, pat, i) {
    } else {
        lemma_find_from_props(s, pat, i + 1);
    }
}

pub proof fn lemma_rfind_upto_props<A>(s: Seq<A>, pat: Seq<A>, i: int)
    ensures
        match rfind_upto(s, pat, i) {
            Some(k) => 0 <= k <= i && matches_at(s, pat, k) && forall|j: int|
                k < j <= i ==> !matches_at(s, pat, j),
            None => forall|j: int| j <= i ==> !matches_at(s, pat, j),
        },
    decreases i + 1,
{
    if i < 0 {
    } else if matches_at(s, pat, i) {
    } else {
        lemma_rfind_upto_props(s, pat, i - 1);
    }
}

/// Whether `pat` occurs in `s` at index `i` (characters).
pub fn chars_match_at(s: &[char], pat: &[char], i: usize) -> (r: bool)
    ensures
        r == matches_at(s@, pat@, i as int),
{
    if i > s.len() || pat.len() > s.len() - i {
        return false;
    }
    let mut k: usize = 0;
    while k < pat.len()
        invariant
            i + pat@.len() <= s@.len(),
            k <= pat@.len(),
            forall|j: int| 0 <= j < k ==> s@[i + j] == pat@[j],
        decreases pat@.len() - k,
    {
        assert(i + k < s.len());
        if s[i + k] != pat[k] {
            assert(s@.subrange(i as int, i + pat@.len())[k as int] != pat@[k as int]);
            return false;
        }
        k = k + 1;
    }
    assert(s@.subrange(i as int, i + pat@.len()) =~= pat@);
    true
}

/// The first index `>= from` at which `pat` occurs in `s` (characters).
pub fn find_chars_from(s: &[char], pat: &[char], from: usize) -> (r: Option<usize>)
    ensures
        match r {
            Some(k) => find_from(s@, pat@, from as int) == Some(k as int),
            None => find_from(s@, pat@, from as int) is None,
        },
{
    let mut i = from;
    while pat.len() <= s.len() && i <= s.len() - pat.len()
        invariant
            from <= i,
            find_from(s@, pat@, from as int) == find_from(s@, pat@, i as int),
        decreases s@.len() + 1 - i,
    {
        if pat.len() == 0 {
            assert(s@.subrange(i as int, i as int) =~= pat@);
        }
        if chars_match_at(s, pat, i) {
            return Some(i);
        }
        i = i + 1;
    }
    None
}

/// The first index at which `pat` occurs in `s` (characters).
pub fn find_chars(s: &[char], pat: &[char]) -> (r: Option<usize>)
    ensures
        match r {
            Some(k) => find(s@, pat@) == Some(k as int),
            None => find(s@, pat@) is None,
        },
{
    find_chars_from(s, pat, 0)
}

/// The last index at which `pat` occurs in `s` (characters).
pub fn rfind_chars(s: &[char], pat: &[char]) -> (r: Option<usize>)
    ensures
        match r {
            Some(k) => rfind(s@, pat@) == Some(k as int),
            None => rfind(s@, pat@) is None,
        },
{
    if pat.len() > s.len() {
        return None;
    }
    let mut i: usize = s.len() - pat.len();
    loop
        invariant
            i + pat@.len() <= s@.len(),
            rfind(s@, pat@) == rfind_upto(s@, pat@, i as int),
        decreases i,
    {
        if chars_match_at(s, pat, i) {
            return Some(i);
        }
        if i == 0 {
            assert(rfind_upto(s@, pat@, -1) is None);
            return None;
        }
        i = i - 1;
    }
}

/// Whether `pat` occurs in `s` at index `i` (bytes).
pub fn bytes_match_at(s: &[u8], pat: &[u8], i: usize) -> (r: bool)
    ensures
        r == matches_at(s@, pat@, i as int),
{
    if i > s.len() || pat.len() > s.len() - i {
        return false;
    }
    let mut k: usize = 0;
    while k < pat.len()
        invariant
            i + pat@.len() <= s@.len(),
            k <= pat@.len(),
            forall|j: int| 0 <= j < k ==> s@[i + j] == pat@[j],
        decreases pat@.len() - k,
    {
        assert(i + k < s.len());
        if s[i + k] != pat[k] {
            assert(s@.subrange(i as int, i + pat@.len())[k as int] != pat@[k as int]);
            return false;
        }
        k = k + 1;
    }
    assert(s@.subrange(i as int, i + pat@.len()) =~= pat@);
    true
}

/// The first index `>= from` at which `pat` occurs in `s` (bytes).
pub fn find_bytes_from(s: &[u8], pat: &[u8], from: usize) -> (r: Option<usize>)
    ensures
        match r {
            Some(k) => find_from(s@, pat@, from as int) == Some(k as int),
            None => find_from(s@, pat@, from as int) is None,
        },
{
    let mut i = from;
    while pat.len() <= s.len() && i <= s.len() - pat.len()
        invariant
            from <= i,
            find_from(s@, pat@, from as int) == find_from(s@, pat@, i as int),
        decreases s@.len() + 1 - i,
    {
        if pat.len() == 0 {
            assert(s@.subrange(i as int, i as int) =~= pat@);
        }
        if bytes_match_at(s, pat, i) {
            return Some(i);
        }
        i = i + 1;
    }
    None
}

} // verus!

verus! {

// ---------------------------------------------------------------------------
// Character classes
// ---------------------------------------------------------------------------

/// Classes of characters that the scanners of this library skip or split on.
#[derive(Clone, Copy, PartialEq, Eq, Debug)]
pub enum CharClass {
    /// Unicode `White_Space`.
    Whitespace,
    /// `"` and `'`.
    Quote,
    /// ` `, `"` and `'`.
    SpaceOrQuote,
    /// ` ` and `\t`.
    SpaceOrTab,
    /// ASCII letters and digits, `-`, `_` and `.`.
    LabelChar,
}

pub open spec fn in_class(cls: CharClass, c: char) -> bool {
    match cls {
        CharClass::Whitespace => is_ws(c),
        CharClass::Quote => c == '"' || c == '\'',
        CharClass::SpaceOrQuote => c == ' ' || c == '"' || c == '\'',
        CharClass::SpaceOrTab => c == ' ' || c == '\t',
        CharClass::LabelChar => ('a' <= c <= 'z') || ('A' <= c <= 'Z') || ('0' <= c <= '9')
            || c == '-' || c == '_' || c == '.',
    }
}

pub fn class_contains(cls: CharClass, c: char) -> (r: bool)
    ensures
        r == in_class(cls, c),
{
    match cls {
        CharClass::Whitespace => is_whitespace(c),
        CharClass::Quote => c == '"' || c == '\'',
        CharClass::SpaceOrQuote => c == ' ' || c == '"' || c == '\'',
        CharClass::SpaceOrTab => c == ' ' || c == '\t',
        CharClass::LabelChar => ('a' <= c && c <= 'z') || ('A' <= c && c <= 'Z') || ('0' <= c
            && c <= '9') || c == '-' || c == '_' || c == '.',
    }
}

// ---------------------------------------------------------------------------
// Trimming
// ---------------------------------------------------------------------------

/// The first index `>= i` whose character is not in `cls`.
pub open spec fn skip_class(s: Seq<char>, cls: CharClass, i: int) -> int
    decreases s.len() - i,
{
    if 0 <= i < s.len() && in_class(cls, s[i]) {
        skip_class(s, cls, i + 1)
    } else {
        i
    }
}

/// Walking down from `j`, the first end `> lo` whose preceding character is not in `cls`.
pub open spec fn skip_class_back(s: Seq<char>, cls: CharClass, lo: int, j: int) -> int
    decreases j - lo,
{
    if lo < j <= s.len() && in_class(cls, s[j - 1]) {
        skip_class_back(s, cls, lo, j - 1)
    } else {
        j
    }
}

/// `s` without its leading characters in `cls`.
pub open spec fn trim_start_class(s: Seq<char>, cls: CharClass) -> Seq<char> {
    s.subrange(skip_class(s, cls, 0), s.len() as int)
}

/// `s` without its leading and trailing characters in `cls`.
pub open spec fn trim_class(s: Seq<char>, cls: CharClass) -> Seq<char> {
    let a = skip_class(s, cls, 0);
    s.subrange(a, skip_class_back(s, cls, a, s.len() as int))
}

/// What `str::trim` gives.
pub open spec fn trim(s: Seq<char>) -> Seq<char> {
    trim_class(s, CharClass::Whitespace)
}

pub proof fn lemma_skip_class(s: Seq<char>, cls: CharClass, i: int)
    requires
        0 <= i <= s.len(),
    ensures
        i <= skip_class(s, cls, i) <= s.len(),
        forall|k: int| i <= k < skip_class(s, cls, i) ==> in_class(cls, s[k]),
        skip_class(s, cls, i) < s.len() ==> !in_class(cls, s[skip_class(s, cls, i)]),
    decreases s.len() - i,
{
    if i < s.len() && in_class(cls, s[i]) {
        lemma_skip_class(s, cls, i + 1);
    }
}

pub proof fn lemma_skip_class_back(s: Seq<char>, cls: CharClass, lo: int, j: int)
    requires
        0 <= lo <= j <= s.len(),
    ensures
        lo <= skip_class_back(s, cls, lo, j) <= j,
        forall|k: int| skip_class_back(s, cls, lo, j) <= k < j ==> in_class(cls, s[k]),
        lo < skip_class_back(s, cls, lo, j) ==> !in_class(
            cls,
            s[skip_class_back(s, cls, lo, j) - 1],
        ),
    decreases j - lo,
{
    if lo < j && in_class(cls, s[j - 1]) {
        lemma_skip_class_back(s, cls, lo, j - 1);
    }
}

/// The first index `>= i` whose character is not in `cls`.
pub fn skip_class_exec(s: &[char], cls: CharClass, i: usize) -> (r: usize)
    requires
        i <= s@.len(),
    ensures
        r == skip_class(s@, cls, i as int),
{
    let mut k = i;
    while k < s.len() && class_contains(cls, s[k])
        invariant
            i <= k <= s@.len(),
            skip_class(s@, cls, i as int) == skip_class(s@, cls, k as int),
        decreases s@.len() - k,
    {
        k = k + 1;
    }
    k
}

/// Walking down from `j`, the first end `> lo` whose preceding character is not in `cls`.
pub fn skip_class_back_exec(s: &[char], cls: CharClass, lo: usize, j: usize) -> (r: usize)
    requires
        lo <= j <= s@.len(),
    ensures
        r == skip_class_back(s@, cls, lo as int, j as int),
{
    let mut k = j;
    while lo < k && class_contains(cls, s[k - 1])
        invariant
            lo <= k <= j,
            j <= s@.len(),
            skip_class_back(s@, cls, lo as int, j as int) == skip_class_back(
                s@,
                cls,
                lo as int,
                k as int,
            ),
        decreases k,
    {
        k = k - 1;
    }
    k
}

/// The bounds of `s` without its leading and trailing characters in `cls`.
pub fn trim_class_range(s: &[char], cls: CharClass) -> (r: (usize, usize))
    ensures
        r.0 <= r.1 <= s@.len(),
        s@.subrange(r.0 as int, r.1 as int) == trim_class(s@, cls),
{
    let a = skip_class_exec(s, cls, 0);
    proof {
        lemma_skip_class(s@, cls, 0);
    }
    let b = skip_class_back_exec(s, cls, a, s.len());
    proof {
        lemma_skip_class_back(s@, cls, a as int, s@.len() as int);
    }
    (a, b)
}

/// `s` without its leading and trailing characters in `cls`.
pub fn trim_class_vec(s: &[char], cls: CharClass) -> (r: Vec<char>)
    ensures
        r@ == trim_class(s@, cls),
{
    let (a, b) = trim_class_range(s, cls);
    subrange_vec(s, a, b)
}

/// What `str::trim` gives.
pub fn trim_vec(s: &[char]) -> (r: Vec<char>)
    ensures
        r@ == trim(s@),
{
    trim_class_vec(s, CharClass::Whitespace)
}

/// `s` without its leading characters in `cls`.
pub fn trim_start_class_vec(s: &[char], cls: CharClass) -> (r: Vec<char>)
    ensures
        r@ == trim_start_class(s@, cls),
{
    let a = skip_class_exec(s, cls, 0);
    proof {
        lemma_skip_class(s@, cls, 0);
    }
    subrange_vec(s, a, s.len())
}

/// The elements of `s` from `a` up to `b`.
pub fn subrange_vec<A: Copy>(s: &[A], a: usize, b: usize) -> (r: Vec<A>)
    requires
        a <= b <= s@.len(),
    ensures
        r@ == s@.subrange(a as int, b as int),
{
    let mut r: Vec<A> = Vec::new();
    let mut k = a;
    while k < b
        invariant
            a <= k <= b,
            b <= s@.len(),
            r@ == s@.subrange(a as int, k as int),
        decreases b - k,
    {
        r.push(s[k]);
        k = k + 1;
        assert(r@ =~= s@.subrange(a as int, k as int));
    }
    r
}

} // verus!

verus! {

// ---------------------------------------------------------------------------
// Splitting
// ---------------------------------------------------------------------------

/// The character sequences held by a sequence of vectors.
pub open spec fn seqs_of(v: Seq<Vec<char>>) -> Seq<Seq<char>> {
    v.map_values(|x: Vec<char>| x@)
}

/// The characters of each string of `v`.
pub open spec fn strings_view(v: Seq<String>) -> Seq<Seq<char>> {
    v.map_values(|x: String| x@)
}

/// The first index `>= i` holding `c`, or the length of `s`.
pub open spec fn next_char(s: Seq<char>, c: char, i: int) -> int
    decreases s.len() - i,
{
    if 0 <= i < s.len() && s[i] != c {
        next_char(s, c, i + 1)
    } else {
        i
    }
}

pub proof fn lemma_next_char(s: Seq<char>, c: char, i: int)
    requires
        0 <= i <= s.len(),
    ensures
        i <= next_char(s, c, i) <= s.len(),
        forall|k: int| i <= k < next_char(s, c, i) ==> s[k] != c,
        next_char(s, c, i) < s.len() ==> s[next_char(s, c, i)] == c,
    decreases s.len() - i,
{
    if i < s.len() && s[i] != c {
        lemma_next_char(s, c, i + 1);
    }
}

/// The pieces of `s` from index `i` on, separated by `sep`, as `str::split` gives them.
pub open spec fn split_from(s: Seq<char>, sep: char, i: int) -> Seq<Seq<char>>
    decreases s.len() - i,
{
    if i < 0 || i > s.len() {
        Seq::empty()
    } else {
        let j = next_char(s, sep, i);
        if j >= s.len() || j < i {
            seq![s.subrange(i, s.len() as int)]
        } else {
            seq![s.subrange(i, j)] + split_from(s, sep, j + 1)
        }
    }
}

/// What `str::split` with a character separator gives.
pub open spec fn split(s: Seq<char>, sep: char) -> Seq<Seq<char>> {
    split_from(s, sep, 0)
}

/// The pieces of `s` separated by `sep`, as `str::split` gives them.
pub fn split_vec(s: &[char], sep: char) -> (r: Vec<Vec<char>>)
    ensures
        seqs_of(r@) == split(s@, sep),
{
    let mut r: Vec<Vec<char>> = Vec::new();
    let mut i: usize = 0;
    loop
        invariant
            i <= s@.len(),
            seqs_of(r@) + split_from(s@, sep, i as int) == split(s@, sep),
        decreases s@.len() - i,
    {
        let mut j = i;
        while j < s.len() && s[j] != sep
            invariant
                i <= j <= s@.len(),
                next_char(s@, sep, i as int) == next_char(s@, sep, j as int),
            decreases s@.len() - j,
        {
            j = j + 1;
        }
        let piece = subrange_vec(s, i, j);
        let ghost old_r = seqs_of(r@);
        r.push(piece);
        assert(seqs_of(r@) =~= old_r.push(piece@));
        if j >= s.len() {
            assert(seqs_of(r@) =~= old_r + split_from(s@, sep, i as int));
            return r;
        }
        assert(old_r + split_from(s@, sep, i as int) =~= seqs_of(r@) + split_from(
            s@,
            sep,
            j + 1,
        ));
        i = j + 1;
    }
}

/// The end of the run of characters outside `cls` that starts at `i`.
pub open spec fn word_end(s: Seq<char>, cls: CharClass, i: int) -> int
    decreases s.len() - i,
{
    if 0 <= i < s.len() && !in_class(cls, s[i]) {
        word_end(s, cls, i + 1)
    } else {
        i
    }
}

pub proof fn lemma_word_end(s: Seq<char>, cls: CharClass, i: int)
    requires
        0 <= i <= s.len(),
    ensures
        i <= word_end(s, cls, i) <= s.len(),
        forall|k: int| i <= k < word_end(s, cls, i) ==> !in_class(cls, s[k]),
        word_end(s, cls, i) < s.len() ==> in_class(cls, s[word_end(s, cls, i)]),
    decreases s.len() - i,
{
    if i < s.len() && !in_class(cls, s[i]) {
        lemma_word_end(s, cls, i + 1);
    }
}

/// The maximal runs of characters outside `cls`, from index `i` on.
pub open spec fn words_from(s: Seq<char>, cls: CharClass, i: int) -> Seq<Seq<char>>
    decreases s.len() - i,
{
    if i < 0 || i >= s.len() {
        Seq::empty()
    } else if in_class(cls, s[i]) {
        words_from(s, cls, i + 1)
    } else {
        let j = word_end(s, cls, i);
        if j <= i || j > s.len() {
            Seq::empty()
        } else {
            seq![s.subrange(i, j)] + words_from(s, cls, j)
        }
    }
}

/// What `str::split_whitespace` gives.
pub open spec fn split_whitespace(s: Seq<char>) -> Seq<Seq<char>> {
    words_from(s, CharClass::Whitespace, 0)
}

/// The maximal runs of characters of `s` outside `cls`.
pub fn words_vec(s: &[char], cls: CharClass) -> (r: Vec<Vec<char>>)
    ensures
        seqs_of(r@) == words_from(s@, cls, 0),
{
    let mut r: Vec<Vec<char>> = Vec::new();
    let mut i: usize = 0;
    while i < s.len()
        invariant
            i <= s@.len(),
            seqs_of(r@) + words_from(s@, cls, i as int) == words_from(s@, cls, 0),
        decreases s@.len() - i,
    {
        if class_contains(cls, s[i]) {
            i = i + 1;
        } else {
            let mut j = i;
            while j < s.len() && !class_contains(cls, s[j])
                invariant
                    i <= j <= s@.len(),
                    word_end(s@, cls, i as int) == word_end(s@, cls, j as int),
                decreases s@.len() - j,
            {
                j = j + 1;
            }
            proof {
                lemma_word_end(s@, cls, i as int);
            }
            let piece = subrange_vec(s, i, j);
            let ghost old_r = seqs_of(r@);
            r.push(piece);
            assert(seqs_of(r@) =~= old_r.push(piece@));
            assert(old_r + words_from(s@, cls, i as int) =~= seqs_of(r@) + words_from(
                s@,
                cls,
                j as int,
            ));
            i = j;
        }
    }
    assert(seqs_of(r@) =~= seqs_of(r@) + words_from(s@, cls, i as int));
    r
}

/// What `str::split_whitespace` gives.
pub fn split_whitespace_vec(s: &[char]) -> (r: Vec<Vec<char>>)
    ensures
        seqs_of(r@) == split_whitespace(s@),
{
    words_vec(s, CharClass::Whitespace)
}

// ---------------------------------------------------------------------------
// Case
// ---------------------------------------------------------------------------

/// What `char::to_ascii_lowercase` gives.
pub open spec fn ascii_lower(c: char) -> char {
    if 'A' <= c <= 'Z' {
        ((c as u32) + 32) as char
    } else {
        c
    }
}

/// What `str::to_ascii_lowercase` gives.
pub open spec fn ascii_lower_seq(s: Seq<char>) -> Seq<char> {
    Seq::new(s.len(), |i: int| ascii_lower(s[i]))
}

/// What `str::eq_ignore_ascii_case` gives.
pub open spec fn eq_ignore_case(a: Seq<char>, b: Seq<char>) -> bool {
    ascii_lower_seq(a) == ascii_lower_seq(b)
}

pub fn ascii_lower_char(c: char) -> (r: char)
    ensures
        r == ascii_lower(c),
{
    if 'A' <= c && c <= 'Z' {
        let b: u8 = (c as u32) as u8;
        ((b + 32) as char)
    } else {
        c
    }
}

/// `s` with ASCII upper-case letters made lower-case.
pub fn ascii_lower_vec(s: &[char]) -> (r: Vec<char>)
    ensures
        r@ == ascii_lower_seq(s@),
{
    let mut r: Vec<char> = Vec::new();
    let mut i: usize = 0;
    while i < s.len()
        invariant
            i <= s@.len(),
            r@ == ascii_lower_seq(s@).subrange(0, i as int),
        decreases s@.len() - i,
    {
        r.push(ascii_lower_char(s[i]));
        i = i + 1;
        assert(r@ =~= ascii_lower_seq(s@).subrange(0, i as int));
    }
    assert(ascii_lower_seq(s@).subrange(0, i as int) =~= ascii_lower_seq(s@));
    r
}

/// Whether `a` and `b` are equal up to ASCII case.
pub fn eq_ignore_case_vec(a: &[char], b: &[char]) -> (r: bool)
    ensures
        r == eq_ignore_case(a@, b@),
{
    if a.len() != b.len() {
        assert(ascii_lower_seq(a@).len() != ascii_lower_seq(b@).len());
        return false;
    }
    let mut i: usize = 0;
    while i < a.len()
        invariant
            a@.len() == b@.len(),
            i <= a@.len(),
            forall|k: int| 0 <= k < i ==> ascii_lower(a@[k]) == ascii_lower(b@[k]),
        decreases a@.len() - i,
    {
        if ascii_lower_char(a[i]) != ascii_lower_char(b[i]) {
            assert(ascii_lower_seq(a@)[i as int] != ascii_lower_seq(b@)[i as int]);
            return false;
        }
        i = i + 1;
    }
    assert(ascii_lower_seq(a@) =~= ascii_lower_seq(b@));
    true
}

/// What `str::to_lowercase` gives: the Unicode lower-case mapping of every character.
pub uninterp spec fn unicode_lowercase(s: Seq<char>) -> Seq<char>;

/// Calls `str::to_lowercase`; the contract names its result (full Unicode case mapping).
#[verifier::external_body]
pub(crate) fn to_lowercase(s: &str) -> (r: String)
    ensures
        r@ == unicode_lowercase(s@),
{
    s.to_lowercase()
}

/// Whether `t` is exactly the characters of `w`.
pub fn is_word(t: &[char], w: &str) -> (r: bool)
    ensures
        r == (t@ == w@),
{
    let wc = chars_of(w);
    if t.len() != wc.len() {
        return false;
    }
    let r = chars_match_at(t, wc.as_slice(), 0);
    assert(t@.subrange(0, wc@.len() as int) =~= t@);
    r
}

/// Whether `pat` begins `s`.
pub open spec fn starts_with(s: Seq<char>, pat: Seq<char>) -> bool {
    pat.len() <= s.len() && s.subrange(0, pat.len() as int) == pat
}

/// Whether `pat` ends `s`.
pub open spec fn ends_with(s: Seq<char>, pat: Seq<char>) -> bool {
    pat.len() <= s.len() && s.subrange(s.len() - pat.len(), s.len() as int) == pat
}

pub fn starts_with_vec(s: &[char], pat: &[char]) -> (r: bool)
    ensures
        r == starts_with(s@, pat@),
{
    chars_match_at(s, pat, 0)
}

pub fn ends_with_vec(s: &[char], pat: &[char]) -> (r: bool)
    ensures
        r == ends_with(s@, pat@),
{
    if pat.len() > s.len() {
        return false;
    }
    chars_match_at(s, pat, s.len() - pat.len())
}

} // verus!

verus! {

// ---------------------------------------------------------------------------
// Lines
// ---------------------------------------------------------------------------

/// A line that ended with a newline, without one final `\r`.
pub open spec fn strip_cr(l: Seq<char>) -> Seq<char> {
    if l.len() > 0 && l.last() == '\r' {
        l.drop_last()
    } else {
        l
    }
}

/// What `str::lines` gives: the pieces between newlines, each without a `\r` that stood
/// before its newline; no empty line after a final newline.
pub open spec fn lines(s: Seq<char>) -> Seq<Seq<char>> {
    let p = split(s, '\n');
    let ended = p.drop_last().map_values(|l: Seq<char>| strip_cr(l));
    if s.len() == 0 {
        Seq::empty()
    } else if s.last() == '\n' {
        ended
    } else {
        ended.push(p.last())
    }
}

pub proof fn lemma_split_nonempty(s: Seq<char>, sep: char, i: int)
    requires
        0 <= i <= s.len(),
    ensures
        split_from(s, sep, i).len() >= 1,
    decreases s.len() - i,
{
    lemma_next_char(s, sep, i);
    let j = next_char(s, sep, i);
    if j < s.len() {
        lemma_split_nonempty(s, sep, j + 1);
    }
}

/// What `str::lines` gives.
pub fn lines_vec(s: &[char]) -> (r: Vec<Vec<char>>)
    ensures
        seqs_of(r@) == lines(s@),
{
    let p = split_vec(s, '\n');
    proof {
        lemma_split_nonempty(s@, '\n', 0);
    }
    let mut r: Vec<Vec<char>> = Vec::new();
    if s.len() == 0 {
        assert(seqs_of(r@) =~= lines(s@));
        return r;
    }
    let ghost ended = seqs_of(p@).drop_last().map_values(|l: Seq<char>| strip_cr(l));
    let mut i: usize = 0;
    while i < p.len() - 1
        invariant
            seqs_of(p@) == split(s@, '\n'),
            p@.len() >= 1,
            i + 1 <= p@.len(),
            ended == seqs_of(p@).drop_last().map_values(|l: Seq<char>| strip_cr(l)),
            seqs_of(r@) == ended.subrange(0, i as int),
        decreases p@.len() - i,
    {
        let l = &p[i];
        let mut line: Vec<char> = Vec::new();
        if l.len() > 0 && l[l.len() - 1] == '\r' {
            line = subrange_vec(l.as_slice(), 0, l.len() - 1);
            assert(line@ =~= l@.drop_last());
        } else {
            line = subrange_vec(l.as_slice(), 0, l.len());
            assert(line@ =~= l@);
        }
        assert(seqs_of(p@)[i as int] == l@);
        assert(ended[i as int] == strip_cr(l@));
        assert(line@ == strip_cr(l@));
        let ghost old_r = seqs_of(r@);
        r.push(line);
        assert(seqs_of(r@) =~= old_r.push(strip_cr(l@)));
        i = i + 1;
        assert(seqs_of(r@) =~= ended.subrange(0, i as int));
    }
    assert(ended.subrange(0, i as int) =~= ended);
    if s[s.len() - 1] != '\n' {
        let last = &p[p.len() - 1];
        let copy = subrange_vec(last.as_slice(), 0, last.len());
        assert(copy@ =~= last@);
        let ghost old_r = seqs_of(r@);
        r.push(copy);
        assert(seqs_of(r@) =~= old_r.push(copy@));
        assert(seqs_of(r@) =~= ended.push(seqs_of(p@).last()));
    }
    r
}

} // verus!

verus! {

/// Appends the elements of `src` to `dst`.
pub fn extend_vec<A: Copy>(dst: &mut Vec<A>, src: &[A])
    ensures
        final(dst)@ == old(dst)@ + src@,
{
    let mut i: usize = 0;
    while i < src.len()
        invariant
            i <= src@.len(),
            dst@ == old(dst)@ + src@.subrange(0, i as int),
        decreases src@.len() - i,
    {
        dst.push(src[i]);
        i = i + 1;
        assert(dst@ =~= old(dst)@ + src@.subrange(0, i as int));
    }
    assert(src@.subrange(0, i as int) =~= src@);
}

/// `a` followed by `b`, as a new vector.
pub fn concat_vec<A: Copy>(a: &[A], b: &[A]) -> (r: Vec<A>)
    ensures
        r@ == a@ + b@,
{
    let mut r = subrange_vec(a, 0, a.len());
    assert(r@ =~= a@);
    extend_vec(&mut r, b);
    r
}

/// A `String` holding the characters of `a` followed by those of `b`.
pub fn string_concat(a: &[char], b: &[char]) -> (r: String)
    ensures
        r@ == a@ + b@,
{
    let v = concat_vec(a, b);
    string_of(v.as_slice())
}

/// A `String` with the characters of `s`.
pub fn string_from_str(s: &str) -> (r: String)
    ensures
        r@ == s@,
{
    s.to_owned()
}

} // verus!

verus! {

proof fn lemma_next_char_shift(s: Seq<char>, c: char, k: int, i: int)
    requires
        0 <= k <= s.len(),
        0 <= i <= s.len() - k,
    ensures
        next_char(s, c, k + i) == k + next_char(s.subrange(k, s.len() as int), c, i),
    decreases s.len() - k - i,
{
    let t = s.subrange(k, s.len() as int);
    if i < t.len() && t[i] != c {
        lemma_next_char_shift(s, c, k, i + 1);
    }
}

proof fn lemma_split_from_shift(s: Seq<char>, sep: char, k: int, i: int)
    requires
        0 <= k <= s.len(),
        0 <= i <= s.len() - k,
    ensures
        split_from(s, sep, k + i) == split_from(s.subrange(k, s.len() as int), sep, i),
    decreases s.len() - k - i,
{
    let t = s.subrange(k, s.len() as int);
    lemma_next_char_shift(s, sep, k, i);
    lemma_next_char(t, sep, i);
    let j = next_char(t, sep, i);
    if j < t.len() {
        lemma_split_from_shift(s, sep, k, j + 1);
        assert(s.subrange(k + i, k + j) =~= t.subrange(i, j));
    } else {
        assert(s.subrange(k + i, s.len() as int) =~= t.subrange(i, t.len() as int));
    }
}

/// Splitting `x`, `sep`, `y` where `x` holds no `sep` gives `x` followed by the pieces of `y`.
pub proof fn lemma_split_concat(x: Seq<char>, sep: char, y: Seq<char>)
    requires
        forall|i: int| 0 <= i < x.len() ==> x[i] != sep,
    ensures
        split(x + seq![sep] + y, sep) == seq![x] + split(y, sep),
{
    let s = x + seq![sep] + y;
    assert(forall|i: int| 0 <= i < x.len() ==> s[i] == x[i]);
    lemma_next_char_shift(s, sep, 0, 0);
    lemma_next_char(s, sep, 0);
    let j = next_char(s, sep, 0);
    if j < x.len() {
        assert(s[j] == x[j]);
    }
    assert(s[x.len() as int] == sep);
    assert(j == x.len());
    assert(s.subrange(0, j) =~= x);
    lemma_split_from_shift(s, sep, x.len() + 1int, 0);
    assert(s.subrange(x.len() + 1int, s.len() as int) =~= y);
}

/// Splitting a sequence without `sep` gives the sequence alone.
pub proof fn lemma_split_single(x: Seq<char>, sep: char)
    requires
        forall|i: int| 0 <= i < x.len() ==> x[i] != sep,
    ensures
        split(x, sep) == seq![x],
{
    lemma_next_char(x, sep, 0);
    let j = next_char(x, sep, 0);
    if j < x.len() {
        assert(x[j] != sep);
    }
    assert(x.subrange(0, x.len() as int) =~= x);
}

} // verus!
