use vstd::prelude::*;
use vstd::utf8::{decode_utf8, valid_utf8};

use crate::numbers::{
    decimal, decimal_exec, drop_plus, is_digit, lemma_decimal_roundtrip, parse_unsigned,
    parse_unsigned_exec,
};
use crate::text::{
    ascii_lower, ascii_lower_char, ascii_lower_seq, ascii_lower_vec, lemma_skip_class,
    skip_class, skip_class_exec, starts_with, starts_with_vec, trim_class, trim_class_vec,
    trim_start_class, trim_start_class_vec, CharClass, bytes_match_at, chars_of, eq_ignore_case, eq_ignore_case_vec, extend_vec, find,
    find_bytes_from, find_chars, find_from, lemma_find_from_props, matches_at, lemma_split_concat, lemma_split_nonempty, lemma_split_single, lines,
    lines_vec, seqs_of, split, split_vec, split_whitespace, split_whitespace_vec, string_concat,
    string_from_str, string_of, subrange_vec, trim, trim_vec,
};

verus! {

/// A complete HTTP response as read from a connection.
pub struct HttpResponse {
    pub status_code: u16,
    pub headers: String,
    pub body: Vec<u8>,
}

/// An index, as an integer.
pub open spec fn opt_int(o: Option<usize>) -> Option<int> {
    match o {
        Some(k) => Some(k as int),
        None => None,
    }
}

/// Calls `std::str::from_utf8`: the text when `bytes` are valid UTF-8.
#[verifier::external_body]
pub(crate) fn utf8_text(bytes: &[u8]) -> (r: Option<String>)
    ensures
        r is Some <==> valid_utf8(bytes@),
        r matches Some(s) ==> s@ == decode_utf8(bytes@),
{
    std::str::from_utf8(bytes).ok().map(|s| s.to_string())
}

/// What `String::from_utf8_lossy` gives: the text, with ill-formed sequences replaced.
pub uninterp spec fn utf8_lossy(bytes: Seq<u8>) -> Seq<char>;

/// The text of `bytes`: decoded as it stands when it is valid UTF-8, else with ill-formed
/// sequences replaced as `String::from_utf8_lossy` does.
pub open spec fn lossy_text(bytes: Seq<u8>) -> Seq<char> {
    if valid_utf8(bytes) {
        decode_utf8(bytes)
    } else {
        utf8_lossy(bytes)
    }
}

/// Calls `String::from_utf8_lossy`; valid UTF-8 is decoded as it stands.
#[verifier::external_body]
pub(crate) fn utf8_lossy_text(bytes: &[u8]) -> (r: String)
    ensures
        r@ == utf8_lossy(bytes@),
        valid_utf8(bytes@) ==> r@ == decode_utf8(bytes@),
{
    String::from_utf8_lossy(bytes).into_owned()
}

/// The bytes that end the header section of a response.
pub open spec fn header_terminator() -> Seq<u8> {
    seq![13u8, 10u8, 13u8, 10u8]
}

/// The index of the first `\r\n\r\n` in `response`.
pub fn find_header_end(response: &[u8]) -> (r: Option<usize>)
    ensures
        opt_int(r) == find(response@, header_terminator()),
{
    let pat: [u8; 4] = [13, 10, 13, 10];
    assert(pat@ =~= header_terminator());
    find_bytes_from(response, &pat, 0)
}

/// Whether a status code asks the client to follow a `Location`.
pub open spec fn is_redirect_status(code: u16) -> bool {
    code == 301 || code == 302 || code == 303 || code == 307 || code == 308
}

/// Whether a status code asks the client to follow a `Location`.
pub fn is_redirect(status_code: u16) -> (r: bool)
    ensures
        r == is_redirect_status(status_code),
{
    status_code == 301 || status_code == 302 || status_code == 303 || status_code == 307
        || status_code == 308
}

/// What `parse_status_code` gives: the second word of the first line, as a `u16`.
pub open spec fn status_code_of(headers: Seq<char>) -> Result<u16, Seq<char>> {
    let ls = lines(headers);
    if ls.len() == 0 {
        Err("HTTP response missing status line"@)
    } else {
        let w = split_whitespace(ls[0]);
        if w.len() >= 2 && parse_unsigned(w[1], 10, 65535) is Some {
            Ok(parse_unsigned(w[1], 10, 65535).unwrap() as u16)
        } else {
            Err("invalid HTTP status line: "@ + ls[0])
        }
    }
}

/// A `Result` of the library, by the views of its values.
pub open spec fn result_view<T>(r: Result<T, String>) -> Result<T, Seq<char>> {
    match r {
        Ok(v) => Ok(v),
        Err(e) => Err(e@),
    }
}

/// Reads the status code from the status line of `headers`.
pub fn parse_status_code(headers: &str) -> (r: Result<u16, String>)
    ensures
        result_view(r) == status_code_of(headers@),
{
    let text = chars_of(headers);
    let ls = lines_vec(text.as_slice());
    if ls.len() == 0 {
        return Err(string_from_str("HTTP response missing status line"));
    }
    let first = &ls[0];
    assert(seqs_of(ls@)[0] == first@);
    let w = split_whitespace_vec(first.as_slice());
    if w.len() >= 2 {
        assert(seqs_of(w@)[1] == w@[1]@);
        match parse_unsigned_exec(w[1].as_slice(), 10, 65535) {
            Some(v) => {
                return Ok(v as u16);
            },
            None => {},
        }
    }
    let prefix = chars_of("invalid HTTP status line: ");
    Err(string_concat(prefix.as_slice(), first.as_slice()))
}

/// The value of header line `line` when its name is `name` (up to ASCII case).
pub open spec fn header_line_value(line: Seq<char>, name: Seq<char>) -> Option<Seq<char>> {
    match find(line, seq![':']) {
        Some(k) => if eq_ignore_case(trim(line.subrange(0, k)), name) {
            Some(trim(line.subrange(k + 1, line.len() as int)))
        } else {
            None
        },
        None => None,
    }
}

/// The value of the first of `ls[i..]` whose name is `name`.
pub open spec fn find_header(ls: Seq<Seq<char>>, name: Seq<char>, i: int) -> Option<Seq<char>>
    decreases ls.len() - i,
{
    if i < 0 || i >= ls.len() {
        None
    } else {
        match header_line_value(ls[i], name) {
            Some(v) => Some(v),
            None => find_header(ls, name, i + 1),
        }
    }
}

/// What `header_value` gives: the trimmed value of the first header line (after the status
/// line) whose trimmed name equals `name` up to ASCII case.
pub open spec fn header_value_of(headers: Seq<char>, name: Seq<char>) -> Option<Seq<char>> {
    find_header(lines(headers), name, 1)
}

/// The value of header `name` in `headers`, as the first line after the status line that
/// names it gives it.
pub fn header_value(headers: &str, name: &str) -> (r: Option<String>)
    ensures
        match r {
            Some(v) => header_value_of(headers@, name@) == Some(v@),
            None => header_value_of(headers@, name@) is None,
        },
{
    let text = chars_of(headers);
    let name_chars = chars_of(name);
    let ls = lines_vec(text.as_slice());
    let colon: [char; 1] = [':'];
    assert(colon@ =~= seq![':']);
    let mut i: usize = 1;
    while i < ls.len()
        invariant
            1 <= i,
            seqs_of(ls@) == lines(headers@),
            text@ == headers@,
            name_chars@ == name@,
            colon@ == seq![':'],
            header_value_of(headers@, name@) == find_header(seqs_of(ls@), name@, i as int),
        decreases ls@.len() - i,
    {
        let line = &ls[i];
        assert(seqs_of(ls@)[i as int] == line@);
        match find_chars(line.as_slice(), &colon) {
            Some(k) => {
                proof {
                    lemma_find_from_props(line@, seq![':'], 0);
                }
                assert(k < line.len());
                let key = subrange_vec(line.as_slice(), 0, k);
                let key_t = trim_vec(key.as_slice());
                if eq_ignore_case_vec(key_t.as_slice(), name_chars.as_slice()) {
                    let value = subrange_vec(line.as_slice(), k + 1, line.len());
                    let value_t = trim_vec(value.as_slice());
                    return Some(string_of(value_t.as_slice()));
                }
            },
            None => {},
        }
        i = i + 1;
    }
    None
}

} // verus!

verus! {

// ---------------------------------------------------------------------------
// Chunked transfer coding
// ---------------------------------------------------------------------------

/// `\r\n` as bytes.
pub open spec fn crlf() -> Seq<u8> {
    seq![13u8, 10u8]
}

/// The text of a chunk-size line: its UTF-8 decoding up to the first `;`, trimmed.
pub open spec fn chunk_size_text(line: Seq<u8>) -> Seq<char> {
    trim(split(decode_utf8(line), ';')[0])
}

/// Decoding a chunked body from `cursor` on, with `decoded` gathered so far.
/// `Ok(None)`: the body is not complete yet.
pub open spec fn chunked_from(body: Seq<u8>, cursor: int, decoded: Seq<u8>) -> Result<
    Option<Seq<u8>>,
    Seq<char>,
>
    decreases body.len() - cursor,
{
    if cursor < 0 || cursor > body.len() {
        Ok(None)
    } else {
        match find_from(body, crlf(), cursor) {
            None => Ok(None),
            Some(line_end) => {
                let line = body.subrange(cursor, line_end);
                if !valid_utf8(line) {
                    Err("chunk size is not UTF-8"@)
                } else {
                    let text = chunk_size_text(line);
                    match parse_unsigned(text, 16, usize::MAX as nat) {
                        None => Err("invalid chunk size: "@ + text),
                        Some(size) => {
                            let start = line_end + 2;
                            let end = start + size;
                            if size == 0 {
                                Ok(Some(decoded))
                            } else if end > usize::MAX {
                                Err("chunk size overflow"@)
                            } else if end + 2 > body.len() {
                                Ok(None)
                            } else if body.subrange(end, end + 2) != crlf() {
                                Err("chunk missing trailing CRLF"@)
                            } else if end + 2 <= cursor {
                                Ok(None)
                            } else {
                                chunked_from(body, end + 2, decoded + body.subrange(start, end))
                            }
                        },
                    }
                }
            },
        }
    }
}

/// What decoding a chunked body gives: the data of its chunks up to the last (empty) chunk;
/// `Ok(None)` while that chunk has not arrived.
pub open spec fn chunked_body(body: Seq<u8>) -> Result<Option<Seq<u8>>, Seq<char>> {
    chunked_from(body, 0, Seq::empty())
}

/// A decoding result of the library, by the views of its values.
pub open spec fn bytes_result_view(r: Result<Option<Vec<u8>>, String>) -> Result<
    Option<Seq<u8>>,
    Seq<char>,
> {
    match r {
        Ok(Some(v)) => Ok(Some(v@)),
        Ok(None) => Ok(None),
        Err(e) => Err(e@),
    }
}

/// Decodes a body in chunked transfer coding; `Ok(None)` when more bytes are needed.
pub fn try_decode_chunked_body(body: &[u8]) -> (r: Result<Option<Vec<u8>>, String>)
    ensures
        bytes_result_view(r) == chunked_body(body@),
{
    let mut decoded: Vec<u8> = Vec::new();
    let mut cursor: usize = 0;
    let crlf_arr: [u8; 2] = [13, 10];
    assert(crlf_arr@ =~= crlf());
    loop
        invariant
            cursor <= body@.len(),
            crlf_arr@ == crlf(),
            chunked_body(body@) == chunked_from(body@, cursor as int, decoded@),
        decreases body@.len() - cursor,
    {
        let line_end = match find_bytes_from(body, &crlf_arr, cursor) {
            Some(k) => k,
            None => {
                return Ok(None);
            },
        };
        proof {
            lemma_find_from_props(body@, crlf(), cursor as int);
        }
        assert(line_end + 2 <= body.len());
        let line = subrange_vec(body, cursor, line_end);
        let text = match utf8_text(line.as_slice()) {
            Some(t) => t,
            None => {
                return Err(string_from_str("chunk size is not UTF-8"));
            },
        };
        let chars = chars_of(text.as_str());
        let pieces = split_vec(chars.as_slice(), ';');
        proof {
            lemma_split_nonempty(chars@, ';', 0);
        }
        assert(seqs_of(pieces@)[0] == pieces@[0]@);
        let size_text = trim_vec(pieces[0].as_slice());
        assert(size_text@ == chunk_size_text(line@));
        let size = match parse_unsigned_exec(size_text.as_slice(), 16, usize::MAX as u64) {
            Some(v) => v as usize,
            None => {
                let prefix = chars_of("invalid chunk size: ");
                return Err(string_concat(prefix.as_slice(), size_text.as_slice()));
            },
        };
        let start = line_end + 2;
        if size == 0 {
            return Ok(Some(decoded));
        }
        if size > usize::MAX - start {
            return Err(string_from_str("chunk size overflow"));
        }
        let end = start + size;
        if end > body.len() || body.len() - end < 2 {
            return Ok(None);
        }
        let chunk = subrange_vec(body, start, end);
        if !bytes_match_at(body, &crlf_arr, end) {
            assert(body@.subrange(end as int, end + 2) != crlf());
            return Err(string_from_str("chunk missing trailing CRLF"));
        }
        extend_vec(&mut decoded, chunk.as_slice());
        cursor = end + 2;
    }
}

} // verus!

verus! {

// ---------------------------------------------------------------------------
// Addresses and host names
// ---------------------------------------------------------------------------

/// What `parse_ipv4` gives: exactly four `.`-separated parts, each a `u8` as `u8::from_str`
/// reads it.
pub open spec fn ipv4_of(s: Seq<char>) -> Option<Seq<u8>> {
    let parts = split(s, '.');
    if parts.len() == 4 && forall|i: int| 0 <= i < 4 ==> parse_unsigned(#[trigger] parts[i], 10, 255) is Some {
        Some(Seq::new(4, |i: int| parse_unsigned(parts[i], 10, 255).unwrap() as u8))
    } else {
        None
    }
}

/// Reads a dotted IPv4 address.
pub fn parse_ipv4(value: &str) -> (r: Option<[u8; 4]>)
    ensures
        match r {
            Some(a) => ipv4_of(value@) == Some(a@),
            None => ipv4_of(value@) is None,
        },
{
    let chars = chars_of(value);
    let parts = split_vec(chars.as_slice(), '.');
    if parts.len() != 4 {
        return None;
    }
    let mut out: [u8; 4] = [0, 0, 0, 0];
    let mut i: usize = 0;
    while i < 4
        invariant
            parts@.len() == 4,
            seqs_of(parts@) == split(value@, '.'),
            i <= 4,
            forall|k: int| 0 <= k < i ==> parse_unsigned(#[trigger] split(value@, '.')[k], 10, 255) == Some(out@[k] as nat),
        decreases 4 - i,
    {
        assert(seqs_of(parts@)[i as int] == parts@[i as int]@);
        match parse_unsigned_exec(parts[i].as_slice(), 10, 255) {
            Some(v) => {
                out[i] = v as u8;
            },
            None => {
                return None;
            },
        }
        i = i + 1;
    }
    assert(Seq::new(4, |k: int| parse_unsigned(split(value@, '.')[k], 10, 255).unwrap() as u8)
        =~= out@);
    Some(out)
}

/// The dotted writing of an IPv4 address.
pub open spec fn ipv4_text(a: Seq<u8>) -> Seq<char> {
    decimal(a[0] as nat) + seq!['.'] + decimal(a[1] as nat) + seq!['.'] + decimal(a[2] as nat)
        + seq!['.'] + decimal(a[3] as nat)
}

/// Writes an IPv4 address in dotted decimal.
pub fn format_ipv4(addr: [u8; 4]) -> (r: String)
    ensures
        r@ == ipv4_text(addr@),
{
    let mut v = decimal_exec(addr[0] as u64);
    let mut k: usize = 1;
    while k < 4
        invariant
            1 <= k <= 4,
            v@ == if k == 1 {
                decimal(addr@[0] as nat)
            } else if k == 2 {
                decimal(addr@[0] as nat) + seq!['.'] + decimal(addr@[1] as nat)
            } else if k == 3 {
                decimal(addr@[0] as nat) + seq!['.'] + decimal(addr@[1] as nat) + seq!['.']
                    + decimal(addr@[2] as nat)
            } else {
                ipv4_text(addr@)
            },
        decreases 4 - k,
    {
        v.push('.');
        let d = decimal_exec(addr[k] as u64);
        extend_vec(&mut v, d.as_slice());
        k = k + 1;
    }
    string_of(v.as_slice())
}

/// An ASCII letter or digit.
pub open spec fn is_ascii_alnum(c: char) -> bool {
    ('a' <= c <= 'z') || ('A' <= c <= 'Z') || ('0' <= c <= '9')
}

/// A label of a host name: 1 to 63 characters, ASCII letters, digits and `-`, not beginning
/// or ending with `-`.
pub open spec fn valid_label(l: Seq<char>) -> bool {
    &&& 1 <= l.len() <= 63
    &&& l[0] != '-'
    &&& l.last() != '-'
    &&& forall|i: int| 0 <= i < l.len() ==> is_ascii_alnum(#[trigger] l[i]) || l[i] == '-'
}

/// `s` without its trailing `.` characters.
pub open spec fn trim_end_dots(s: Seq<char>) -> Seq<char>
    decreases s.len(),
{
    if s.len() > 0 && s.last() == '.' {
        trim_end_dots(s.drop_last())
    } else {
        s
    }
}

/// What `is_valid_hostname` gives: 1 to 253 characters, and after dropping the final dots,
/// every `.`-separated label valid.
pub open spec fn valid_hostname(h: Seq<char>) -> bool {
    &&& 1 <= h.len() <= 253
    &&& forall|i: int|
        0 <= i < split(trim_end_dots(h), '.').len() ==> valid_label(
            #[trigger] split(trim_end_dots(h), '.')[i],
        )
}

fn is_ascii_alnum_exec(c: char) -> (r: bool)
    ensures
        r == is_ascii_alnum(c),
{
    ('a' <= c && c <= 'z') || ('A' <= c && c <= 'Z') || ('0' <= c && c <= '9')
}

fn valid_label_exec(l: &[char]) -> (r: bool)
    ensures
        r == valid_label(l@),
{
    if l.len() == 0 || l.len() > 63 || l[0] == '-' || l[l.len() - 1] == '-' {
        return false;
    }
    let mut i: usize = 0;
    while i < l.len()
        invariant
            i <= l@.len(),
            forall|k: int| 0 <= k < i ==> is_ascii_alnum(#[trigger] l@[k]) || l@[k] == '-',
        decreases l@.len() - i,
    {
        if !(is_ascii_alnum_exec(l[i]) || l[i] == '-') {
            return false;
        }
        i = i + 1;
    }
    true
}

/// Whether `host` is a syntactically valid DNS host name. The length limit is on the text
/// as written; a name with a character outside ASCII is refused whatever its length.
pub fn is_valid_hostname(host: &str) -> (r: bool)
    ensures
        r == valid_hostname(host@),
{
    let chars = chars_of(host);
    if chars.len() == 0 || chars.len() > 253 {
        return false;
    }
    let mut end = chars.len();
    assert(chars@.subrange(0, end as int) =~= chars@);
    while end > 0 && chars[end - 1] == '.'
        invariant
            end <= chars@.len(),
            trim_end_dots(chars@) == trim_end_dots(chars@.subrange(0, end as int)),
        decreases end,
    {
        assert(chars@.subrange(0, end as int).drop_last() =~= chars@.subrange(0, end - 1));
        end = end - 1;
    }
    let trimmed = subrange_vec(chars.as_slice(), 0, end);
    assert(trim_end_dots(chars@.subrange(0, end as int)) == chars@.subrange(0, end as int));
    let labels = split_vec(trimmed.as_slice(), '.');
    let mut i: usize = 0;
    while i < labels.len()
        invariant
            seqs_of(labels@) == split(trim_end_dots(host@), '.'),
            i <= labels@.len(),
            forall|k: int| 0 <= k < i ==> valid_label(#[trigger] split(trim_end_dots(host@), '.')[k]),
        decreases labels@.len() - i,
    {
        assert(seqs_of(labels@)[i as int] == labels@[i as int]@);
        if !valid_label_exec(labels[i].as_slice()) {
            return false;
        }
        i = i + 1;
    }
    true
}

} // verus!

verus! {

proof fn lemma_decimal_part(n: nat)
    requires
        n <= 255,
    ensures
        parse_unsigned(decimal(n), 10, 255) == Some(n),
        forall|i: int| 0 <= i < decimal(n).len() ==> decimal(n)[i] != '.',
{
    lemma_decimal_roundtrip(n);
    let d = decimal(n);
    assert(drop_plus(d) == d);
    assert forall|i: int| 0 <= i < d.len() implies d[i] != '.' by {
        assert(is_digit(d[i]));
    }
}

/// Law: reading back the dotted writing of an IPv4 address gives the address.
pub proof fn ipv4_format_parse_roundtrip(a: Seq<u8>)
    requires
        a.len() == 4,
    ensures
        ipv4_of(ipv4_text(a)) == Some(a),
{
    let d0 = decimal(a[0] as nat);
    let d1 = decimal(a[1] as nat);
    let d2 = decimal(a[2] as nat);
    let d3 = decimal(a[3] as nat);
    lemma_decimal_part(a[0] as nat);
    lemma_decimal_part(a[1] as nat);
    lemma_decimal_part(a[2] as nat);
    lemma_decimal_part(a[3] as nat);
    let dot = seq!['.'];
    let t3 = d2 + dot + d3;
    let t2 = d1 + dot + t3;
    let t1 = d0 + dot + t2;
    assert(ipv4_text(a) =~= t1);
    lemma_split_concat(d0, '.', t2);
    lemma_split_concat(d1, '.', t3);
    lemma_split_concat(d2, '.', d3);
    lemma_split_single(d3, '.');
    let parts = split(t1, '.');
    assert(parts =~= seq![d0, d1, d2, d3]);
    assert(Seq::new(4, |i: int| parse_unsigned(parts[i], 10, 255).unwrap() as u8) =~= a);
}

} // verus!

verus! {

/// What `parse_resolver_response` gives: the addresses after `OK `, or the resolver's
/// message after `ERR `.
pub open spec fn resolver_answer(response: Seq<u8>) -> Result<Seq<Seq<u8>>, Seq<char>> {
    if !valid_utf8(response) {
        Err("resolver response is not UTF-8"@)
    } else {
        let text = trim(decode_utf8(response));
        if !starts_with(text, "OK "@) {
            if starts_with(text, "ERR "@) {
                Err(text.subrange(4, text.len() as int))
            } else {
                Err("resolver error"@)
            }
        } else {
            let items = split_whitespace(text.subrange(3, text.len() as int));
            if exists|i: int| 0 <= i < items.len() && ipv4_of(#[trigger] items[i]) is None {
                Err("resolver returned invalid IPv4"@)
            } else if items.len() == 0 {
                Err("resolver returned no addresses"@)
            } else {
                Ok(items.map_values(|it: Seq<char>| ipv4_of(it).unwrap()))
            }
        }
    }
}

/// The addresses of a list, as sequences of bytes.
pub open spec fn addrs_view(v: Seq<[u8; 4]>) -> Seq<Seq<u8>> {
    v.map_values(|a: [u8; 4]| a@)
}

/// Reads the resolver daemon's answer: `OK` and addresses, or `ERR` and a message.
pub fn parse_resolver_response(response: &[u8]) -> (r: Result<Vec<[u8; 4]>, String>)
    ensures
        match r {
            Ok(v) => resolver_answer(response@) == Ok::<Seq<Seq<u8>>, Seq<char>>(addrs_view(v@)),
            Err(e) => resolver_answer(response@) == Err::<Seq<Seq<u8>>, Seq<char>>(e@),
        },
{
    let text = match utf8_text(response) {
        Some(t) => t,
        None => {
            return Err(string_from_str("resolver response is not UTF-8"));
        },
    };
    let chars = chars_of(text.as_str());
    let t = trim_vec(chars.as_slice());
    let ok = chars_of("OK ");
    proof {
        reveal_strlit("OK ");
        reveal_strlit("ERR ");
    }
    if !starts_with_vec(t.as_slice(), ok.as_slice()) {
        let err = chars_of("ERR ");
        if starts_with_vec(t.as_slice(), err.as_slice()) {
            let rest = subrange_vec(t.as_slice(), 4, t.len());
            return Err(string_of(rest.as_slice()));
        }
        return Err(string_from_str("resolver error"));
    }
    let rest = subrange_vec(t.as_slice(), 3, t.len());
    assert(t@ == trim(decode_utf8(response@)));
    let items = split_whitespace_vec(rest.as_slice());
    let mut addrs: Vec<[u8; 4]> = Vec::new();
    let mut i: usize = 0;
    while i < items.len()
        invariant
            i <= items@.len(),
            seqs_of(items@) == split_whitespace(rest@),
            valid_utf8(response@),
            starts_with(trim(decode_utf8(response@)), "OK "@),
            rest@ == trim(decode_utf8(response@)).subrange(
                3,
                trim(decode_utf8(response@)).len() as int,
            ),
            addrs@.len() == i,
            forall|k: int| 0 <= k < i ==> ipv4_of(#[trigger] seqs_of(items@)[k]) == Some(addrs@[k]@),
        decreases items@.len() - i,
    {
        assert(seqs_of(items@)[i as int] == items@[i as int]@);
        let item_text = string_of(items[i].as_slice());
        match parse_ipv4(item_text.as_str()) {
            Some(a) => {
                addrs.push(a);
            },
            None => {
                assert(ipv4_of(seqs_of(items@)[i as int]) is None);
                return Err(string_from_str("resolver returned invalid IPv4"));
            },
        }
        i = i + 1;
    }
    if addrs.len() == 0 {
        return Err(string_from_str("resolver returned no addresses"));
    }
    assert(addrs_view(addrs@) =~= seqs_of(items@).map_values(
        |it: Seq<char>| ipv4_of(it).unwrap(),
    ));
    Ok(addrs)
}

// ---------------------------------------------------------------------------
// Character sets
// ---------------------------------------------------------------------------

/// What `ascii_lowercase` gives: ASCII bytes lower-cased as characters, others as spaces.
pub open spec fn lowercase_ascii_text(bytes: Seq<u8>) -> Seq<char> {
    Seq::new(bytes.len(), |i: int| if bytes[i] < 128 { ascii_lower(bytes[i] as char) } else { ' ' })
}

/// The bytes as lower-case ASCII text, with a space for each non-ASCII byte.
pub fn ascii_lowercase(bytes: &[u8]) -> (r: String)
    ensures
        r@ == lowercase_ascii_text(bytes@),
{
    let mut v: Vec<char> = Vec::new();
    let mut i: usize = 0;
    while i < bytes.len()
        invariant
            i <= bytes@.len(),
            v@ == lowercase_ascii_text(bytes@).subrange(0, i as int),
        decreases bytes@.len() - i,
    {
        let b = bytes[i];
        if b < 128 {
            v.push(ascii_lower_char(b as char));
        } else {
            v.push(' ');
        }
        i = i + 1;
        assert(v@ =~= lowercase_ascii_text(bytes@).subrange(0, i as int));
    }
    assert(lowercase_ascii_text(bytes@).subrange(0, i as int) =~= lowercase_ascii_text(bytes@));
    string_of(v.as_slice())
}

/// What `clean_charset_label` gives: trimmed, unquoted, ASCII lower-cased.
pub open spec fn clean_label(label: Seq<char>) -> Seq<char> {
    ascii_lower_seq(trim_class(trim(label), CharClass::Quote))
}

/// Trims a charset label, removes quotes around it and lower-cases it.
pub fn clean_charset_label(label: &str) -> (r: String)
    ensures
        r@ == clean_label(label@),
{
    let chars = chars_of(label);
    let v = clean_label_vec(chars.as_slice());
    string_of(v.as_slice())
}

fn clean_label_vec(label: &[char]) -> (r: Vec<char>)
    ensures
        r@ == clean_label(label@),
{
    let t = trim_vec(label);
    let u = trim_class_vec(t.as_slice(), CharClass::Quote);
    ascii_lower_vec(u.as_slice())
}

/// What `read_charset_after` gives: after spaces and quotes, the run of label characters,
/// cleaned; nothing when that is empty.
pub open spec fn charset_after(input: Seq<char>) -> Option<Seq<char>> {
    let t = trim_start_class(input, CharClass::SpaceOrQuote);
    let label = t.subrange(0, skip_class(t, CharClass::LabelChar, 0));
    let cleaned = clean_label(label);
    if cleaned.len() == 0 {
        None
    } else {
        Some(cleaned)
    }
}

/// Reads the charset label that begins `input`.
pub fn read_charset_after(input: &str) -> (r: Option<String>)
    ensures
        match r {
            Some(s) => charset_after(input@) == Some(s@),
            None => charset_after(input@) is None,
        },
{
    let chars = chars_of(input);
    match charset_after_vec(chars.as_slice()) {
        Some(v) => Some(string_of(v.as_slice())),
        None => None,
    }
}

fn charset_after_vec(input: &[char]) -> (r: Option<Vec<char>>)
    ensures
        match r {
            Some(s) => charset_after(input@) == Some(s@),
            None => charset_after(input@) is None,
        },
{
    let t = trim_start_class_vec(input, CharClass::SpaceOrQuote);
    let end = skip_class_exec(t.as_slice(), CharClass::LabelChar, 0);
    proof {
        lemma_skip_class(t@, CharClass::LabelChar, 0);
    }
    let label = subrange_vec(t.as_slice(), 0, end);
    let cleaned = clean_label_vec(label.as_slice());
    if cleaned.len() == 0 {
        None
    } else {
        Some(cleaned)
    }
}

/// The charset parameter of the first `;`-separated part of a content type, from index `i`,
/// that has the form `name=value` with the name `charset`.
pub open spec fn charset_param(parts: Seq<Seq<char>>, i: int) -> Option<Seq<char>>
    decreases parts.len() - i,
{
    if i < 0 || i >= parts.len() {
        None
    } else {
        let p = trim(parts[i]);
        match find(p, seq!['=']) {
            Some(k) => if eq_ignore_case(trim(p.subrange(0, k)), "charset"@) {
                Some(p.subrange(k + 1, p.len() as int))
            } else {
                charset_param(parts, i + 1)
            },
            None => charset_param(parts, i + 1),
        }
    }
}

/// What `charset_from_content_type` gives: the cleaned charset parameter, unless empty.
pub open spec fn content_type_charset(content_type: Seq<char>) -> Option<Seq<char>> {
    match charset_param(split(content_type, ';'), 0) {
        Some(v) => if clean_label(v).len() > 0 {
            Some(clean_label(v))
        } else {
            None
        },
        None => None,
    }
}

/// The charset that a `Content-Type` value names.
pub fn charset_from_content_type(content_type: &str) -> (r: Option<String>)
    ensures
        match r {
            Some(s) => content_type_charset(content_type@) == Some(s@),
            None => content_type_charset(content_type@) is None,
        },
{
    let chars = chars_of(content_type);
    let parts = split_vec(chars.as_slice(), ';');
    let eq: [char; 1] = ['='];
    assert(eq@ =~= seq!['=']);
    let charset = chars_of("charset");
    let mut i: usize = 0;
    while i < parts.len()
        invariant
            i <= parts@.len(),
            seqs_of(parts@) == split(content_type@, ';'),
            eq@ == seq!['='],
            charset@ == "charset"@,
            charset_param(split(content_type@, ';'), 0) == charset_param(
                split(content_type@, ';'),
                i as int,
            ),
        decreases parts@.len() - i,
    {
        assert(seqs_of(parts@)[i as int] == parts@[i as int]@);
        let p = trim_vec(parts[i].as_slice());
        match find_chars(p.as_slice(), &eq) {
            Some(k) => {
                proof {
                    lemma_find_from_props(p@, seq!['='], 0);
                }
                assert(k < p.len());
                let name = subrange_vec(p.as_slice(), 0, k);
                let name_t = trim_vec(name.as_slice());
                if eq_ignore_case_vec(name_t.as_slice(), charset.as_slice()) {
                    let value = subrange_vec(p.as_slice(), k + 1, p.len());
                    let cleaned = clean_label_vec(value.as_slice());
                    if cleaned.len() == 0 {
                        return None;
                    }
                    return Some(string_of(cleaned.as_slice()));
                }
            },
            None => {},
        }
        i = i + 1;
    }
    None
}

/// What `charset_from_meta` gives: the label after the first `charset=` in the first 4096
/// bytes, read as lower-case ASCII.
pub open spec fn meta_charset(bytes: Seq<u8>) -> Option<Seq<char>> {
    let limit = if bytes.len() < 4096 { bytes.len() as int } else { 4096 };
    let head = lowercase_ascii_text(bytes.subrange(0, limit));
    match find(head, "charset="@) {
        Some(pos) => charset_after(head.subrange(pos + 8, head.len() as int)),
        None => None,
    }
}

/// The charset that a document declares near its beginning.
pub fn charset_from_meta(bytes: &[u8]) -> (r: Option<String>)
    ensures
        match r {
            Some(s) => meta_charset(bytes@) == Some(s@),
            None => meta_charset(bytes@) is None,
        },
{
    let limit = if bytes.len() < 4096 {
        bytes.len()
    } else {
        4096
    };
    let head_bytes = subrange_vec(bytes, 0, limit);
    let head_text = ascii_lowercase(head_bytes.as_slice());
    let head = chars_of(head_text.as_str());
    let pat = chars_of("charset=");
    proof {
        reveal_strlit("charset=");
    }
    match find_chars(head.as_slice(), pat.as_slice()) {
        Some(pos) => {
            proof {
                lemma_find_from_props(head@, pat@, 0);
            }
            assert(pos + 8 <= head.len());
            let rest = subrange_vec(head.as_slice(), pos + 8, head.len());
            match charset_after_vec(rest.as_slice()) {
                Some(v) => Some(string_of(v.as_slice())),
                None => None,
            }
        },
        None => None,
    }
}

} // verus!

verus! {

// ---------------------------------------------------------------------------
// Decoding documents
// ---------------------------------------------------------------------------

/// What `encoding_rs` gives for the encoding that `label` names (`Encoding::for_label`) and
/// `bytes` decoded in it (`Encoding::decode`): the text, whether malformed sequences were
/// replaced, and the encoding's name; nothing when no encoding has that label.
pub uninterp spec fn labeled_decoding(label: Seq<char>, bytes: Seq<u8>) -> Option<
    (Seq<char>, bool, Seq<char>),
>;

/// Labels that the WHATWG Encoding Standard, which `encoding_rs` implements, lists.
pub open spec fn is_standard_label(label: Seq<char>) -> bool {
    label == "utf-8"@ || label == "utf-16le"@ || label == "utf-16be"@ || label
        == "windows-1252"@
}

/// Calls `encoding_rs::Encoding::for_label` on the label's bytes and `Encoding::decode` with
/// the encoding found, and takes the encoding's `name`; the contract names the result and
/// states that the four labels of `is_standard_label` are known. What the text is for given
/// bytes is left unsaid.
#[verifier::external_body]
fn decode_in_labeled_encoding(label: &str, bytes: &[u8]) -> (r: Option<(String, bool, String)>)
    ensures
        match r {
            Some((t, errors, name)) => labeled_decoding(label@, bytes@) == Some(
                (t@, errors, name@),
            ),
            None => labeled_decoding(label@, bytes@) is None,
        },
        is_standard_label(label@) ==> r is Some,
{
    encoding_rs::Encoding::for_label(label.as_bytes()).map(
        |enc| {
            let (text, _, had_errors) = enc.decode(bytes);
            (text.into_owned(), had_errors, enc.name().to_string())
        },
    )
}

/// A decoding turned into the document text: malformed UTF-8 is refused.
pub open spec fn decoded_text(d: Option<(Seq<char>, bool, Seq<char>)>) -> Result<Seq<char>, Seq<char>> {
    match d {
        Some((t, errors, name)) => if errors && name == "UTF-8"@ {
            Err("decode body: invalid UTF-8"@)
        } else {
            Ok(t)
        },
        None => Ok(Seq::empty()),
    }
}

/// The UTF-8 byte order mark.
pub open spec fn bom_utf8() -> Seq<u8> {
    seq![0xEFu8, 0xBBu8, 0xBFu8]
}

/// The UTF-16 little-endian byte order mark.
pub open spec fn bom_utf16le() -> Seq<u8> {
    seq![0xFFu8, 0xFEu8]
}

/// The UTF-16 big-endian byte order mark.
pub open spec fn bom_utf16be() -> Seq<u8> {
    seq![0xFEu8, 0xFFu8]
}

/// The charset label that a document declares: that of the content type, else that of the
/// document's beginning.
pub open spec fn declared_charset(bytes: Seq<u8>, content_type: Option<Seq<char>>) -> Option<
    Seq<char>,
> {
    let from_type = match content_type {
        Some(ct) => content_type_charset(ct),
        None => None,
    };
    match from_type {
        Some(l) => Some(l),
        None => meta_charset(bytes),
    }
}

/// What `decode_html_bytes` gives: a byte order mark decides the encoding and is dropped;
/// else the declared charset when `encoding_rs` knows it, else windows-1252.
pub open spec fn html_text(bytes: Seq<u8>, content_type: Option<Seq<char>>) -> Result<
    Seq<char>,
    Seq<char>,
> {
    if matches_at(bytes, bom_utf8(), 0) {
        decoded_text(labeled_decoding("utf-8"@, bytes.subrange(3, bytes.len() as int)))
    } else if matches_at(bytes, bom_utf16le(), 0) {
        decoded_text(labeled_decoding("utf-16le"@, bytes.subrange(2, bytes.len() as int)))
    } else if matches_at(bytes, bom_utf16be(), 0) {
        decoded_text(labeled_decoding("utf-16be"@, bytes.subrange(2, bytes.len() as int)))
    } else {
        let d = match declared_charset(bytes, content_type) {
            Some(l) => labeled_decoding(l, bytes),
            None => None,
        };
        match d {
            Some(x) => decoded_text(Some(x)),
            None => decoded_text(labeled_decoding("windows-1252"@, bytes)),
        }
    }
}

/// A text result of the library, by the views of its values.
pub open spec fn text_result_view(r: Result<String, String>) -> Result<Seq<char>, Seq<char>> {
    match r {
        Ok(v) => Ok(v@),
        Err(e) => Err(e@),
    }
}

/// An optional text, by its view.
pub open spec fn opt_text(o: Option<&str>) -> Option<Seq<char>> {
    match o {
        Some(s) => Some(s@),
        None => None,
    }
}

fn is_utf8_name(name: &str) -> (r: bool)
    ensures
        r == (name@ == "UTF-8"@),
{
    let c = chars_of(name);
    crate::text::is_word(c.as_slice(), "UTF-8")
}

fn decode_labeled_text(label: &str, bytes: &[u8]) -> (r: Result<String, String>)
    requires
        is_standard_label(label@),
    ensures
        text_result_view(r) == decoded_text(labeled_decoding(label@, bytes@)),
{
    match decode_in_labeled_encoding(label, bytes) {
        Some((t, errors, name)) => if errors && is_utf8_name(name.as_str()) {
            Err(string_from_str("decode body: invalid UTF-8"))
        } else {
            Ok(t)
        },
        None => Ok(String::new()),
    }
}

/// Decodes a fetched document into text, as its byte order mark, content type or declared
/// charset asks.
pub fn decode_html_bytes(bytes: &[u8], content_type: Option<&str>) -> (r: Result<String, String>)
    ensures
        text_result_view(r) == html_text(bytes@, opt_text(content_type)),
{
    proof {
        reveal_strlit("utf-8");
        reveal_strlit("utf-16le");
        reveal_strlit("utf-16be");
        reveal_strlit("windows-1252");
    }
    let b8: [u8; 3] = [0xEF, 0xBB, 0xBF];
    let ble: [u8; 2] = [0xFF, 0xFE];
    let bbe: [u8; 2] = [0xFE, 0xFF];
    assert(b8@ =~= bom_utf8());
    assert(ble@ =~= bom_utf16le());
    assert(bbe@ =~= bom_utf16be());
    if bytes_match_at(bytes, &b8, 0) {
        let rest = subrange_vec(bytes, 3, bytes.len());
        return decode_labeled_text("utf-8", rest.as_slice());
    }
    if bytes_match_at(bytes, &ble, 0) {
        let rest = subrange_vec(bytes, 2, bytes.len());
        return decode_labeled_text("utf-16le", rest.as_slice());
    }
    if bytes_match_at(bytes, &bbe, 0) {
        let rest = subrange_vec(bytes, 2, bytes.len());
        return decode_labeled_text("utf-16be", rest.as_slice());
    }
    let from_type = match content_type {
        Some(ct) => charset_from_content_type(ct),
        None => None,
    };
    let label = match from_type {
        Some(l) => Some(l),
        None => charset_from_meta(bytes),
    };
    let decoded = match label {
        Some(l) => decode_in_labeled_encoding(l.as_str(), bytes),
        None => None,
    };
    match decoded {
        Some((t, errors, name)) => if errors && is_utf8_name(name.as_str()) {
            Err(string_from_str("decode body: invalid UTF-8"))
        } else {
            Ok(t)
        },
        None => decode_labeled_text("windows-1252", bytes),
    }
}

// ---------------------------------------------------------------------------
// Requests and responses
// ---------------------------------------------------------------------------

/// The text of a `GET` request for `path` on `host`.
pub open spec fn get_request_text(path: Seq<char>, host: Seq<char>) -> Seq<char> {
    "GET "@ + path + " HTTP/1.1\r\nHost: "@ + host
        + "\r\nConnection: close\r\nUser-Agent: carmine/0.1\r\nAccept: */*\r\n\r\n"@
}

/// Builds the text of a `GET` request for `path` with the `Host` header `host_header`.
pub fn http_get_request(path: &str, host_header: &str) -> (r: String)
    ensures
        r@ == get_request_text(path@, host_header@),
{
    let mut v = chars_of("GET ");
    let p = chars_of(path);
    extend_vec(&mut v, p.as_slice());
    let m = chars_of(" HTTP/1.1\r\nHost: ");
    extend_vec(&mut v, m.as_slice());
    let h = chars_of(host_header);
    extend_vec(&mut v, h.as_slice());
    let e = chars_of("\r\nConnection: close\r\nUser-Agent: carmine/0.1\r\nAccept: */*\r\n\r\n");
    extend_vec(&mut v, e.as_slice());
    string_of(v.as_slice())
}

/// How far a response is read: `Ok(Some((status, headers, body)))` when complete, `Ok(None)`
/// when more bytes are needed; `finished` says the connection has no more bytes to give.
pub open spec fn response_progress(raw: Seq<u8>, finished: bool) -> Result<
    Option<(u16, Seq<char>, Seq<u8>)>,
    Seq<char>,
> {
    match find(raw, header_terminator()) {
        None => if finished {
            Err("HTTP response ended before headers completed"@)
        } else {
            Ok(None)
        },
        Some(he) => {
            let headers = lossy_text(raw.subrange(0, he));
            match status_code_of(headers) {
                Err(e) => Err(e),
                Ok(status) => {
                    let body = raw.subrange(he + 4, raw.len() as int);
                    let te = header_value_of(headers, "transfer-encoding"@);
                    if te is Some && find(ascii_lower_seq(te.unwrap()), "chunked"@) is Some {
                        match chunked_body(body) {
                            Err(e) => Err(e),
                            Ok(Some(d)) => Ok(Some((status, headers, d))),
                            Ok(None) => if finished {
                                Err("chunked response ended before final chunk"@)
                            } else {
                                Ok(None)
                            },
                        }
                    } else {
                        match header_value_of(headers, "content-length"@) {
                            Some(len_text) => match parse_unsigned(
                                len_text,
                                10,
                                usize::MAX as nat,
                            ) {
                                None => Err("invalid Content-Length: "@ + len_text),
                                Some(n) => if body.len() >= n {
                                    Ok(Some((status, headers, body.subrange(0, n as int))))
                                } else if finished {
                                    Err(
                                        "HTTP response ended before Content-Length was satisfied"@,
                                    )
                                } else {
                                    Ok(None)
                                },
                            },
                            None => if finished {
                                Ok(Some((status, headers, body)))
                            } else {
                                Ok(None)
                            },
                        }
                    }
                },
            }
        },
    }
}

/// A response of the library, by the views of its values.
pub open spec fn progress_view(r: Result<Option<HttpResponse>, String>) -> Result<
    Option<(u16, Seq<char>, Seq<u8>)>,
    Seq<char>,
> {
    match r {
        Ok(Some(resp)) => Ok(Some((resp.status_code, resp.headers@, resp.body@))),
        Ok(None) => Ok(None),
        Err(e) => Err(e@),
    }
}

/// Decides, from the bytes of a response read so far, whether it is complete, needs more
/// bytes, or is malformed. `finished` tells that the connection has ended.
pub fn read_http_response(raw: &[u8], finished: bool) -> (r: Result<Option<HttpResponse>, String>)
    ensures
        progress_view(r) == response_progress(raw@, finished),
{
    let header_end = match find_header_end(raw) {
        Some(he) => he,
        None => {
            if finished {
                return Err(string_from_str("HTTP response ended before headers completed"));
            }
            return Ok(None);
        },
    };
    proof {
        lemma_find_from_props(raw@, header_terminator(), 0);
    }
    assert(header_end + 4 <= raw.len());
    let head = subrange_vec(raw, 0, header_end);
    let headers = utf8_lossy_text(head.as_slice());
    let status_code = match parse_status_code(headers.as_str()) {
        Ok(c) => c,
        Err(e) => {
            return Err(e);
        },
    };
    let body = subrange_vec(raw, header_end + 4, raw.len());
    let chunked = match header_value(headers.as_str(), "transfer-encoding") {
        Some(te) => {
            let tc = chars_of(te.as_str());
            let lower = ascii_lower_vec(tc.as_slice());
            let pat = chars_of("chunked");
            find_chars(lower.as_slice(), pat.as_slice()).is_some()
        },
        None => false,
    };
    if chunked {
        return match try_decode_chunked_body(body.as_slice()) {
            Err(e) => Err(e),
            Ok(Some(d)) => Ok(Some(HttpResponse { status_code, headers, body: d })),
            Ok(None) => if finished {
                Err(string_from_str("chunked response ended before final chunk"))
            } else {
                Ok(None)
            },
        };
    }
    match header_value(headers.as_str(), "content-length") {
        Some(len_text) => {
            let lc = chars_of(len_text.as_str());
            match parse_unsigned_exec(lc.as_slice(), 10, usize::MAX as u64) {
                None => {
                    let prefix = chars_of("invalid Content-Length: ");
                    Err(string_concat(prefix.as_slice(), lc.as_slice()))
                },
                Some(n) => {
                    let n = n as usize;
                    if body.len() >= n {
                        let b = subrange_vec(body.as_slice(), 0, n);
                        Ok(Some(HttpResponse { status_code, headers, body: b }))
                    } else if finished {
                        Err(
                            string_from_str(
                                "HTTP response ended before Content-Length was satisfied",
                            ),
                        )
                    } else {
                        Ok(None)
                    }
                },
            }
        },
        None => if finished {
            Ok(Some(HttpResponse { status_code, headers, body }))
        } else {
            Ok(None)
        },
    }
}

} // verus!

verus! {

/// A way to fetch a resource by URL, as text or as bytes; errors are described in words.
pub trait HttpBackend: Send + Sync {
    fn fetch_text(&self, url: &str) -> Result<String, String>;

    fn fetch_bytes(&self, url: &str) -> Result<Vec<u8>, String>;
}

} // verus!

verus! {

// ---------------------------------------------------------------------------
// Requests and redirects
// ---------------------------------------------------------------------------

/// The request target for a URL with this path and query: the path (`/` when empty), then
/// `?` and the query when there is one.
pub open spec fn target_of(path: Seq<char>, query: Option<Seq<char>>) -> Seq<char> {
    let p = if path.len() == 0 {
        "/"@
    } else {
        path
    };
    match query {
        Some(q) => p + "?"@ + q,
        None => p,
    }
}

pub fn request_target(path: &str, query: Option<&str>) -> (r: String)
    ensures
        r@ == target_of(
            path@,
            match query {
                Some(q) => Some(q@),
                None => None,
            },
        ),
{
    let p = chars_of(path);
    let mut out = if p.len() == 0 {
        chars_of("/")
    } else {
        p
    };
    proof {
        reveal_strlit("?");
    }
    let ghost p0 = out@;
    if let Some(q) = query {
        out.push('?');
        let qc = chars_of(q);
        crate::text::extend_vec(&mut out, qc.as_slice());
        assert(out@ =~= p0 + "?"@ + q@);
    }
    string_of(out.as_slice())
}

/// The `Host` header for a URL: `host:port` when the URL names its port, else the host.
pub open spec fn host_header_text(host: Seq<char>, port: u16, explicit_port: bool) -> Seq<char> {
    if explicit_port {
        host + ":"@ + crate::numbers::decimal(port as nat)
    } else {
        host
    }
}

pub fn host_header(host: &str, port: u16, explicit_port: bool) -> (r: String)
    ensures
        r@ == host_header_text(host@, port, explicit_port),
{
    let mut out = chars_of(host);
    proof {
        reveal_strlit(":");
    }
    if explicit_port {
        out.push(':');
        let d = crate::numbers::decimal_exec(port as u64);
        crate::text::extend_vec(&mut out, d.as_slice());
        assert(out@ =~= host@ + ":"@ + crate::numbers::decimal(port as nat));
    }
    string_of(out.as_slice())
}

/// The most redirects followed for one fetch.
pub const MAX_REDIRECTS: usize = 8;

/// What to do with a response: follow a redirect to a location, accept it, or fail.
#[derive(Debug)]
pub enum FetchStep {
    Follow(String),
    Done,
    Fail(String),
}

pub enum FetchStepView {
    Follow(Seq<char>),
    Done,
    Fail(Seq<char>),
}

pub open spec fn fetch_step_view(s: FetchStep) -> FetchStepView {
    match s {
        FetchStep::Follow(l) => FetchStepView::Follow(l@),
        FetchStep::Done => FetchStepView::Done,
        FetchStep::Fail(e) => FetchStepView::Fail(e@),
    }
}

/// The step after a response with this status and these headers: a redirect is followed to
/// its `Location` (an error without one), 200 is accepted, any other status fails.
pub open spec fn step_after(status: u16, headers: Seq<char>) -> FetchStepView {
    if is_redirect_status(status) {
        match header_value_of(headers, "location"@) {
            Some(l) => FetchStepView::Follow(l),
            None => FetchStepView::Fail(
                "HTTP redirect "@ + crate::numbers::decimal(status as nat) + " missing Location"@,
            ),
        }
    } else if status != 200 {
        FetchStepView::Fail("HTTP request failed: "@ + crate::numbers::decimal(status as nat))
    } else {
        FetchStepView::Done
    }
}

/// Decides what to do with a response.
pub fn response_step(response: &HttpResponse) -> (r: FetchStep)
    ensures
        fetch_step_view(r) == step_after(response.status_code, response.headers@),
{
    let status = response.status_code;
    if is_redirect(status) {
        match header_value(response.headers.as_str(), "location") {
            Some(l) => FetchStep::Follow(l),
            None => {
                let mut msg = chars_of("HTTP redirect ");
                let d = crate::numbers::decimal_exec(status as u64);
                crate::text::extend_vec(&mut msg, d.as_slice());
                let tail = chars_of(" missing Location");
                crate::text::extend_vec(&mut msg, tail.as_slice());
                FetchStep::Fail(string_of(msg.as_slice()))
            },
        }
    } else if status != 200 {
        let mut msg = chars_of("HTTP request failed: ");
        let d = crate::numbers::decimal_exec(status as u64);
        crate::text::extend_vec(&mut msg, d.as_slice());
        FetchStep::Fail(string_of(msg.as_slice()))
    } else {
        FetchStep::Done
    }
}

/// Whether a fetch that has followed `redirect_count` redirects may go on.
pub fn redirect_allowed(redirect_count: usize) -> (r: bool)
    ensures
        r == (redirect_count <= MAX_REDIRECTS),
{
    redirect_count <= MAX_REDIRECTS
}

} // verus!

verus! {

// ---------------------------------------------------------------------------
// Name lookup
// ---------------------------------------------------------------------------

/// How to find the IPv4 addresses of a host: it is an address itself, or the resolver is
/// asked with the query text.
#[derive(Debug)]
pub enum LookupPlan {
    Literal([u8; 4]),
    Query(String),
}

pub enum LookupPlanView {
    Literal(Seq<u8>),
    Query(Seq<char>),
}

/// The plan for looking up `host`: a dotted address stands for itself; an invalid host name
/// is refused; any other name is asked of the resolver as `A <host>` and a line break.
pub open spec fn lookup_plan(host: Seq<char>) -> Result<LookupPlanView, Seq<char>> {
    match ipv4_of(host) {
        Some(a) => Ok(LookupPlanView::Literal(a)),
        None => if !valid_hostname(host) {
            Err("invalid hostname"@)
        } else {
            Ok(LookupPlanView::Query("A "@ + host + "\n"@))
        },
    }
}

pub open spec fn plan_view(r: Result<LookupPlan, String>) -> Result<LookupPlanView, Seq<char>> {
    match r {
        Ok(LookupPlan::Literal(a)) => Ok(LookupPlanView::Literal(a@)),
        Ok(LookupPlan::Query(q)) => Ok(LookupPlanView::Query(q@)),
        Err(e) => Err(e@),
    }
}

/// Decides how to look up the addresses of `host`.
pub fn plan_ipv4_lookup(host: &str) -> (r: Result<LookupPlan, String>)
    ensures
        plan_view(r) == lookup_plan(host@),
{
    if let Some(addr) = parse_ipv4(host) {
        return Ok(LookupPlan::Literal(addr));
    }
    if !is_valid_hostname(host) {
        return Err(string_from_str("invalid hostname"));
    }
    let mut q = chars_of("A ");
    let h = chars_of(host);
    extend_vec(&mut q, h.as_slice());
    let nl = chars_of("\n");
    extend_vec(&mut q, nl.as_slice());
    Ok(LookupPlan::Query(string_of(q.as_slice())))
}

/// Whether the resolver's reply read so far is enough: it has a line break, or it has grown
/// past 4096 bytes.
pub fn resolver_reply_complete(response: &[u8]) -> (r: bool)
    ensures
        r == (response@.contains(10u8) || response@.len() > 4096),
{
    if response.len() > 4096 {
        return true;
    }
    let mut i: usize = 0;
    while i < response.len()
        invariant
            i <= response@.len(),
            forall|k: int| 0 <= k < i ==> response@[k] != 10u8,
        decreases response@.len() - i,
    {
        if response[i] == 10u8 {
            assert(response@.contains(10u8)) by {
                assert(response@[i as int] == 10u8);
            }
            return true;
        }
        i = i + 1;
    }
    false
}

} // verus!

verus! {

// ---------------------------------------------------------------------------
// Reading as bytes arrive
// ---------------------------------------------------------------------------

proof fn lemma_find_from_extend(s: Seq<u8>, e: Seq<u8>, pat: Seq<u8>, i: int)
    requires
        find_from(s, pat, i) is Some,
    ensures
        find_from(s + e, pat, i) == find_from(s, pat, i),
    decreases s.len() + 1 - i,
{
    lemma_find_from_props(s, pat, i);
    let k = find_from(s, pat, i).unwrap();
    if matches_at(s, pat, i) {
        assert((s + e).subrange(i, i + pat.len()) =~= s.subrange(i, i + pat.len()));
    } else {
        assert(k > i);
        assert((s + e).subrange(i, i + pat.len()) =~= s.subrange(i, i + pat.len()));
        assert(!matches_at(s + e, pat, i));
        lemma_find_from_extend(s, e, pat, i + 1);
    }
}

proof fn lemma_chunked_extend(body: Seq<u8>, extra: Seq<u8>, cursor: int, decoded: Seq<u8>)
    requires
        chunked_from(body, cursor, decoded) != Ok::<Option<Seq<u8>>, Seq<char>>(None),
    ensures
        chunked_from(body + extra, cursor, decoded) == chunked_from(body, cursor, decoded),
    decreases body.len() - cursor,
{
    let b2 = body + extra;
    if 0 <= cursor <= body.len() {
        lemma_find_from_extend(body, extra, crlf(), cursor);
        lemma_find_from_props(body, crlf(), cursor);
        let line_end = find_from(body, crlf(), cursor).unwrap();
        assert(b2.subrange(cursor, line_end) =~= body.subrange(cursor, line_end));
        let line = body.subrange(cursor, line_end);
        if valid_utf8(line) {
            let text = chunk_size_text(line);
            match parse_unsigned(text, 16, usize::MAX as nat) {
                None => {},
                Some(size) => {
                    let start = line_end + 2;
                    let end = start + size;
                    if size != 0 && end <= usize::MAX && end + 2 <= body.len() {
                        assert(b2.subrange(end, end + 2) =~= body.subrange(end, end + 2));
                        if body.subrange(end, end + 2) == crlf() && end + 2 > cursor {
                            assert(b2.subrange(start, end) =~= body.subrange(start, end));
                            lemma_chunked_extend(
                                body,
                                extra,
                                end + 2,
                                decoded + body.subrange(start, end),
                            );
                        }
                    }
                },
            }
        }
    }
}

/// Law: once the bytes read so far give a verdict (a complete response, or an error) while
/// the connection is still open, further bytes do not change it.
pub proof fn response_verdict_is_stable(raw: Seq<u8>, extra: Seq<u8>)
    requires
        response_progress(raw, false) != Ok::<Option<(u16, Seq<char>, Seq<u8>)>, Seq<char>>(None),
    ensures
        response_progress(raw + extra, false) == response_progress(raw, false),
{
    let r2 = raw + extra;
    lemma_find_from_extend(raw, extra, header_terminator(), 0);
    lemma_find_from_props(raw, header_terminator(), 0);
    let he = find(raw, header_terminator()).unwrap();
    assert(r2.subrange(0, he) =~= raw.subrange(0, he));
    let headers = lossy_text(raw.subrange(0, he));
    match status_code_of(headers) {
        Err(_) => {},
        Ok(status) => {
            let body = raw.subrange(he + 4, raw.len() as int);
            assert(r2.subrange(he + 4, r2.len() as int) =~= body + extra);
            let te = header_value_of(headers, "transfer-encoding"@);
            if te is Some && find(ascii_lower_seq(te.unwrap()), "chunked"@) is Some {
                lemma_chunked_extend(body, extra, 0, Seq::empty());
            } else {
                match header_value_of(headers, "content-length"@) {
                    Some(len_text) => match parse_unsigned(len_text, 10, usize::MAX as nat) {
                        None => {},
                        Some(n) => {
                            if body.len() >= n {
                                assert((body + extra).subrange(0, n as int) =~= body.subrange(
                                    0,
                                    n as int,
                                ));
                            }
                        },
                    },
                    None => {},
                }
            }
        },
    }
}

} // verus!

verus! {

/// `r` with `d` put before the decoded data, when there is some.
pub open spec fn data_after(d: Seq<u8>, r: Result<Option<Seq<u8>>, Seq<char>>) -> Result<
    Option<Seq<u8>>,
    Seq<char>,
> {
    match r {
        Ok(Some(x)) => Ok(Some(d + x)),
        other => other,
    }
}

/// Law: decoding keeps what it has gathered and only adds after it: decoding from any point
/// with data `d` already gathered gives `d` followed by what decoding from there gives alone.
/// So the decoded body is the data of its chunks one after another, none dropped.
pub proof fn chunked_decoding_keeps_gathered_data(body: Seq<u8>, cursor: int, d: Seq<u8>)
    ensures
        chunked_from(body, cursor, d) == data_after(d, chunked_from(body, cursor, seq![])),
    decreases body.len() - cursor,
{
    if 0 <= cursor <= body.len() {
        match find_from(body, crlf(), cursor) {
            None => {},
            Some(line_end) => {
                let line = body.subrange(cursor, line_end);
                if valid_utf8(line) {
                    let text = chunk_size_text(line);
                    match parse_unsigned(text, 16, usize::MAX as nat) {
                        None => {},
                        Some(size) => {
                            let start = line_end + 2;
                            let end = start + size;
                            if size == 0 {
                                assert(d + Seq::<u8>::empty() =~= d);
                            } else if end > usize::MAX || end + 2 > body.len() || body.subrange(
                                end,
                                end + 2,
                            ) != crlf() || end + 2 <= cursor {
                            } else {
                                let chunk = body.subrange(start, end);
                                chunked_decoding_keeps_gathered_data(body, end + 2, d + chunk);
                                chunked_decoding_keeps_gathered_data(body, end + 2, chunk);
                                assert(Seq::<u8>::empty() + chunk =~= chunk);
                                match chunked_from(body, end + 2, seq![]) {
                                    Ok(Some(x)) => {
                                        assert(d + chunk + x =~= d + (chunk + x));
                                    },
                                    _ => {},
                                }
                            }
                        },
                    }
                }
            },
        }
    }
}

} // verus!

verus! {

proof fn lemma_find_from_shift(p: Seq<u8>, r: Seq<u8>, pat: Seq<u8>, k: int)
    requires
        0 <= k,
    ensures
        find_from(p + r, pat, p.len() + k) == match find_from(r, pat, k) {
            Some(x) => Some(x + p.len()),
            None => None,
        },
    decreases r.len() + 1 - k,
{
    let s = p + r;
    if k + pat.len() > r.len() {
    } else {
        assert(s.subrange(p.len() + k, p.len() + k + pat.len()) =~= r.subrange(k, k + pat.len()));
        if !matches_at(r, pat, k) {
            lemma_find_from_shift(p, r, pat, k + 1);
        }
    }
}

proof fn lemma_chunked_shift(p: Seq<u8>, r: Seq<u8>, k: int, d: Seq<u8>)
    requires
        0 <= k,
        p.len() + r.len() <= usize::MAX,
        chunked_from(r, k, d) != Ok::<Option<Seq<u8>>, Seq<char>>(None),
    ensures
        chunked_from(p + r, p.len() + k, d) == chunked_from(r, k, d),
    decreases r.len() - k,
{
    let s = p + r;
    let n = p.len() as int;
    if k <= r.len() {
        lemma_find_from_shift(p, r, crlf(), k);
        match find_from(r, crlf(), k) {
            None => {},
            Some(le) => {
                lemma_find_from_props(r, crlf(), k);
                assert(s.subrange(n + k, n + le) =~= r.subrange(k, le));
                let line = r.subrange(k, le);
                if valid_utf8(line) {
                    let text = chunk_size_text(line);
                    match parse_unsigned(text, 16, usize::MAX as nat) {
                        None => {},
                        Some(size) => {
                            let start = le + 2;
                            let end = start + size;
                            if size == 0 {
                            } else if end > usize::MAX {
                            } else if end + 2 > r.len() {
                            } else {
                                assert(s.subrange(n + end, n + end + 2) =~= r.subrange(end, end + 2));
                                if r.subrange(end, end + 2) != crlf() {
                                } else if end + 2 <= k {
                                } else {
                                    assert(s.subrange(n + start, n + end) =~= r.subrange(start, end));
                                    lemma_chunked_shift(p, r, end + 2, d + r.subrange(start, end));
                                }
                            }
                        },
                    }
                }
            },
        }
    }
}

/// Law: putting one more complete chunk (a one-digit hexadecimal size, its data `c`, each
/// line ended by CRLF) before a chunked body puts `c` before what the body decodes to.
/// With `chunked_decoding_keeps_gathered_data`, a body decodes to the data of all its chunks,
/// first to last. The body after the chunk must not be left waiting for more bytes.
pub proof fn chunk_data_comes_first(h: u8, c: Seq<u8>, rest: Seq<u8>)
    requires
        1 <= c.len() <= 15,
        (48 <= h <= 57 && h - 48 == c.len()) || (97 <= h <= 102 && h - 87 == c.len()),
        chunked_body(rest) != Ok::<Option<Seq<u8>>, Seq<char>>(None),
        c.len() + 5 + rest.len() <= usize::MAX,
    ensures
        chunked_body(seq![h] + crlf() + c + crlf() + rest) == data_after(c, chunked_body(rest)),
{
    let pre = seq![h] + crlf() + c + crlf();
    let s = pre + rest;
    assert(seq![h] + crlf() + c + crlf() + rest =~= s);
    let n = c.len() as int;
    // the size line ends at index 1
    assert(s[0] == h);
    assert(!matches_at(s, crlf(), 0)) by {
        assert(s.subrange(0, 2)[0] == h);
    }
    assert(s.subrange(1, 3) =~= crlf());
    assert(matches_at(s, crlf(), 1));
    assert(find_from(s, crlf(), 1) == Some(1int));
    assert(find_from(s, crlf(), 0) == Some(1int));
    let line = s.subrange(0, 1);
    assert(line =~= seq![h]);
    // the line is one ASCII character
    assert(h & 0x7F == h) by (bit_vector)
        requires
            h < 128,
    ;
    assert(line[0] == h);
    assert(vstd::utf8::is_leading_byte_width_1(line[0]));
    assert(vstd::utf8::valid_leading_and_continuation_bytes_first_codepoint(line));
    assert(vstd::utf8::decode_first_codepoint(line) == (h & 0x7F) as u32);
    assert(vstd::utf8::length_of_first_codepoint(line) == 1);
    assert(vstd::utf8::valid_first_scalar(line));
    assert(vstd::utf8::pop_first_scalar(line) =~= Seq::<u8>::empty());
    assert(valid_utf8(Seq::<u8>::empty()));
    assert(valid_utf8(line));
    let ch = ((h & 0x7F) as u32) as char;
    assert(ch as u32 == h as u32);
    assert(vstd::utf8::decode_first_scalar(line) == (h & 0x7F) as u32);
    assert(decode_utf8(Seq::<u8>::empty()) =~= Seq::<char>::empty());
    assert(decode_utf8(line) == seq![vstd::utf8::decode_first_scalar(line) as char] + decode_utf8(
        vstd::utf8::pop_first_scalar(line),
    ));
    assert(decode_utf8(line) =~= seq![ch]);
    assert(ch != ';');
    crate::text::lemma_split_single(seq![ch], ';');
    assert(!crate::text::is_ws(ch));
    let one = seq![ch];
    assert(crate::text::skip_class(one, CharClass::Whitespace, 0) == 0);
    assert(crate::text::skip_class_back(one, CharClass::Whitespace, 0, 1) == 1);
    assert(one.subrange(0, 1) =~= one);
    assert(chunk_size_text(line) == one);
    assert(crate::numbers::drop_plus(one) == one);
    assert(one.drop_last() =~= Seq::<char>::empty());
    assert(one.last() == ch);
    assert(crate::numbers::digits_value(Seq::<char>::empty(), 16) == 0);
    assert(crate::numbers::digits_value(one, 16) == crate::numbers::digits_value(one.drop_last(), 16)
        * 16 + crate::numbers::digit_value(one.last()));
    assert(crate::numbers::digits_value(one, 16) == crate::numbers::digit_value(ch));
    assert(crate::numbers::digit_value(ch) == n);
    assert(parse_unsigned(one, 16, usize::MAX as nat) == Some(n as nat));
    // the chunk's data and its CRLF
    assert(s.subrange(3 + n, 5 + n) =~= crlf());
    assert(s.subrange(3, 3 + n) =~= c);
    assert(Seq::<u8>::empty() + c =~= c);
    assert(chunked_body(s) == chunked_from(s, 5 + n, c));
    chunked_decoding_keeps_gathered_data(rest, 0, c);
    lemma_chunked_shift(pre, rest, 0, c);
    assert(pre.len() == 5 + n);
}

} // verus!
