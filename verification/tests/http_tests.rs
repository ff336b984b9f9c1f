use carmine::http::{
    ascii_lowercase, charset_from_content_type, charset_from_meta, clean_charset_label,
    decode_html_bytes, find_header_end, format_ipv4, header_value, host_header,
    http_get_request, is_redirect, is_valid_hostname, parse_ipv4, parse_resolver_response,
    parse_status_code, read_charset_after, read_http_response, redirect_allowed,
    request_target, response_step, try_decode_chunked_body, FetchStep, HttpResponse,
    plan_ipv4_lookup, resolver_reply_complete, LookupPlan,
};

#[test]
fn header_end_and_status() {
    assert_eq!(find_header_end(b"HTTP/1.1 200 OK\r\n\r\nbody"), Some(15));
    assert_eq!(find_header_end(b"HTTP/1.1 200 OK\r\n"), None);
    assert_eq!(parse_status_code("HTTP/1.1 404 Not Found\r\nA: b"), Ok(404));
    assert_eq!(
        parse_status_code("HTTP/1.1 abc"),
        Err("invalid HTTP status line: HTTP/1.1 abc".to_string())
    );
    assert_eq!(parse_status_code(""), Err("HTTP response missing status line".to_string()));
    assert!(is_redirect(301));
    assert!(is_redirect(308));
    assert!(!is_redirect(200));
}

#[test]
fn header_values_are_found_case_insensitively() {
    let headers = "HTTP/1.1 200 OK\r\nContent-Type: text/html; charset=utf-8\r\nX-Empty:\r\n";
    assert_eq!(header_value(headers, "content-type"), Some("text/html; charset=utf-8".to_string()));
    assert_eq!(header_value(headers, "x-empty"), Some(String::new()));
    assert_eq!(header_value(headers, "location"), None);
    assert_eq!(header_value("Location: /x\r\n", "location"), None);
}

#[test]
fn chunked_bodies_decode_in_steps() {
    assert_eq!(try_decode_chunked_body(b"3\r\nabc\r\n0\r\n\r\n"), Ok(Some(b"abc".to_vec())));
    assert_eq!(try_decode_chunked_body(b"3\r\nab"), Ok(None));
    assert_eq!(try_decode_chunked_body(b"4;ext=1\r\nabcd\r\n0\r\n"), Ok(Some(b"abcd".to_vec())));
    assert_eq!(try_decode_chunked_body(b"zz\r\n"), Err("invalid chunk size: zz".to_string()));
    assert_eq!(try_decode_chunked_body(b"1\r\nab\r\n"), Err("chunk missing trailing CRLF".to_string()));
}

#[test]
fn responses_are_read_as_bytes_arrive() {
    let head = b"HTTP/1.1 200 OK\r\nContent-Length: 5\r\n\r\nhel";
    assert!(matches!(read_http_response(head, false), Ok(None)));
    assert_eq!(
        read_http_response(head, true).err(),
        Some("HTTP response ended before Content-Length was satisfied".to_string())
    );
    let full = b"HTTP/1.1 200 OK\r\nContent-Length: 5\r\n\r\nhello world";
    let resp = read_http_response(full, false).unwrap().unwrap();
    assert_eq!(resp.status_code, 200);
    assert_eq!(resp.body, b"hello".to_vec());
    assert_eq!(resp.headers, "HTTP/1.1 200 OK\r\nContent-Length: 5");
    let chunked = b"HTTP/1.1 200 OK\r\nTransfer-Encoding: Chunked\r\n\r\n2\r\nhi\r\n0\r\n\r\n";
    assert_eq!(read_http_response(chunked, false).unwrap().unwrap().body, b"hi".to_vec());
    let closing = b"HTTP/1.1 200 OK\r\n\r\nall of it";
    assert!(matches!(read_http_response(closing, false), Ok(None)));
    assert_eq!(read_http_response(closing, true).unwrap().unwrap().body, b"all of it".to_vec());
    assert_eq!(
        read_http_response(b"HTTP/1.1 200", true).err(),
        Some("HTTP response ended before headers completed".to_string())
    );
    assert_eq!(
        read_http_response(b"HTTP/1.1 200 OK\r\nContent-Length: x\r\n\r\n", false).err(),
        Some("invalid Content-Length: x".to_string())
    );
}

#[test]
fn addresses_and_hostnames() {
    assert_eq!(parse_ipv4("1.2.3.4"), Some([1, 2, 3, 4]));
    assert_eq!(parse_ipv4("256.1.1.1"), None);
    assert_eq!(parse_ipv4("1.2.3"), None);
    assert_eq!(format_ipv4([10, 0, 0, 255]), "10.0.0.255");
    assert!(is_valid_hostname("example.com"));
    assert!(!is_valid_hostname("bad host"));
    assert!(!is_valid_hostname(""));
}

#[test]
fn resolver_answers_are_read() {
    assert_eq!(parse_resolver_response(b"OK 1.2.3.4 5.6.7.8\n"), Ok(vec![[1, 2, 3, 4], [5, 6, 7, 8]]));
    assert_eq!(parse_resolver_response(b"ERR no such host"), Err("no such host".to_string()));
    assert_eq!(parse_resolver_response(b"huh"), Err("resolver error".to_string()));
    assert_eq!(parse_resolver_response(b"OK "), Err("resolver error".to_string()));
    assert_eq!(parse_resolver_response(b"OK 1.2.3"), Err("resolver returned invalid IPv4".to_string()));
}

#[test]
fn charsets_are_found() {
    assert_eq!(ascii_lowercase(b"ABC\xff"), "abc ");
    assert_eq!(clean_charset_label(" \"UTF-8\" "), "utf-8");
    assert_eq!(read_charset_after("\"shift_jis\"; x"), Some("shift_jis".to_string()));
    assert_eq!(read_charset_after("  ;"), None);
    assert_eq!(charset_from_content_type("text/html; Charset=\"ISO-8859-1\""), Some("iso-8859-1".to_string()));
    assert_eq!(charset_from_content_type("text/html"), None);
    assert_eq!(charset_from_meta(b"<meta charset=\"EUC-KR\">"), Some("euc-kr".to_string()));
    assert_eq!(charset_from_meta(b"<p>no meta</p>"), None);
}

#[test]
fn html_bytes_decode_by_bom_header_or_meta() {
    assert_eq!(decode_html_bytes(b"\xef\xbb\xbfhi", None), Ok("hi".to_string()));
    assert_eq!(decode_html_bytes(b"\xff\xfeh\x00i\x00", None), Ok("hi".to_string()));
    assert_eq!(decode_html_bytes(b"caf\xe9", None), Ok("café".to_string()));
    assert_eq!(decode_html_bytes(b"caf\xc3\xa9", Some("text/html; charset=utf-8")), Ok("café".to_string()));
    assert_eq!(
        decode_html_bytes(b"\xff", Some("text/html; charset=utf-8")),
        Err("decode body: invalid UTF-8".to_string())
    );
}

#[test]
fn byte_text_is_decoded_strictly_or_lossily() {
    assert_eq!(
        parse_resolver_response(b"OK \xff"),
        Err("resolver response is not UTF-8".to_string())
    );
    let raw = b"HTTP/1.1 200 OK\r\nX: \xff\r\n\r\n";
    let resp = read_http_response(raw, true).unwrap().unwrap();
    assert_eq!(resp.headers, "HTTP/1.1 200 OK\r\nX: \u{fffd}");
}

#[test]
fn requests_are_built() {
    assert_eq!(
        http_get_request("/x", "h:8080"),
        "GET /x HTTP/1.1\r\nHost: h:8080\r\nConnection: close\r\nUser-Agent: carmine/0.1\r\nAccept: */*\r\n\r\n"
    );
    assert_eq!(request_target("", None), "/");
    assert_eq!(request_target("/a", Some("b=1")), "/a?b=1");
    assert_eq!(host_header("h", 8080, true), "h:8080");
    assert_eq!(host_header("h", 80, false), "h");
}

#[test]
fn responses_decide_the_next_step() {
    let redirect = HttpResponse {
        status_code: 302,
        headers: "HTTP/1.1 302 Found\r\nLocation: /next".to_string(),
        body: Vec::new(),
    };
    assert!(matches!(response_step(&redirect), FetchStep::Follow(l) if l == "/next"));
    let lost = HttpResponse { status_code: 301, headers: "HTTP/1.1 301 X".to_string(), body: Vec::new() };
    assert!(matches!(response_step(&lost), FetchStep::Fail(e) if e == "HTTP redirect 301 missing Location"));
    let bad = HttpResponse { status_code: 404, headers: "HTTP/1.1 404 X".to_string(), body: Vec::new() };
    assert!(matches!(response_step(&bad), FetchStep::Fail(e) if e == "HTTP request failed: 404"));
    let ok = HttpResponse { status_code: 200, headers: "HTTP/1.1 200 OK".to_string(), body: Vec::new() };
    assert!(matches!(response_step(&ok), FetchStep::Done));
    assert!(redirect_allowed(8));
    assert!(!redirect_allowed(9));
}

#[test]
fn lookups_are_planned() {
    assert!(matches!(plan_ipv4_lookup("10.0.0.1"), Ok(LookupPlan::Literal([10, 0, 0, 1]))));
    assert!(matches!(plan_ipv4_lookup("example.org"), Ok(LookupPlan::Query(q)) if q == "A example.org\n"));
    assert!(matches!(plan_ipv4_lookup("-bad-"), Err(e) if e == "invalid hostname"));
    assert!(resolver_reply_complete(b"OK 1.2.3.4\n"));
    assert!(!resolver_reply_complete(b"OK 1.2"));
    assert!(resolver_reply_complete(&[b'x'; 4097]));
}

#[test]
fn ipv4_text_round_trips() {
    for text in ["0.0.0.0", "127.0.0.1", "255.255.255.255"] {
        assert_eq!(format_ipv4(parse_ipv4(text).unwrap()), text);
    }
}
