use carmine::js::{has_script_code, insert_document_writes, JsExecutionResult};
use carmine::numbers::{decimal_exec, parse_unsigned_exec};
use carmine::text::{
    chars_of, find_chars, is_whitespace, lines_vec, rfind_chars, split_vec,
    split_whitespace_vec, trim_vec,
};

fn string_of(v: &[char]) -> String {
    v.iter().collect()
}

fn strs(v: Vec<Vec<char>>) -> Vec<String> {
    v.iter().map(|c| string_of(c)).collect()
}

#[test]
fn text_helpers_behave_like_str() {
    let s = chars_of("  a b  ");
    assert_eq!(string_of(&trim_vec(&s)), "a b");
    assert_eq!(strs(split_vec(&chars_of("a,,b"), ',')), vec!["a", "", "b"]);
    assert_eq!(strs(split_whitespace_vec(&chars_of(" a  b\tc "))), vec!["a", "b", "c"]);
    assert_eq!(strs(lines_vec(&chars_of("a\r\nb\n"))), vec!["a", "b"]);
    assert_eq!(find_chars(&chars_of("abcabc"), &chars_of("bc")), Some(1));
    assert_eq!(rfind_chars(&chars_of("abcabc"), &chars_of("bc")), Some(4));
    assert!(is_whitespace('\u{3000}'));
    assert!(!is_whitespace('x'));
}

#[test]
fn numbers_parse_and_print() {
    assert_eq!(parse_unsigned_exec(&chars_of("ff"), 16, 255), Some(255));
    assert_eq!(parse_unsigned_exec(&chars_of("256"), 10, 255), None);
    assert_eq!(parse_unsigned_exec(&chars_of("+7"), 10, 255), Some(7));
    assert_eq!(parse_unsigned_exec(&chars_of(""), 10, 255), None);
    assert_eq!(string_of(&decimal_exec(0)), "0");
    assert_eq!(string_of(&decimal_exec(1907)), "1907");
}

#[test]
fn document_writes_go_before_the_body_end() {
    let r = JsExecutionResult { document_write_buffer: "X".to_string() };
    assert_eq!(insert_document_writes("<body>a</body></html>", &r), "<body>aX</body></html>");
    assert_eq!(insert_document_writes("<p>a</p>", &r), "<p>a</p>X");
    let none = JsExecutionResult { document_write_buffer: String::new() };
    assert_eq!(insert_document_writes("<p>a</p>", &none), "<p>a</p>");
    assert!(has_script_code(" x "));
    assert!(!has_script_code(" \n "));
}
