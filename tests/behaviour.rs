use std::collections::HashMap;

use http_scan::{map_from_pairs, HttpMethod, HttpParser, ParseError};

fn parsed(buf: &[u8]) -> HttpParser<'_> {
    let mut p = HttpParser::new(buf);
    p.parse();
    p
}

#[test]
fn get_request_line_fields() {
    let p = parsed(b"GET /get?type=dbs&active=1 HTTP/1.1\r\n\r\n");
    assert_eq!(*p.get_method(), HttpMethod::GET);
    assert_eq!(p.get_src().unwrap(), "/get?type=dbs&active=1");
    assert_eq!(p.get_page().unwrap(), "/get");
    assert_eq!(p.get_body().unwrap(), "");
    let m = p.get_map("params", "&").unwrap();
    let mut expected = HashMap::new();
    expected.insert("type", "dbs");
    expected.insert("active", "1");
    assert_eq!(m, expected);
}

#[test]
fn post_and_unknown_methods() {
    assert_eq!(*parsed(b"POST / HTTP/1.1\r\n\r\n").get_method(), HttpMethod::POST);
    assert_eq!(*parsed(b"PUT / HTTP/1.1\r\n\r\n").get_method(), HttpMethod::UNKNOWN);
    assert_eq!(*parsed(b"get / HTTP/1.1\r\n\r\n").get_method(), HttpMethod::UNKNOWN);
}

#[test]
fn path_and_query_reassemble_target() {
    let p = parsed(b"GET /a/b?x=1&y=2 HTTP/1.1\r\n\r\n");
    let joined = format!("{}?{}", p.get_page().unwrap(), p.get_params().unwrap());
    assert_eq!(joined, p.get_src().unwrap());
}

#[test]
fn several_question_marks_split_asymmetrically() {
    let p = parsed(b"GET /a?b?c HTTP/1.1\r\n\r\n");
    assert_eq!(p.get_page().unwrap(), "/a");
    assert_eq!(p.get_params().unwrap(), "c");
    assert_eq!(p.get_params_index(), (9, 10));
}

#[test]
fn target_without_query() {
    let p = parsed(b"GET /plain HTTP/1.1\r\n\r\n");
    assert_eq!(p.get_page().unwrap(), "/plain");
    assert_eq!(p.get_params().unwrap(), "/plain");
    assert_eq!(p.get_params_index(), (0, 0));
    assert!(p.get_params_map().is_empty());
}

#[test]
fn content_type_parameters_in_any_order() {
    let p = parsed(b"POST / HTTP/1.1\r\nContent-Type: text/html; boundary=something; charset=utf-8\r\n\r\n");
    assert_eq!(p.get_content_type().unwrap(), "text/html");
    assert_eq!(p.get_charset().unwrap(), "utf-8");
    assert_eq!(p.get_multipart_boundary().unwrap(), "something");
}

#[test]
fn content_type_values_are_not_trimmed() {
    let p = parsed(b"POST / HTTP/1.1\r\nContent-Type: text/html;  CharSet = utf-8\r\n\r\n");
    assert_eq!(p.get_charset().unwrap(), " utf-8");
}

#[test]
fn header_names_ignore_case() {
    let p = parsed(b"GET / HTTP/1.1\r\nCOOKIE: a=1; b=2\r\ncontent-LENGTH: 12\r\n\r\n");
    assert_eq!(p.get_cookie().unwrap(), "a=1; b=2");
    assert_eq!(p.get_content_length(), 12);
}

#[test]
fn cookie_map_splits_on_semicolon_space() {
    let p = parsed(b"GET / HTTP/1.1\r\nCookie: a=1; b=2; a=3\r\n\r\n");
    let m = p.get_cookie_map().unwrap();
    let mut expected = HashMap::new();
    expected.insert("a", "3");
    expected.insert("b", "2");
    assert_eq!(m, expected);
}

#[test]
fn pair_without_equals_has_empty_value() {
    let p = parsed(b"POST / HTTP/1.1\r\n\r\nflag&k=v=w");
    let m = p.get_body_map().unwrap();
    assert_eq!(m.len(), 2);
    assert_eq!(m.get("flag").map(|s| s.as_str()), Some(""));
    assert_eq!(m.get("k").map(|s| s.as_str()), Some("v"));
}

#[test]
fn building_a_map_twice_gives_the_same_map() {
    let p = parsed(b"POST / HTTP/1.1\r\n\r\nx=1&y=2&x=3");
    assert_eq!(p.get_body_map().unwrap(), p.get_body_map().unwrap());
    let mut expected = HashMap::new();
    expected.insert("x".to_string(), "3".to_string());
    expected.insert("y".to_string(), "2".to_string());
    assert_eq!(p.get_body_map().unwrap(), expected);
}

#[test]
fn form_decoding_of_query() {
    let p = parsed(b"GET /s?q=a+b%21&r HTTP/1.1\r\n\r\n");
    let m = p.get_params_map();
    assert_eq!(m.get("q").map(|s| s.as_str()), Some("a b!"));
    assert_eq!(m.get("r").map(|s| s.as_str()), Some(""));
}

#[test]
fn form_media_type_ignores_case_and_space() {
    let p = parsed(b"POST / HTTP/1.1\r\nContent-Type:  Application/X-WWW-Form-Urlencoded \r\n\r\na=%41");
    let m = p.get_post_params().unwrap();
    assert_eq!(m.get("a").map(|s| s.as_str()), Some("A"));
}

#[test]
fn map_from_pairs_later_wins() {
    let pairs = vec![
        ("k".to_string(), "1".to_string()),
        ("j".to_string(), "2".to_string()),
        ("k".to_string(), "3".to_string()),
    ];
    let m = map_from_pairs(pairs);
    assert_eq!(m.len(), 2);
    assert_eq!(m.get("k").map(|s| s.as_str()), Some("3"));
}

#[test]
fn invalid_utf8_is_reported() {
    let p = parsed(b"POST / HTTP/1.1\r\n\r\n\xff\xfe");
    assert_eq!(p.get_body(), Err(ParseError::InvalidEncoding));
    assert_eq!(p.get_body_map(), Err(ParseError::InvalidEncoding));
    assert_eq!(p.get_post_params(), Err(ParseError::InvalidEncoding));
}

#[test]
fn malformed_content_length_is_zero() {
    assert_eq!(parsed(b"GET / HTTP/1.1\r\nContent-Length: 1x\r\n\r\n").get_content_length(), 0);
    assert_eq!(parsed(b"GET / HTTP/1.1\r\nContent-Length: -1\r\n\r\n").get_content_length(), 0);
    assert_eq!(parsed(b"GET / HTTP/1.1\r\nContent-Length:  7\r\n\r\n").get_content_length(), 0);
    assert_eq!(parsed(b"GET / HTTP/1.1\r\nContent-Length: +7\r\n\r\n").get_content_length(), 7);
    assert_eq!(parsed(b"GET / HTTP/1.1\r\nContent-Length: 99999999999999999999999\r\n\r\n").get_content_length(), 0);
    assert_eq!(parsed(b"GET / HTTP/1.1\r\n\r\n").get_content_length(), 0);
}

#[test]
fn truncated_input_leaves_fields_absent() {
    let p = parsed(b"GET /x HTTP/1.1\r\nCookie: a=1");
    assert_eq!(p.get_src().unwrap(), "/x");
    assert_eq!(p.get_cookie().unwrap(), "");
    assert_eq!(p.get_body().unwrap(), "");
    let q = parsed(b"GET /x HTTP/1.1\r\n\r\n");
    assert_eq!(q.get_body().unwrap(), "");
}

#[test]
fn check_data_counts_outstanding_bytes() {
    assert_eq!(HttpParser::check_data(b"GET / HTTP/1.1\r\nContent-Length: 8\r\n\r\nabcdef"), 2);
    assert_eq!(HttpParser::check_data(b"GET / HTTP/1.1\r\nContent-Length: 3\r\n\r\nabcdef"), 0);
    assert_eq!(HttpParser::check_data(b"GET / HTTP/1.1\r\nContent-Length: 5\r\n"), 5);
    assert_eq!(HttpParser::check_data(b""), 0);
}

#[test]
fn check_data_agrees_with_is_body_read() {
    let bufs: [&[u8]; 3] = [
        b"GET / HTTP/1.1\r\nContent-Length: 8\r\n\r\nabcdef",
        b"GET / HTTP/1.1\r\nContent-Length: 6\r\n\r\nabcdef",
        b"GET / HTTP/1.1\r\n\r\nabc",
    ];
    for b in bufs.iter() {
        let p = parsed(b);
        assert_eq!(HttpParser::check_data(b) == 0, p.is_body_read());
    }
}

#[test]
fn body_remain_is_length_less_body_end() {
    let p = parsed(b"GET / HTTP/1.1\r\nContent-Length: 100\r\n\r\nab");
    assert_eq!(p.get_body_remain(), 100 - 41);
    let q = parsed(b"GET / HTTP/1.1\r\nContent-Length: 1\r\n\r\nab");
    assert_eq!(q.get_body_remain(), 0);
}

#[test]
fn setters_record_ranges() {
    let buf = b"POST / HTTP/1.1\r\n\r\ntext/plain; charset=ascii";
    let mut p = HttpParser::new(buf);
    p.set_method(HttpMethod::POST);
    p.set_src([5, 6]);
    p.set_cookie([0, 4]);
    p.set_content_length([0, 0]);
    p.set_body([19, buf.len()]);
    p.set_content_type([19, buf.len()]);
    assert_eq!(*p.get_method(), HttpMethod::POST);
    assert_eq!(p.get_src().unwrap(), "/");
    assert_eq!(p.get_cookie().unwrap(), "POST");
    assert_eq!(p.get_content_type().unwrap(), "text/plain");
    assert_eq!(p.get_charset().unwrap(), "ascii");
}

#[test]
fn target_lies_between_first_two_spaces() {
    let p = parsed(b"GET /x extra HTTP/1.1\r\n\r\n");
    assert_eq!(p.get_src().unwrap(), "/x");
    let q = parsed(b"a a a ");
    assert_eq!(q.get_src().unwrap(), "a");
    assert_eq!(*q.get_method(), HttpMethod::UNKNOWN);
    let r = parsed(b"GET /only\r\n\r\n");
    assert_eq!(r.get_src().unwrap(), "");
}

#[test]
fn empty_splitter_splits_into_characters() {
    let p = parsed(b"POST / HTTP/1.1\r\n\r\nab=c");
    let m = p.get_map("body", "").unwrap();
    let mut expected = HashMap::new();
    expected.insert("", "");
    expected.insert("a", "");
    expected.insert("b", "");
    expected.insert("c", "");
    assert_eq!(m, expected);
    let q = parsed(b"POST / HTTP/1.1\r\n\r\n");
    let n = q.get_map("body", "").unwrap();
    assert_eq!(n.len(), 1);
    assert_eq!(n.get(""), Some(&""));
}

#[test]
fn header_line_without_space_matches_nothing() {
    let p = parsed(b"GET / HTTP/1.1\r\nCookie:a=1\r\n\r\n");
    assert_eq!(p.get_cookie().unwrap(), "");
}
