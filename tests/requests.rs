use std::collections::HashMap;

use http_scan::HttpParser;

#[test]
fn get_str_params_works() {
    let a = b"GET /get?type=dbs&active=1 HTTP/1.1\r\n\r\n";
    let mut parser = HttpParser::new(a);
    parser.parse();
    let gparams = parser.get_params().unwrap();

    assert_eq!("type=dbs&active=1", gparams);
}

#[test]
fn get_str_body_works() {
    let a = b"GET /get?type=dbs&active=1 HTTP/1.1\r\n\r\nHelloIamTheBody";
    let mut parser = HttpParser::new(a);
    parser.parse();
    let gparams = parser.get_body().unwrap();

    assert_eq!("HelloIamTheBody", gparams);
}

#[test]
fn params_to_hashmap_works() {
    let a = b"GET /get?type=dbs&active=1 HTTP/1.1\r\n\r\n";
    let mut parser = HttpParser::new(a);
    parser.parse();
    let mut test_map = HashMap::new();
    test_map.insert("type".to_string(), "dbs".to_string());
    test_map.insert("active".to_string(), "1".to_string());
    assert_eq!(test_map, parser.get_params_map());
}

#[test]
fn get_content_length_works() {
    let a = b"GET /get?type=dbs&active=1 HTTP/1.1\r\nContent-Length: 100\r\n\r\n";
    let mut parser = HttpParser::new(a);
    parser.parse();

    assert_eq!(100, parser.get_content_length());
}

#[test]
fn check_data_checker_half() {
    let a = b"GET /get?type=dbs&active=1 HTTP/1.1\r\nContent-Length: 8\r\n\r\nabcdef";

    assert_ne!(HttpParser::check_data(a), 0);
}

#[test]
fn check_data_checker_full() {
    let a = b"GET /get?type=dbs&active=1 HTTP/1.1\r\nContent-Length: 6\r\n\r\nabcdef";

    assert_eq!(HttpParser::check_data(a), 0);
}

#[test]
fn read_content_type() {
    let a = b"POST /get?type=dbs&active=1 HTTP/1.1\r\nContent-Length: 6\r\nContent-Type: text/html; charset=utf-8\r\n\r\nabcdef";
    let mut parser = HttpParser::new(a);
    parser.parse();

    assert_eq!(parser.get_content_type().unwrap(), "text/html");
}

#[test]
fn read_charset() {
    let a = b"POST /get?type=dbs&active=1 HTTP/1.1\r\nContent-Length: 6\r\nContent-Type: text/html; charset=utf-8\r\n\r\nabcdef";
    let mut parser = HttpParser::new(a);
    parser.parse();
    assert_eq!(parser.get_charset().unwrap(), "utf-8");
}

#[test]
fn read_charset_multiple() {
    let a = b"POST /get?type=dbs&active=1 HTTP/1.1\r\nContent-Type: text/html; charset=utf-8; boundary=something\r\nContent-Length: 6\r\n\r\nabcdef";
    let mut parser = HttpParser::new(a);
    parser.parse();
    assert_eq!(parser.get_charset().unwrap(), "utf-8");
}

#[test]
fn read_multipart_boundary() {
    let a = b"POST /get?type=dbs&active=1 HTTP/1.1\r\nContent-Length: 6\r\nContent-Type: text/html; charset=utf-8; boundary=something\r\n\r\nabcdef";
    let mut parser = HttpParser::new(a);
    parser.parse();
    assert_eq!(parser.get_multipart_boundary().unwrap(), "something");
}

#[test]
fn post_url_encoded() {
    let a = b"POST /get?type=dbs&active=1 HTTP/1.1\r\nContent-Length: 6\r\nContent-Type: application/x-www-form-urlencoded; charset=utf-8; boundary=something\r\n\r\nkey1=20%25&key2=10+%2B+10&key3=data3";

    let mut parser = HttpParser::new(a);
    parser.parse();

    let mut params = HashMap::new();

    params.insert("key1".to_string(), "20%".to_string());
    params.insert("key2".to_string(), "10 + 10".to_string());
    params.insert("key3".to_string(), "data3".to_string());

    let sparams = parser.get_post_params().unwrap();

    println!("{:#?}", sparams);

    assert_eq!(params, sparams);
}

#[test]
fn post_url_encoded_without_header() {
    let a = b"POST /get?type=dbs&active=1 HTTP/1.1\r\nContent-Length: 6\r\nContent-Type: text/html; charset=utf-8; boundary=something\r\n\r\nkey1=20%&key2=10 + 10&key3=data3";
    let mut parser = HttpParser::new(a);
    parser.parse();

    let mut params = HashMap::new();

    params.insert("key1".to_string(), "20%".to_string());
    params.insert("key2".to_string(), "10 + 10".to_string());
    params.insert("key3".to_string(), "data3".to_string());

    let sparams = parser.get_post_params().unwrap();

    println!("{:#?}", sparams);

    assert_eq!(params, sparams);
}
