use webpool::http::decimal_string;
use webpool::http::str_eq;
use webpool::http::HTTPHeader;
use webpool::http::HTTPMethod;
use webpool::http::HTTPRequest;
use webpool::http::HTTPResponse;

#[test]
fn parses_plain_request_line() {
    let lines = vec!["GET /index.html HTTP/1.1".to_string()];
    let req = HTTPRequest::new(&lines).unwrap();
    assert_eq!(*req.method(), HTTPMethod::Get);
    assert_eq!(req.uri().unwrap(), "/index.html");
    assert_eq!(req.version().unwrap(), "HTTP/1.1");
    assert_eq!(req.headers().len(), 0);
    assert_eq!(req.body().unwrap(), "");
}

#[test]
fn parses_post_with_headers() {
    let lines = vec![
        "POST /submit HTTP/1.0".to_string(),
        "Host: example.com".to_string(),
        "not a header".to_string(),
        "Accept: text/html".to_string(),
    ];
    let req = HTTPRequest::new(&lines).unwrap();
    assert_eq!(*req.method(), HTTPMethod::Post);
    assert_eq!(req.uri().unwrap(), "/submit");
    let headers = req.headers();
    assert_eq!(headers.len(), 2);
    assert_eq!(headers[0].name(), "Host");
    assert_eq!(headers[0].value(), "example.com");
    assert_eq!(headers[1].name(), "Accept");
    assert_eq!(headers[1].value(), "text/html");
}

#[test]
fn tolerates_extra_whitespace() {
    let lines = vec!["  GET   /  HTTP/1.1  trailing".to_string()];
    let req = HTTPRequest::new(&lines).unwrap();
    assert_eq!(*req.method(), HTTPMethod::Get);
    assert_eq!(req.uri().unwrap(), "/");
    assert_eq!(req.version().unwrap(), "HTTP/1.1");
}

#[test]
fn rejects_malformed_requests() {
    assert!(HTTPRequest::new(&Vec::new()).is_none());
    assert!(HTTPRequest::new(&vec!["".to_string()]).is_none());
    assert!(HTTPRequest::new(&vec!["   ".to_string()]).is_none());
    assert!(HTTPRequest::new(&vec!["GET /".to_string()]).is_none());
    assert!(HTTPRequest::new(&vec!["PUT / HTTP/1.1".to_string()]).is_none());
}

#[test]
fn method_tokens() {
    assert_eq!(HTTPMethod::parse("GET"), Some(HTTPMethod::Get));
    assert_eq!(HTTPMethod::parse("POST"), Some(HTTPMethod::Post));
    assert_eq!(HTTPMethod::parse("get"), None);
    assert_eq!(HTTPMethod::parse("DELETE"), None);
}

#[test]
fn header_line_variants() {
    let h = HTTPHeader::parse("Host: example.com").unwrap();
    assert_eq!(h.name(), "Host");
    assert_eq!(h.value(), "example.com");
    let twice = HTTPHeader::parse("a: b: c").unwrap();
    assert_eq!(twice.name(), "a");
    assert_eq!(twice.value(), "b");
    assert!(HTTPHeader::parse("no separator").is_none());
    assert!(HTTPHeader::parse("colon:but-no-space").is_none());
}

#[test]
fn header_new_keeps_fields() {
    let h = HTTPHeader::new("Content-Type", "text/plain");
    assert_eq!(h.name(), "Content-Type");
    assert_eq!(h.value(), "text/plain");
}

#[test]
fn response_serializes_with_content_length() {
    let resp = HTTPResponse::new("200 OK", &Vec::new(), "hello".to_string()).unwrap();
    assert_eq!(
        resp.to_string(),
        "HTTP/1.1 200 OK\r\nContent-Length: 5\r\n\r\nhello"
    );
}

#[test]
fn response_keeps_given_headers_in_order() {
    let headers = vec!["X-One: 1".to_string(), "X-Two: 2".to_string()];
    let resp = HTTPResponse::new("404 NOT FOUND", &headers, String::new()).unwrap();
    assert_eq!(
        resp.to_string(),
        "HTTP/1.1 404 NOT FOUND\r\nX-One: 1\r\nX-Two: 2\r\nContent-Length: 0\r\n\r\n"
    );
}

#[test]
fn content_length_counts_bytes() {
    let resp = HTTPResponse::new("200 OK", &Vec::new(), "h\u{e9}llo".to_string()).unwrap();
    // The accented character takes two bytes in UTF-8.
    assert_eq!(
        resp.to_string(),
        "HTTP/1.1 200 OK\r\nContent-Length: 6\r\n\r\nh\u{e9}llo"
    );
}

#[test]
fn decimal_rendering() {
    assert_eq!(decimal_string(0), "0");
    assert_eq!(decimal_string(7), "7");
    assert_eq!(decimal_string(10), "10");
    assert_eq!(decimal_string(90210), "90210");
    assert_eq!(decimal_string(u64::MAX), "18446744073709551615");
}

#[test]
fn string_equality_helper() {
    assert!(str_eq("", ""));
    assert!(str_eq("abc", "abc"));
    assert!(!str_eq("abc", "abd"));
    assert!(!str_eq("abc", "abcd"));
}
