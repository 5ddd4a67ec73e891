//! Response heads.
use async_fcgi::httpparse::{parse, store_headers, take_head, try_parse, HeadParse, ParseResult};
use bytes::Bytes;
use http::HeaderMap;

#[test]
fn test_parse() {
    let buf = b"Status: 202 Not Found\r\nX-Powered-By: PHP/7.3.16\r\nX-Authenticate: NTLM\r\nContent-type: text/html; charset=UTF-8\r\n\r\n<html><body>\npub\n<pre>Array\n(\n)\nArray\n(\n    [lol] => 1\n)\nArray\n(\n    [lol] => 1\n)\nArray\n(\n    [HTTP_accept] => text/html\n    [REQUEST_METHOD] => GET\n    [QUERY_STRING] => lol=1\n    [SCRIPT_NAME] => /test\n    [SCRIPT_FILENAME] => /home/daniel/Public/test.php\n    [FCGI_ROLE] => RESPONDER\n    [PHP_SELF] => /test\n    [REQUEST_TIME_FLOAT] => 1587740954.2741\n    [REQUEST_TIME] => 1587740954\n)\n";
    let bytes = Bytes::from(&buf[..]);
    let mut map = HeaderMap::new();
    if let ParseResult::Complete(body) = parse(bytes.clone(), &mut map) {
        assert_eq!(body, bytes.slice(113..));
        assert_eq!(map.get("Status").unwrap(), "202 Not Found");
        assert_eq!(map.get("X-Powered-By").unwrap(), "PHP/7.3.16");
        assert_eq!(map.get("X-Authenticate").unwrap(), "NTLM");
        assert_eq!(map.get("Content-type").unwrap(), "text/html; charset=UTF-8");
    } else {
        assert!(false);
    }
}

#[test]
fn a_head_may_be_pending() {
    let mut map = HeaderMap::new();
    assert!(matches!(
        parse(Bytes::from_static(b"Status: 200 OK\r\nContent-Ty"), &mut map),
        ParseResult::Pending
    ));
    assert!(map.is_empty());
    assert!(matches!(parse(Bytes::new(), &mut map), ParseResult::Pending));
}

#[test]
fn a_head_may_be_invalid() {
    let mut map = HeaderMap::new();
    assert!(matches!(
        parse(Bytes::from_static(b"no head\r\n\r\n"), &mut map),
        ParseResult::Invalid
    ));
    let mut many = Vec::new();
    for i in 0..101 {
        many.extend_from_slice(format!("X-{}: 1\r\n", i).as_bytes());
    }
    many.extend_from_slice(b"\r\n");
    assert!(matches!(parse(Bytes::from(many), &mut map), ParseResult::Invalid));
    assert!(map.is_empty());
}

#[test]
fn a_later_field_replaces_an_earlier_one() {
    let mut map = HeaderMap::new();
    map.append("x-a", "old".parse().unwrap());
    map.append("x-a", "older".parse().unwrap());
    match parse(Bytes::from_static(b"X-A: 1\nx-b: 2\nX-a: 3\n\nbody"), &mut map) {
        ParseResult::Complete(rest) => assert_eq!(&rest[..], b"body"),
        _ => panic!("not complete"),
    }
    assert_eq!(map.get_all("x-a").iter().count(), 1);
    assert_eq!(map.get("x-a").unwrap(), "3");
    assert_eq!(map.get("x-b").unwrap(), "2");
    assert_eq!(map.len(), 2);
}

#[test]
fn fields_that_were_read_are_stored() {
    let mut map = HeaderMap::new();
    let fields = vec![
        (b"Content-TYPE".to_vec(), b"text/plain".to_vec()),
        (b"X~1".to_vec(), b"\x80\t".to_vec()),
    ];
    store_headers(&fields, &mut map);
    assert_eq!(map.get("content-type").unwrap(), "text/plain");
    assert_eq!(map.get("x~1").unwrap().as_bytes(), b"\x80\t");
    let r = take_head(
        HeadParse::Complete(2, vec![(b"A".to_vec(), b"b".to_vec())]),
        Bytes::from_static(b"12345"),
        &mut map,
    );
    match r {
        ParseResult::Complete(rest) => assert_eq!(&rest[..], b"345"),
        _ => panic!("not complete"),
    }
    assert_eq!(map.get("a").unwrap(), "b");
    assert!(matches!(
        take_head(HeadParse::Partial, Bytes::new(), &mut map),
        ParseResult::Pending
    ));
    assert!(matches!(
        take_head(HeadParse::Invalid, Bytes::new(), &mut map),
        ParseResult::Invalid
    ));
    assert_eq!(map.len(), 3);
}

#[test]
fn names_that_are_too_long_are_left_alone() {
    let mut map = HeaderMap::new();
    let mut head = vec![b'n'; 65535];
    head.extend_from_slice(b": 1\r\n\r\n");
    assert!(matches!(
        try_parse(Bytes::from(head), &mut map),
        Some(ParseResult::Complete(_))
    ));
    assert_eq!(map.len(), 1);
    let mut head = vec![b'n'; 65536];
    head.extend_from_slice(b": 1\r\n\r\n");
    assert!(try_parse(Bytes::from(head), &mut map).is_none());
    assert_eq!(map.len(), 1);
}
