//! Requests and responses on a connection, without a transport.
use async_fcgi::bufvec::BufList;
use async_fcgi::client::connection::body::{FCGIBody, Frame, ServerState};
use async_fcgi::client::connection::inner::{ConStatus, Fill, InnerConnection, Liveness};
use async_fcgi::client::connection::request::{
    Connection, HeaderMultilineStrategy, MultiHeaderStrategy, RequestHead,
};
use async_fcgi::client::connection::response::{response_status, HeadStep, ResponseHead};
use async_fcgi::codec::{FCGIType, FCGIWriter};
use async_fcgi::error::SendError;
use async_fcgi::fastcgi::ProtoStatus;
use bytes::Bytes;
use http::{HeaderMap, HeaderValue, Request};
use std::sync::atomic::{AtomicUsize, Ordering};
use std::sync::Arc;
use std::task::{Wake, Waker};
use tokio::sync::{OwnedSemaphorePermit, Semaphore};

struct Count(AtomicUsize);

impl Wake for Count {
    fn wake(self: Arc<Self>) {
        self.0.fetch_add(1, Ordering::SeqCst);
    }
}

fn waker() -> (Arc<Count>, Waker) {
    let c = Arc::new(Count(AtomicUsize::new(0)));
    (c.clone(), Waker::from(c))
}

fn permit() -> OwnedSemaphorePermit {
    Arc::new(Semaphore::new(1)).try_acquire_owned().unwrap()
}

fn inner() -> InnerConnection<()> {
    InnerConnection::new((), 1)
}

/// Takes what waits to be written.
fn sent_bytes(pending: &mut BufList<Bytes>) -> Vec<u8> {
    let n = pending.remaining();
    pending.copy_to_bytes(n).to_vec()
}

fn head(req: Request<()>, size: u64) -> RequestHead {
    let query = req.uri().query().map(|q| Bytes::copy_from_slice(q.as_bytes()));
    let method = Bytes::copy_from_slice(req.method().as_str().as_bytes());
    RequestHead {
        query,
        method,
        headers: req.into_parts().0.headers,
        size_lower: size,
        size_upper: Some(size),
    }
}

fn dyn_param() -> Vec<(Bytes, Bytes)> {
    vec![(
        Bytes::from_static(b"SCRIPT_FILENAME"),
        Bytes::from_static(b"/home/daniel/Public/test.php"),
    )]
}

/// What an application sends, piece by piece.
struct Transport {
    pieces: Vec<Vec<u8>>,
    unread: Vec<u8>,
}

impl Transport {
    fn new(pieces: &[&[u8]]) -> Transport {
        Transport { pieces: pieces.iter().map(|p| p.to_vec()).collect(), unread: Vec::new() }
    }

    /// Polls the body as a runtime does, until it has an answer.
    fn frame(&mut self, inner: &mut InnerConnection<()>, body: &mut FCGIBody) -> Option<Bytes> {
        loop {
            if self.unread.is_empty() && !self.pieces.is_empty() {
                self.unread = self.pieces.remove(0);
            }
            let data = self.unread.clone();
            let fill = if data.is_empty() {
                Fill::Pending
            } else {
                assert!(inner.can_read(&data));
                Fill::Ready(&data)
            };
            let (frame, status, _) = body.poll_frame(inner, fill, waker().1);
            if let ConStatus::Taken(n) = status {
                self.unread.drain(..n);
            }
            match frame {
                Frame::Data(d) => return Some(d),
                Frame::End => return None,
                Frame::Pending => assert!(
                    !self.unread.is_empty() || !self.pieces.is_empty(),
                    "the body would wait for ever"
                ),
            }
        }
    }

    /// Reads the head of a response.
    fn response(&mut self, inner: &mut InnerConnection<()>, rid: u16) -> (ResponseHead, FCGIBody) {
        let mut body = FCGIBody::new(rid);
        let mut head = ResponseHead::new();
        while let Some(data) = self.frame(inner, &mut body) {
            let step = head.on_data(data).unwrap();
            if inner.take_head_step(rid, step) {
                break;
            }
        }
        body.was_returned = true;
        (head, body)
    }
}

#[test]
fn simple_get() {
    let mut inner = inner();
    let con = Connection::new();
    let req = head(
        Request::get("/test?lol=1").header("Accept", "text/html").body(()).unwrap(),
        0,
    );
    assert!(con.fits(&req, &dyn_param()));
    let sent = con.send_request(&mut inner, &req, dyn_param(), permit()).unwrap();
    assert_eq!(sent.rid, 1);
    assert_eq!(sent.len, None);
    let to_php = b"\x01\x01\0\x01\0\x08\0\0\0\x01\x01\0\0\0\0\0\x01\x04\0\x01\0i\x07\0\x0f\x1cSCRIPT_FILENAME/home/daniel/Public/test.php\x0c\x05QUERY_STRINGlol=1\x0e\x03REQUEST_METHODGET\x0b\tHTTP_ACCEPTtext/html\x01\x04\0\x01\0i\x07\x01\x04\0\x01\0\0\0\0\x01\x05\0\x01\0\0\0\0";
    assert_eq!(sent_bytes(&mut inner.io.pending), &to_php[..]);
    let from_php = b"\x01\x07\0\x01\0W\x01\0PHP Fatal error:  Kann nicht durch 0 teilen in /home/daniel/Public/test.php on line 14\n\0\x01\x06\0\x01\x01\xf7\x01\0Status: 404 Not Found\r\nX-Powered-By: PHP/7.3.16\r\nX-Authenticate: NTLM\r\nContent-type: text/html; charset=UTF-8\r\n\r\n<html><body>\npub\n<pre>Array\n(\n)\nArray\n(\n    [lol] => 1\n)\nArray\n(\n    [lol] => 1\n)\nArray\n(\n    [HTTP_accept] => text/html\n    [REQUEST_METHOD] => GET\n    [QUERY_STRING] => lol=1\n    [SCRIPT_NAME] => /test\n    [SCRIPT_FILENAME] => /home/daniel/Public/test.php\n    [FCGI_ROLE] => RESPONDER\n    [PHP_SELF] => /test\n    [REQUEST_TIME_FLOAT] => 1587740954.2741\n    [REQUEST_TIME] => 1587740954\n)\n\0\x01\x03\0\x01\0\x08\0\0\0\0\0\0\0\0\0\0";
    let mut app = Transport::new(&[&from_php[..]]);
    let (head, mut body) = app.response(&mut inner, sent.rid);
    assert_eq!(head.status, 404);
    assert_eq!(
        head.headers.get("X-Powered-By").expect("powered by header missing"),
        "PHP/7.3.16"
    );
    let expected = b"<html><body>\npub\n<pre>Array\n(\n)\nArray\n(\n    [lol] => 1\n)\nArray\n(\n    [lol] => 1\n)\nArray\n(\n    [HTTP_accept] => text/html\n    [REQUEST_METHOD] => GET\n    [QUERY_STRING] => lol=1\n    [SCRIPT_NAME] => /test\n    [SCRIPT_FILENAME] => /home/daniel/Public/test.php\n    [FCGI_ROLE] => RESPONDER\n    [PHP_SELF] => /test\n    [REQUEST_TIME_FLOAT] => 1587740954.2741\n    [REQUEST_TIME] => 1587740954\n)\n";
    let read1 = app.frame(&mut inner, &mut body);
    assert_eq!(read1.unwrap(), &expected[..]);
    let read2 = app.frame(&mut inner, &mut body);
    assert!(read2.is_none());
}

#[test]
fn app_answer_split_mid_record() {
    //flup did this once
    let mut inner = inner();
    let con = Connection::new();
    let req = head(Request::get("/").body(()).unwrap(), 0);
    let sent = con.send_request(&mut inner, &req, Vec::new(), permit()).unwrap();
    let from_flup = b"\x01\x06\0\x01\0@\0\0Status: 200 OK\r\nContent-Type: text/plain\r\nContent-Length: 13\r\n\r\n\x01\x06\0\x01\0\r\x03\0Hello World!\n";
    let mut app = Transport::new(&[&from_flup[..]]);
    let (_, mut body) = app.response(&mut inner, sent.rid);
    let read1 = app.frame(&mut inner, &mut body);
    let expected = b"Hello World!\n";
    assert_eq!(read1.unwrap(), &expected[..]);
}

#[test]
fn app_http_headers_split() {
    let mut inner = inner();
    let con = Connection::new();
    let req = head(Request::get("/").body(()).unwrap(), 0);
    let sent = con.send_request(&mut inner, &req, Vec::new(), permit()).unwrap();
    let first = b"\x01\x06\0\x01\0\x1e\0\0Status: 200 OK\r\nContent-Type: ";
    let second = b"\x01\x06\0\x01\0\"\0\0text/plain\r\nContent-Length: 13\r\n\r\n\x01\x03\0\x01\0\x08\0\0\0\0\0\0\0\0\0\0";
    let mut app = Transport::new(&[&first[..], &second[..]]);
    let (head, mut body) = app.response(&mut inner, sent.rid);
    assert_eq!(head.status, 200);
    assert_eq!(head.headers.get("Content-Length").expect("len header missing"), "13");
    assert_eq!(head.headers.get("Content-Type").expect("type header missing"), "text/plain");
    let read1 = app.frame(&mut inner, &mut body);
    assert!(read1.is_none());
}

#[test]
fn simple_post() {
    let mut inner = inner();
    let con = Connection::new();
    let data = Bytes::from_static(b"test=123");
    let req = head(
        Request::post("/test")
            .header("Content-Length", "8")
            .header("Content-Type", "multipart/form-data")
            .body(())
            .unwrap(),
        8,
    );
    let sent = con.send_request(&mut inner, &req, dyn_param(), permit()).unwrap();
    assert_eq!(sent.len, Some(8));
    let left = con.send_body(&mut inner, sent.rid, 8, data);
    assert_eq!(left, 0);
    con.end_body(&mut inner, sent.rid, left).unwrap();
    let to_php = b"\x01\x01\0\x01\0\x08\0\0\0\x01\x01\0\0\0\0\0\x01\x04\0\x01\0\x81\x07\0\x0f\x1cSCRIPT_FILENAME/home/daniel/Public/test.php\x0c\0QUERY_STRING\x0e\x04REQUEST_METHODPOST\x0c\x13CONTENT_TYPEmultipart/form-data\x0e\x01CONTENT_LENGTH8\x01\x04\0\x01\0\x81\x07\x01\x04\0\x01\0\0\0\0\x01\x05\0\x01\0\x08\0\0test=123\x01\x05\0\x01\0\0\0\0";
    assert_eq!(sent_bytes(&mut inner.io.pending), &to_php[..]);
    let from_php = b"\x01\x06\0\x01\x00\x23\x05\0Status: 201 Created\r\n\r\n<html><body>#+#+#\x01\x03\0\x01\0\x08\0\0\0\0\0\0\0\0\0\0";
    let mut app = Transport::new(&[&from_php[..]]);
    let (head, mut body) = app.response(&mut inner, sent.rid);
    assert_eq!(head.status, 201);
    let read1 = app.frame(&mut inner, &mut body);
    let expected = b"<html><body>";
    assert_eq!(read1.unwrap(), &expected[..]);
    let read2 = app.frame(&mut inner, &mut body);
    assert!(read2.is_none());
}

#[test]
fn long_header() {
    let mut inner = inner();
    let con = Connection::new();
    let req = head(
        Request::get("/")
            .header("Accept", "text/html,application/xhtml+xml,application/xml;q=0.9,image/avif,image/webp,image/apng,*/*;q=0.8,application/signed-exchange;v=b3;q=0.7")
            .body(())
            .unwrap(),
        0,
    );
    let sent = con.send_request(&mut inner, &req, Vec::new(), permit()).unwrap();
    let to_php = b"\x01\x01\0\x01\0\x08\0\0\0\x01\x01\0\0\0\0\0\x01\x04\0\x01\0\xb8\0\0\x0c\0QUERY_STRING\x0e\x03REQUEST_METHODGET\x0b\x80\0\0\x87HTTP_ACCEPTtext/html,application/xhtml+xml,application/xml;q=0.9,image/avif,image/webp,image/apng,*/*;q=0.8,application/signed-exchange;v=b3;q=0.7\x01\x04\0\x01\0\0\0\0\x01\x05\0\x01\0\0\0\0";
    assert_eq!(sent_bytes(&mut inner.io.pending), &to_php[..]);
    let from_php = b"\x01\x06\0\x01\0\x1b\x05\0Status: 404 Not Found\r\n\r\n\r\n\x01\x06\0\x01\0\x01\x03\0\x01\0\x08\0\0\0\0\0\0\0\0\0\0";
    let mut app = Transport::new(&[&from_php[..]]);
    let (head, _) = app.response(&mut inner, sent.rid);
    assert_eq!(head.status, 404);
}

#[test]
fn drop_or_fail_during_send_body() {
    let mut inner = inner();
    let con = Connection::new();
    let req = head(
        Request::post("/").header("Content-Length", "42").body(()).unwrap(),
        42,
    );
    let sent = con.send_request(&mut inner, &req, Vec::new(), permit()).unwrap();
    assert_eq!(sent.len, Some(42));
    //the body fails before its first chunk, so the response is given up
    let body = FCGIBody::new(sent.rid);
    assert!(inner.is_running(sent.rid));
    inner.drop_body(body);
    assert!(!inner.is_running(sent.rid));
    //params end is followed by abort
    let to_php = b"\x01\x01\0\x01\0\x08\0\0\0\x01\x01\0\0\0\0\0\x01\x04\0\x01\04\x04\0\x0c\0QUERY_STRING\x0e\x04REQUEST_METHODPOST\x0e\x02CONTENT_LENGTH42\x01\x04\0\x01\x01\x04\0\x01\0\0\0\0\x01\x02\0\x01\0\0\0\0";
    assert_eq!(sent_bytes(&mut inner.io.pending), &to_php[..]);
}

#[test]
fn drop_return_body() {
    //dont consume entire return body
    let mut inner = inner();
    let con = Connection::new();
    let req = head(Request::get("/").body(()).unwrap(), 0);
    let sent = con.send_request(&mut inner, &req, Vec::new(), permit()).unwrap();
    let to_php = b"\x01\x01\0\x01\0\x08\0\0\0\x01\x01\0\0\0\0\0\x01\x04\0\x01\0!\x07\0\x0c\0QUERY_STRING\x0e\x03REQUEST_METHODGET\x01\x04\0\x01\0!\x07\x01\x04\0\x01\0\0\0\0\x01\x05\0\x01\0\0\0\0";
    assert_eq!(sent_bytes(&mut inner.io.pending), &to_php[..]);
    let from_php = b"\x01\x06\0\x01\0\x1b\x05\0Status: 404 Not Found\r\n\r\n\r\n\x01\x06\0\x01\0";
    let mut app = Transport::new(&[&from_php[..]]);
    let (head, body) = app.response(&mut inner, sent.rid);
    assert_eq!(head.status, 404);
    //do not read the body
    assert!(inner.is_running(sent.rid));
    inner.drop_body(body);
    let to_php2 = b"\x01\x02\0\x01\0\0\0\0";
    assert_eq!(sent_bytes(&mut inner.io.pending), &to_php2[..]);
}

#[test]
fn drop_request_instantly() {
    let mut inner = inner();
    let con = Connection::new();
    let req = head(Request::get("/").body(()).unwrap(), 0);
    let sent = con.send_request(&mut inner, &req, Vec::new(), permit()).unwrap();
    inner.drop_body(FCGIBody::new(sent.rid));
    let buf = sent_bytes(&mut inner.io.pending);
    let to_php = b"\x01\x01\0\x01\0\x08\0\0\0\x01\x01\0\0\0\0\0";
    assert_eq!(buf[..16], to_php[..]);
    assert!(buf.ends_with(b"\x01\x02\0\x01\0\0\0\0"));
}

#[test]
fn a_long_answer_arrives_in_order() {
    let mut w = FCGIWriter::new(());
    let mut text = b"Status: 200 OK\r\n\r\n".to_vec();
    text.extend((0..200_000u32).map(|i| (i % 251) as u8));
    w.encode(FCGIType::STDOUT { request_id: 1, data: Bytes::from(text.clone()) });
    w.encode(FCGIType::EndRequest { request_id: 1, app_status: 3, proto_status: 0 });
    let bytes = sent_bytes(&mut w.pending);
    // pieces of these sizes cut headers, padding, and in the end also the end of the request
    let len = bytes.len();
    for last in [0, 1, 2, 3, 4, 5, 6, 7, 8, 13] {
        let mut inner = inner();
        inner.start_request(permit());
        let mut app = Transport { pieces: Vec::new(), unread: Vec::new() };
        let mut ended = Vec::new();
        let mut pieces: Vec<&[u8]> = bytes[..len - last].chunks(4099).collect();
        if last > 0 {
            pieces.push(&bytes[len - last..]);
        }
        for piece in pieces {
            app.unread.extend_from_slice(piece);
            assert!(inner.can_read(&app.unread));
            let (status, events) = inner.poll_resp(Fill::Ready(&app.unread));
            match status {
                ConStatus::Taken(n) => app.unread.drain(..n),
                _ => panic!("nothing was taken"),
            };
            ended.extend(events.ended);
        }
        assert!(app.unread.is_empty());
        assert_eq!(ended.len(), 1);
        assert_eq!((ended[0].0, ended[0].1.app_status), (1, 3));
        assert_eq!(ended[0].1.protocol_status, ProtoStatus::Complete);
        let mut body = FCGIBody::new(1);
        body.was_returned = true;
        let mut got = Vec::new();
        while let Some(d) = app.frame(&mut inner, &mut body) {
            got.extend_from_slice(&d);
        }
        assert_eq!(got, text);
        assert!(body.is_done());
    }
}

#[test]
fn the_body_follows_the_head_in_order() {
    // all of this has arrived before the head is read
    let data = b"\x01\x06\0\x01\0\x13\0\0Status: 200\r\n\r\nABCD\x01\x06\0\x01\0\x02\0\0EF\x01\x06\0\x01\0\x01\0\0G\x01\x03\0\x01\0\x08\0\0\0\0\0\0\0\0\0\0";
    let mut inner = inner();
    inner.start_request(permit());
    let mut app = Transport::new(&[&data[..]]);
    let (head, mut body) = app.response(&mut inner, 1);
    assert_eq!(head.status, 200);
    let mut got = Vec::new();
    while let Some(d) = app.frame(&mut inner, &mut body) {
        got.push(d);
    }
    assert_eq!(got, [&b"ABCD"[..], &b"EF"[..], &b"G"[..]]);
}

#[test]
fn errors_are_handed_out() {
    let mut inner: InnerConnection<()> = InnerConnection::new((), 2);
    inner.start_request(permit());
    inner.start_request(permit());
    // for both requests, for no request, and for management
    let data = b"\x01\x07\0\x02\0\x03\x05\0two.....\x01\x07\0\x09\0\x01\0\0x\x01\x07\0\0\0\x01\0\0y\x01\x06\0\x01\0\x01\0\0z\x01\x07\0\x01\0\x03\0\0one\x01\x07\0\x02\0\0\0\0\x01\x03\0\x02\0\x08\0\0\0\0\0\x04\x02\0\0\0";
    let (status, events) = inner.poll_resp(Fill::Ready(&data[..]));
    assert_eq!(status, ConStatus::Taken(data.len()));
    let said: Vec<(u16, &[u8])> = events.errors.iter().map(|e| (e.0, &e.1[..])).collect();
    assert_eq!(said, [(2, &b"two"[..]), (1, &b"one"[..]), (2, &b""[..])]);
    assert_eq!(events.ended.len(), 1);
    assert_eq!((events.ended[0].0, events.ended[0].1.app_status), (2, 4));
    assert_eq!(events.ended[0].1.protocol_status, ProtoStatus::Overloaded);
    // the other ways to poll hand them out as well
    let more = b"\x01\x07\0\x01\0\x01\0\0!";
    let (_, _, events) = inner.check_alive(Fill::Ready(&more[..]));
    assert_eq!((events.errors[0].0, &events.errors[0].1[..]), (1, &b"!"[..]));
    let mut body = FCGIBody::new(1);
    let (frame, _, events) = body.poll_frame(&mut inner, Fill::Ready(&more[..]), waker().1);
    assert_eq!((events.errors[0].0, &events.errors[0].1[..]), (1, &b"!"[..]));
    match frame {
        Frame::Data(d) => assert_eq!(&d[..], b"z"),
        _ => panic!("no data"),
    }
    // a connection that is gone has nothing to say
    let (_, events) = inner.poll_resp(Fill::Ready(b""));
    assert!(events.errors.is_empty() && events.ended.is_empty());
}

#[test]
fn a_body_of_unknown_length() {
    let mut inner = inner();
    let con = Connection::new();
    let mut req = request_with(HeaderMap::new());
    req.size_lower = 2;
    req.size_upper = None;
    let sent = con.send_request(&mut inner, &req, Vec::new(), permit()).unwrap();
    assert_eq!(sent.len, Some(2));
    sent_bytes(&mut inner.io.pending);
    let left = con.send_body(&mut inner, sent.rid, 2, Bytes::from_static(b"12345678"));
    assert_eq!(left, 0);
    let left = con.send_body(&mut inner, sent.rid, left, Bytes::from_static(b"abcdefgh"));
    assert_eq!(left, 0);
    con.end_body(&mut inner, sent.rid, left).unwrap();
    assert_eq!(
        sent_bytes(&mut inner.io.pending),
        b"\x01\x05\0\x01\0\x08\0\012345678\x01\x05\0\x01\0\x08\0\0abcdefgh\x01\x05\0\x01\0\0\0\0"
    );
}

fn request_with(headers: HeaderMap<HeaderValue>) -> RequestHead {
    RequestHead {
        query: None,
        method: Bytes::from_static(b"GET"),
        headers,
        size_lower: 0,
        size_upper: Some(0),
    }
}

/// The parameters that an application reads.
fn params_of(data: Vec<u8>) -> Vec<(String, Vec<u8>)> {
    let mut reader = async_fcgi::fastcgi::RecordReader::new();
    let mut data = Bytes::from(data);
    let mut all = Vec::new();
    while data.len() >= 8 {
        if data[1] != 4 {
            // begin, abort and standard input are not received by this side
            let n = 8 + (data[4] as usize) * 256 + data[5] as usize + data[6] as usize;
            let _ = data.split_to(n);
            continue;
        }
        match reader.read(&mut data).unwrap().body {
            async_fcgi::fastcgi::Body::Params(nv) => all.extend_from_slice(&nv.drain().0),
            _ => panic!("wrong body"),
        }
    }
    let mut d = async_fcgi::fastcgi::NVDrain(Bytes::from(all));
    let mut r = Vec::new();
    while d.has_pair() {
        let p = d.next().unwrap();
        r.push((String::from_utf8(p.name_data.to_vec()).unwrap(), p.value_data.to_vec()));
    }
    assert!(d.0.is_empty());
    r
}

fn several() -> HeaderMap<HeaderValue> {
    let mut h = HeaderMap::new();
    h.append("x-multi", "one".parse().unwrap());
    h.append("x-multi", "two".parse().unwrap());
    h.append("x-multi", "three".parse().unwrap());
    h.append("authorization", "nobody sees this".parse().unwrap());
    h.append("content-type", "text/plain".parse().unwrap());
    h
}

#[test]
fn strategies_for_several_headers() {
    for (mul, expected) in [
        (MultiHeaderStrategy::Combine, &b"one,two,three"[..]),
        (MultiHeaderStrategy::OnlyFirst, &b"one"[..]),
        (MultiHeaderStrategy::OnlyLast, &b"three"[..]),
    ] {
        let mut inner = inner();
        let con = Connection { header_mul: mul, header_nl: HeaderMultilineStrategy::Ignore };
        let req = request_with(several());
        assert!(con.fits(&req, &Vec::new()));
        con.send_request(&mut inner, &req, Vec::new(), permit()).unwrap();
        let got = params_of(sent_bytes(&mut inner.io.pending));
        assert_eq!(
            got,
            vec![
                ("QUERY_STRING".to_string(), b"".to_vec()),
                ("REQUEST_METHOD".to_string(), b"GET".to_vec()),
                ("CONTENT_TYPE".to_string(), b"text/plain".to_vec()),
                ("HTTP_X_MULTI".to_string(), expected.to_vec()),
            ]
        );
    }
}

#[test]
fn strategies_for_line_feeds() {
    let value = HeaderValue::from_bytes(b"a\tb").unwrap();
    let mut h = HeaderMap::new();
    h.insert("x-tab", value);
    for nl in [HeaderMultilineStrategy::Ignore, HeaderMultilineStrategy::ReturnError] {
        let mut inner = inner();
        let con = Connection { header_mul: MultiHeaderStrategy::OnlyFirst, header_nl: nl };
        let req = request_with(h.clone());
        assert!(con.send_request(&mut inner, &req, Vec::new(), permit()).is_ok());
        let got = params_of(sent_bytes(&mut inner.io.pending));
        assert_eq!(got[2], ("HTTP_X_TAB".to_string(), b"a\tb".to_vec()));
    }
    assert_eq!(SendError::MultilineHeader.to_text(), "multiline headers are not allowed");
}

#[test]
fn many_parameters_arrive_in_order() {
    let mut inner = inner();
    let con = Connection::new();
    let big = Bytes::from(vec![b'v'; 50000]);
    let given: Vec<(Bytes, Bytes)> = (0..4u8)
        .map(|i| (Bytes::copy_from_slice(&[b'A' + i]), big.clone()))
        .collect();
    let req = request_with(HeaderMap::new());
    assert!(con.fits(&req, &given));
    con.send_request(&mut inner, &req, given, permit()).unwrap();
    let bytes = sent_bytes(&mut inner.io.pending);
    assert_eq!(bytes.len() % 8, 0);
    let got = params_of(bytes);
    let names: Vec<&str> = got.iter().map(|p| p.0.as_str()).collect();
    assert_eq!(names, ["A", "B", "C", "D", "QUERY_STRING", "REQUEST_METHOD"]);
    assert!(got[..4].iter().all(|p| p.1 == big));
}

#[test]
fn unknown_body_size_counts_what_is_known() {
    let mut inner = inner();
    let con = Connection::new();
    let mut req = request_with(HeaderMap::new());
    req.size_lower = 18446744073709551615;
    req.size_upper = None;
    let sent = con.send_request(&mut inner, &req, Vec::new(), permit()).unwrap();
    assert_eq!(sent.len, Some(18446744073709551615u64 as usize));
    let got = params_of(sent_bytes(&mut inner.io.pending));
    assert_eq!(got[2], ("CONTENT_LENGTH".to_string(), b"18446744073709551615".to_vec()));
}

#[test]
fn a_body_that_is_too_short() {
    let mut inner = inner();
    let con = Connection::new();
    assert_eq!(con.send_body(&mut inner, 1, 5, Bytes::new()), 5);
    assert!(sent_bytes(&mut inner.io.pending).is_empty());
    assert_eq!(con.send_body(&mut inner, 1, 5, Bytes::from_static(b"abc")), 2);
    assert_eq!(con.end_body(&mut inner, 1, 2), Err(SendError::BodyTooShort));
    assert_eq!(
        sent_bytes(&mut inner.io.pending),
        b"\x01\x05\0\x01\0\x03\x05\0abc\x01\x05\0\x01\0"
    );
    assert_eq!(SendError::BodyTooShort.to_text(), "body too short");
}

#[test]
fn ids_are_not_in_use() {
    let mut inner: InnerConnection<()> = InnerConnection::new((), 3);
    let a = inner.start_request(permit());
    let b = inner.start_request(permit());
    assert_eq!((a, b), (1, 2));
    inner.drop_body(FCGIBody::new(a));
    assert_eq!(inner.start_request(permit()), 1);
    assert_eq!(inner.start_request(permit()), 3);
    assert!(inner.has_room());
}

#[test]
fn output_goes_to_its_request() {
    let mut inner: InnerConnection<()> = InnerConnection::new((), 2);
    inner.start_request(permit());
    inner.start_request(permit());
    let (first, w1) = waker();
    let (second, w2) = waker();
    let mut one = FCGIBody::new(1);
    let mut two = FCGIBody::new(2);
    assert!(matches!(one.poll_frame(&mut inner, Fill::Pending, w1).0, Frame::Pending));
    // for request 2, for no request, for management, and an end for request 2
    let data = b"\x01\x06\0\x02\0\x02\x06\0hi......\x01\x06\0\x09\0\x01\x07\0x.......\x01\x06\0\0\0\x01\x07\0y.......\x01\x03\0\x02\0\x08\0\0\0\0\0\0\0\0\0\0";
    assert!(inner.can_read(&data[..]));
    let (frame, status, events) = two.poll_frame(&mut inner, Fill::Ready(&data[..]), w2);
    assert_eq!(status, ConStatus::Taken(data.len()));
    assert!(events.wakers.is_empty());
    match frame {
        Frame::Data(d) => assert_eq!(&d[..], b"hi"),
        _ => panic!("no data"),
    }
    // not handed over yet, so the request is kept
    assert_eq!(two.transaction, ServerState::Running(2));
    assert!(matches!(two.poll_frame(&mut inner, Fill::Pending, waker().1).0, Frame::End));
    assert!(inner.is_running(2));
    two.was_returned = true;
    assert!(matches!(two.poll_frame(&mut inner, Fill::Pending, waker().1).0, Frame::End));
    assert!(two.is_done());
    assert_eq!(two.id(), 2);
    assert!(!inner.is_running(2));
    // data for request 1 wakes it
    let (status, events) = inner.poll_resp(Fill::Ready(b"\x01\x06\0\x01\0\x01\0\0z"));
    assert_eq!(status, ConStatus::Taken(9));
    assert_eq!(events.wakers.len(), 1);
    for w in events.wakers {
        w.wake();
    }
    assert_eq!(first.0.load(Ordering::SeqCst), 1);
    assert_eq!(second.0.load(Ordering::SeqCst), 0);
}

#[test]
fn a_closed_connection_ends_all_requests() {
    let mut inner: InnerConnection<()> = InnerConnection::new((), 2);
    inner.start_request(permit());
    inner.start_request(permit());
    let mut one = FCGIBody::new(1);
    let mut two = FCGIBody::new(2);
    let (c1, w1) = waker();
    let (c2, w2) = waker();
    one.poll_frame(&mut inner, Fill::Pending, w1);
    two.poll_frame(&mut inner, Fill::Pending, w2);
    let (status, events) = inner.poll_resp(Fill::Ready(b""));
    assert_eq!(status, ConStatus::Closed);
    assert_eq!(events.wakers.len(), 2);
    for w in events.wakers {
        w.wake();
    }
    assert_eq!(c1.0.load(Ordering::SeqCst) + c2.0.load(Ordering::SeqCst), 2);
    for body in [&mut one, &mut two] {
        assert!(matches!(body.poll_frame(&mut inner, Fill::Pending, waker().1).0, Frame::End));
    }
}

#[test]
fn a_failed_connection_ends_the_body() {
    let mut inner = inner();
    inner.start_request(permit());
    let mut body = FCGIBody::new(1);
    let failed = Fill::Failed { not_connected: false };
    let (frame, status, events) = body.poll_frame(&mut inner, failed, waker().1);
    assert!(matches!(frame, Frame::End));
    assert_eq!(status, ConStatus::Failed);
    assert!(events.wakers.is_empty());
}

#[test]
fn liveness() {
    let mut inner = inner();
    assert_eq!(inner.check_alive(Fill::Pending).0, Liveness::Alive);
    assert_eq!(inner.check_alive(Fill::Ready(b"")).0, Liveness::Dead);
    let gone = Fill::Failed { not_connected: true };
    assert_eq!(inner.check_alive(gone).0, Liveness::Dead);
    let broken = Fill::Failed { not_connected: false };
    assert_eq!(inner.check_alive(broken).0, Liveness::Failed);
    let (alive, status, _) = inner.check_alive(Fill::Ready(b"\x01\x06\0\x01\0\0\0\0\x01"));
    assert_eq!(alive, Liveness::Alive);
    assert_eq!(status, ConStatus::Taken(8));
    // a part of a header is kept
    let (alive, status, _) = inner.check_alive(Fill::Ready(b"\x01"));
    assert_eq!(alive, Liveness::Alive);
    assert_eq!(status, ConStatus::Taken(1));
    assert_eq!(&inner.early[..], b"\x01");
    // and lost with the connection
    assert_eq!(inner.check_alive(Fill::Ready(b"")).0, Liveness::Dead);
}

#[test]
fn a_cut_header_does_not_end_anything() {
    let data = b"\x01\x06\0\x01\0\x02\x03\0ab...\x01\x07\0\x01\0\x01\x02\0e..\x01\x06\0\x01\0\x01\0\0c\x01\x03\0\x01\0\x08\0\0\0\0\0\x09\0\0\0\0";
    for n in 1..=data.len() {
        let mut inner = inner();
        inner.start_request(permit());
        let mut unread = Vec::new();
        let (mut said, mut ended) = (Vec::new(), Vec::new());
        for piece in data.chunks(n) {
            // a piece is read until nothing of it is left
            unread.extend_from_slice(piece);
            while !unread.is_empty() {
                assert!(inner.can_read(&unread));
                let (status, events) = inner.poll_resp(Fill::Ready(&unread));
                match status {
                    ConStatus::Taken(n) => {
                        assert!(n > 0);
                        unread.drain(..n);
                    }
                    _ => panic!("nothing was taken"),
                }
                for (rid, text) in events.errors {
                    assert_eq!(rid, 1);
                    said.extend_from_slice(&text);
                }
                ended.extend(events.ended);
            }
        }
        assert_eq!(said, b"e");
        assert_eq!(ended.len(), 1);
        assert_eq!(ended[0].1.app_status, 9);
        assert!(inner.early.is_empty());
        let mut body = FCGIBody::new(1);
        body.was_returned = true;
        let mut got = Vec::new();
        while !body.is_done() {
            match body.poll_frame(&mut inner, Fill::Pending, waker().1).0 {
                Frame::Data(d) => got.extend_from_slice(&d),
                Frame::End => {}
                Frame::Pending => panic!("the body waits"),
            }
        }
        assert_eq!(got, b"abc");
    }
}

#[test]
fn a_kept_part_of_a_header_counts() {
    let mut inner = inner();
    inner.start_request(permit());
    inner.poll_resp(Fill::Ready(b"\x01\x63"));
    assert!(inner.can_read(b"\0\x01\0\0\0"));
    // now the header is there, and its type is unknown
    assert!(!inner.can_read(b"\0\x01\0\0\0\0"));
}

#[test]
fn reconnecting_starts_over() {
    let mut inner: InnerConnection<u8> = InnerConnection::new(1, 1);
    inner.start_request(permit());
    inner.poll_resp(Fill::Ready(b"\x01\x06\0\x01\0\x05\0\0he"));
    assert!(inner.fcgi_parser.current.is_some());
    inner.poll_resp(Fill::Ready(b"llo"));
    inner.poll_resp(Fill::Ready(b"\x01\x06"));
    assert_eq!(inner.early.len(), 2);
    inner.notify_everyone();
    inner.reconnect(2);
    assert!(inner.early.is_empty());
    assert_eq!(inner.io.io, 2);
    assert!(inner.fcgi_parser.current.is_none());
    assert!(!inner.io.pending.has_remaining());
    assert!(inner.is_running(1));
}

#[test]
fn unreadable_data_is_noticed() {
    let inner = inner();
    assert!(!inner.can_read(b"\x01\x63\0\0\0\0\0\0"));
    assert!(!inner.can_read(b"\x01\x06\0\x01\0\0\0\0\x01\x03\0\x01\0\x01\0\0x"));
    assert!(inner.can_read(b"\x01\x06\0\x01\0\0\0\0\x01\x03"));
}

#[test]
fn the_last_chunk_releases_the_request() {
    let mut inner = inner();
    inner.start_request(permit());
    let data = b"\x01\x06\0\x01\0\x01\0\0a\x01\x06\0\x01\0\x01\0\0b\x01\x03\0\x01\0\x08\0\0\0\0\0\0\0\0\0\0";
    inner.poll_resp(Fill::Ready(&data[..]));
    let mut body = FCGIBody::new(1);
    body.was_returned = true;
    let mut got = Vec::new();
    while !body.is_done() {
        match body.poll_frame(&mut inner, Fill::Pending, waker().1).0 {
            Frame::Data(d) => got.extend_from_slice(&d),
            _ => panic!("no data"),
        }
    }
    assert_eq!(got, b"ab");
    assert!(!inner.is_running(1));
    // a body that is done lets go of nothing
    inner.drop_body(body);
    inner.io.pending.advance(16);
    assert!(!inner.io.pending.has_remaining());
}

#[test]
fn status_field() {
    let mut h = HeaderMap::new();
    assert_eq!(response_status(&h, 200), 200);
    for (text, expected) in [
        ("404 Not Found", 404),
        ("999", 999),
        ("099", 200),
        ("20", 200),
        ("2x0", 200),
        ("100Continue", 100),
    ] {
        h.insert("status", text.parse().unwrap());
        assert_eq!(response_status(&h, 200), expected);
    }
}

#[test]
fn a_head_that_is_none() {
    let mut head = ResponseHead::new();
    assert!(matches!(
        head.on_data(Bytes::from_static(b"Status: 20")),
        Some(HeadStep::Pending)
    ));
    assert!(matches!(
        head.on_data(Bytes::from_static(b"1\r\nbroken\r\n\r\n")),
        Some(HeadStep::Invalid)
    ));
    assert_eq!(head.status, 500);
    assert!(head.headers.is_empty());
}

#[test]
fn a_head_in_pieces() {
    let whole = b"Status: 302 Found\r\nLocation: /x\r\n\r\nrest";
    for cut in 0..whole.len() - 6 {
        let mut head = ResponseHead::new();
        if cut > 0 {
            assert!(matches!(
                head.on_data(Bytes::copy_from_slice(&whole[..cut])),
                Some(HeadStep::Pending)
            ));
        }
        match head.on_data(Bytes::copy_from_slice(&whole[cut..])) {
            Some(HeadStep::Complete(rest)) => assert_eq!(&rest[..], b"rest"),
            _ => panic!("not complete"),
        }
        assert_eq!(head.status, 302);
        assert_eq!(head.headers.get("location").unwrap(), "/x");
    }
}
