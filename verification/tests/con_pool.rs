//! Pools of connections.
use async_fcgi::bufvec::BufList;
use async_fcgi::client::con_pool::{
    can_read_answer, query_values, Answer, Attempt, ConPool, Race, RaceStep, Raced,
};
use async_fcgi::client::connection::body::{FCGIBody, Frame};
use async_fcgi::client::connection::inner::{Fill, InnerConnection};
use async_fcgi::client::connection::request::{
    Connection, HeaderMultilineStrategy, MultiHeaderStrategy, RequestHead,
};
use async_fcgi::client::connection::response::ResponseHead;
use async_fcgi::codec::FCGIWriter;
use async_fcgi::fastcgi::{Body, Record};
use async_fcgi::number::{parse_int, to_decimal};
use bytes::{Buf, Bytes};
use http::HeaderMap;
use std::sync::Arc;
use std::task::{Wake, Waker};
use tokio::sync::Semaphore;

struct Nothing;

impl Wake for Nothing {
    fn wake(self: Arc<Self>) {}
}

fn sent_bytes(pending: &mut BufList<Bytes>) -> Bytes {
    let n = pending.remaining();
    pending.copy_to_bytes(n)
}

/// The application checks the query.
fn app_reads_query() {
    let mut stream = FCGIWriter::new(());
    query_values(&mut stream);
    let mut buf = sent_bytes(&mut stream.pending);
    let rec = Record::read(&mut buf).unwrap(); //val stream
    assert_eq!(rec.header.request_id, 0);
    let v = match rec.body {
        Body::GetValues(v) => v,
        _ => panic!("wrong body"),
    };
    let mut names = Vec::new();
    let mut drain = v.drain();
    while let Some(p) = drain.next() {
        names.push(p);
    }
    assert_eq!(names.len(), 3);

    let _ = Record::read(&mut buf).unwrap(); //val stream end

    assert!(!buf.has_remaining());
}

fn pool_for(from_php: &[u8]) -> ConPool {
    let mut answer = Answer::new();
    assert!(answer.can_read(from_php));
    assert!(answer.on_data(from_php));
    assert!(can_read_answer(&answer.recs));
    ConPool::new(answer.recs)
}

#[test]
fn con_pool_no_vals() {
    app_reads_query();
    let from_php = b"\x01\x0a\0\0\0!\x07\0\n\0MPXS_CONNS\x08\0MAX_REQS\t\0MAX_CONNS\0\0\0\0\0\0\0";
    let cp = pool_for(&from_php[..]);
    assert_eq!(cp.max_cons, 1);
    assert_eq!(cp.max_req_per_con, 1);
}

#[test]
fn tests_no_vals() {
    app_reads_query();
    let from_php = b"\x01\x0a\0\0\0!\x07\0\n\0MPXS_CONNS\x08\0MAX_REQS\t\0MAX_CONNS\0\0\0\0\0\0\0";
    let cp = pool_for(&from_php[..]);
    assert_eq!(cp.max_cons, 1);
    assert_eq!(cp.max_req_per_con, 1);
    assert_eq!(cp.header_mul, MultiHeaderStrategy::OnlyFirst);
    assert_eq!(cp.header_nl, HeaderMultilineStrategy::Ignore);
}

#[test]
fn mplex() {
    app_reads_query();
    let from_php = b"\x01\x0a\0\0\0\"\x06\0\n\0MPXS_CONNS\x08\0MAX_REQS\t\x01MAX_CONNS2\0\0\0\0\0\0";
    let cp = pool_for(&from_php[..]);
    assert_eq!(cp.max_cons, 2);
    assert_eq!(cp.max_req_per_con, 1);
    assert!(cp.wants_connection(0));
    assert!(cp.wants_connection(1));
    assert!(!cp.wants_connection(2));

    for query in [&b"1"[..], &b"2"[..], &b"3"[..]] {
        let mut inner: InnerConnection<()> = InnerConnection::new((), cp.max_req_per_con);
        let con = Connection { header_mul: cp.header_mul, header_nl: cp.header_nl };
        let req = RequestHead {
            query: Some(Bytes::copy_from_slice(query)),
            method: Bytes::from_static(b"GET"),
            headers: HeaderMap::new(),
            size_lower: 0,
            size_upper: Some(0),
        };
        let permit = Arc::new(Semaphore::new(1)).try_acquire_owned().unwrap();
        let sent = con.send_request(&mut inner, &req, Vec::new(), permit).unwrap();
        let buf = sent_bytes(&mut inner.io.pending);
        let to_php = b"\x01\x01\0\x01\0\x08\0\0\0\x01\x01\0\0\0\0\0\x01\x04\0\x01\0\"\x06\0\x0c\x01QUERY_STRING1\x0e\x03REQUEST_METHODGET\x01\x04\0\x01\0\"\x01\x04\0\x01\0\0\0\0\x01\x05\0\x01\0\0\0\0";
        assert_eq!(buf[..38], Bytes::from(&to_php[..38]));
        assert_eq!(buf[39..], Bytes::from(&to_php[39..]));
        assert_eq!(buf[38], query[0]);

        let from_php = b"\x01\x06\0\x01\0\x1b\x05\0Status: 404 Not Found\r\n\r\n\r\n\x01\x06\0\x01\0\x01\x03\0\x01\0\x08\0\0\0\0\0\0\0\0\0\0";
        let mut body = FCGIBody::new(sent.rid);
        let mut head = ResponseHead::new();
        let waker = Waker::from(Arc::new(Nothing));
        match body.poll_frame(&mut inner, Fill::Ready(&from_php[..]), waker).0 {
            Frame::Data(d) => {
                let step = head.on_data(d).unwrap();
                assert!(inner.take_head_step(sent.rid, step));
            }
            _ => panic!("no data"),
        }
        assert_eq!(head.status, 404);
    }
}

fn values(pairs: &[(&str, &str)]) -> Vec<u8> {
    let mut body = Vec::new();
    for (n, v) in pairs {
        body.push(n.len() as u8);
        body.push(v.len() as u8);
        body.extend_from_slice(n.as_bytes());
        body.extend_from_slice(v.as_bytes());
    }
    let mut r = vec![1, 10, 0, 0, (body.len() / 256) as u8, (body.len() % 256) as u8, 0, 0];
    r.extend_from_slice(&body);
    r
}

fn limits(pairs: &[(&str, &str)]) -> (u8, u16) {
    let cp = pool_for(&values(pairs));
    (cp.max_cons, cp.max_req_per_con)
}

#[test]
fn limits_of_an_application() {
    assert_eq!(limits(&[]), (1, 1));
    assert_eq!(limits(&[("MAX_CONNS", "10"), ("MAX_REQS", "50"), ("MPXS_CONNS", "1")]), (10, 50));
    assert_eq!(limits(&[("MAX_CONNS", "256"), ("MAX_REQS", "65536")]), (1, 1));
    assert_eq!(limits(&[("MAX_CONNS", "255"), ("MAX_REQS", "65535")]), (255, 65535));
    assert_eq!(limits(&[("MAX_CONNS", "+7"), ("MAX_REQS", "-7")]), (7, 1));
    assert_eq!(limits(&[("MAX_REQS", "50"), ("MPXS_CONNS", "0")]), (1, 1));
    // the last number counts
    assert_eq!(limits(&[("MAX_CONNS", "3"), ("MAX_CONNS", "4"), ("MAX_CONNS", "x")]), (4, 1));
    assert_eq!(limits(&[("max_conns", "10"), ("OTHER", "10")]), (1, 1));
    let mut two = values(&[("MAX_CONNS", "3")]);
    two.extend_from_slice(&values(&[("MAX_REQS", "5")]));
    let cp = pool_for(&two);
    assert_eq!((cp.max_cons, cp.max_req_per_con), (3, 5));
    // other records are passed over
    let mut two = values(&[("MAX_CONNS", "3")]);
    two[1] = 9;
    assert_eq!(pool_for(&two).max_cons, 1);
}

#[test]
fn no_multiplexing_is_one_request() {
    // wherever it is said, and everything else counts as well
    let (no, reqs, conns) = (("MPXS_CONNS", "0"), ("MAX_REQS", "10"), ("MAX_CONNS", "5"));
    assert_eq!(limits(&[no, reqs, conns]), (5, 1));
    assert_eq!(limits(&[reqs, no, conns]), (5, 1));
    assert_eq!(limits(&[conns, reqs, no]), (5, 1));
    assert_eq!(limits(&[no, reqs, ("MPXS_CONNS", "1")]), (1, 1));
    for (first, second) in [([no, conns], [reqs, reqs]), ([reqs, conns], [reqs, no])] {
        let mut two = values(&first);
        two.extend_from_slice(&values(&second));
        let cp = pool_for(&two);
        assert_eq!((cp.max_cons, cp.max_req_per_con), (5, 1));
    }
    // only a zero says so
    assert_eq!(limits(&[reqs, ("MPXS_CONNS", "")]), (1, 10));
    assert_eq!(limits(&[reqs, ("MPXS_CONNS", "00")]), (1, 10));
}

#[test]
fn strategies_are_kept() {
    let cp = ConPool::new_with_strategy(
        Vec::new(),
        MultiHeaderStrategy::Combine,
        HeaderMultilineStrategy::ReturnError,
    );
    assert_eq!(cp.header_mul, MultiHeaderStrategy::Combine);
    assert_eq!(cp.header_nl, HeaderMultilineStrategy::ReturnError);
    assert_eq!((cp.max_cons, cp.max_req_per_con), (1, 1));
}

#[test]
fn an_answer_in_pieces() {
    let whole = values(&[("MAX_CONNS", "4")]);
    for cut in 1..whole.len() {
        let mut answer = Answer::new();
        assert!(!answer.on_data(&whole[..cut]));
        assert!(answer.recs.is_empty());
        assert!(answer.on_data(&whole[cut..]));
        assert_eq!(answer.recs.len(), 1);
        assert_eq!(ConPool::new(answer.recs).max_cons, 4);
    }
    assert!(Answer::new().on_data(b""));
}

#[test]
fn broken_answers_are_noticed() {
    assert!(!Answer::new().can_read(b"\x01\x20\0\0\0\0\0\0"));
    let mut broken = values(&[("MAX_CONNS", "4")]);
    broken[9] = 200;
    let mut answer = Answer::new();
    assert!(answer.can_read(&broken));
    assert!(answer.on_data(&broken));
    assert!(!can_read_answer(&answer.recs));
    // nothing may follow that cannot be read
    let mut broken = values(&[("MPXS_CONNS", "0"), ("X", "")]);
    let n = broken.len();
    broken[n - 2] = 9;
    let mut answer = Answer::new();
    assert!(answer.on_data(&broken));
    assert!(!can_read_answer(&answer.recs));
}

#[test]
fn numbers() {
    assert_eq!(parse_int(b"", 9), None);
    assert_eq!(parse_int(b"+", 9), None);
    assert_eq!(parse_int(b"0", 9), Some(0));
    assert_eq!(parse_int(b"009", 9), Some(9));
    assert_eq!(parse_int(b"10", 9), None);
    assert_eq!(parse_int(b" 1", 9), None);
    assert_eq!(parse_int(b"1 ", 9), None);
    assert_eq!(parse_int(b"++1", 9), None);
    assert_eq!(parse_int(b"99999999999999999999", 65535), None);
    for n in [0u16, 1, 9, 10, 255, 256, 12345, 65535] {
        assert_eq!(to_decimal(n as u64), n.to_string().as_bytes());
        assert_eq!(parse_int(&to_decimal(n as u64), 65535), Some(n));
    }
    assert_eq!(to_decimal(u64::MAX), u64::MAX.to_string().as_bytes());
}

/// Runs a round of a race, and tells who was polled.
fn run(nu_con: Option<Attempt>, open: &[Attempt]) -> (Result<Raced, RaceStep>, Vec<RaceStep>) {
    let mut race = Race::new(nu_con.is_some(), open.len());
    let mut polled = Vec::new();
    loop {
        let step = race.step();
        let attempt = match step {
            RaceStep::PollNew => nu_con.unwrap(),
            RaceStep::PollOpen(i) => open[i],
            _ => return (Err(step), polled),
        };
        polled.push(step);
        if let Some(w) = race.polled(attempt) {
            return (Ok(w), polled);
        }
    }
}

#[test]
fn races() {
    let (failed, pending, ready) = (Attempt::Failed, Attempt::Pending, Attempt::Ready);
    let all = [failed, pending, ready, ready];
    assert_eq!(run(Some(ready), &all), (Ok(Raced::New), vec![RaceStep::PollNew]));
    assert_eq!(run(Some(pending), &all).0, Ok(Raced::Prep(2)));
    assert_eq!(
        run(None, &all),
        (
            Ok(Raced::Prep(2)),
            vec![RaceStep::PollOpen(0), RaceStep::PollOpen(1), RaceStep::PollOpen(2)]
        )
    );
    assert_eq!(run(Some(failed), &[ready]).0, Ok(Raced::Prep(0)));
    assert_eq!(run(Some(pending), &[pending]).0, Err(RaceStep::Wait));
    assert_eq!(run(None, &[]).0, Err(RaceStep::Wait));
}

#[test]
fn the_last_failure_is_reported() {
    let (failed, pending) = (Attempt::Failed, Attempt::Pending);
    let give_up = |who| Err(RaceStep::GiveUp(who));
    assert_eq!(run(Some(failed), &[]).0, give_up(Raced::New));
    assert_eq!(run(Some(failed), &[pending]).0, give_up(Raced::New));
    assert_eq!(run(Some(failed), &[failed, pending]).0, give_up(Raced::Prep(0)));
    assert_eq!(run(Some(pending), &[failed, failed]).0, give_up(Raced::Prep(1)));
    assert_eq!(run(None, &[pending, failed, pending]).0, give_up(Raced::Prep(1)));
}
