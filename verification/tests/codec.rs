//! Streams of records.
use async_fcgi::bufvec::BufList;
use async_fcgi::codec::{FCGIType, FCGIWriter, RECORD_LEN};
use async_fcgi::error::SendError;
use async_fcgi::fastcgi::{Body, FastCGIRole, NVDrain, NameValuePair, RecordReader, RecordType};
use async_fcgi::server::FCGICodec;
use bytes::Bytes;

fn take(pending: &mut BufList<Bytes>) -> Vec<u8> {
    let n = pending.remaining();
    pending.copy_to_bytes(n).to_vec()
}

fn encoded(item: FCGIType) -> Vec<u8> {
    let mut w = FCGIWriter::new("transport");
    w.encode(item);
    assert_eq!(w.io, "transport");
    take(&mut w.pending)
}

/// The payload of a stream of standard output, and the number of its records.
fn stdout(data: Vec<u8>) -> (Vec<u8>, usize) {
    let mut data = Bytes::from(data);
    let mut reader = RecordReader::new();
    let mut out = Vec::new();
    let mut n = 0;
    while let Some(r) = reader.read(&mut data) {
        n += 1;
        match r.body {
            Body::StdOut(s) => out.extend_from_slice(&s),
            _ => panic!("wrong body"),
        }
    }
    assert!(data.is_empty());
    (out, n)
}

#[test]
fn single_records() {
    assert_eq!(
        encoded(FCGIType::BeginRequest { request_id: 2, role: FastCGIRole::Filter, flags: 1 }),
        b"\x01\x01\0\x02\0\x08\0\0\0\x03\x01\0\0\0\0\0"
    );
    assert_eq!(
        encoded(FCGIType::AbortRequest { request_id: 0x0203 }),
        b"\x01\x02\x02\x03\0\0\0\0"
    );
    assert_eq!(
        encoded(FCGIType::EndRequest { request_id: 1, app_status: 0x01020304, proto_status: 3 }),
        b"\x01\x03\0\x01\0\x08\0\0\x01\x02\x03\x04\x03\0\0\0"
    );
}

#[test]
fn streams_of_data() {
    // the padding repeats the start of the header
    let data = Bytes::from_static(b"abc");
    for (item, code) in [
        (FCGIType::STDIN { request_id: 1, data: data.clone() }, 5),
        (FCGIType::STDOUT { request_id: 1, data: data.clone() }, 6),
        (FCGIType::STDERR { request_id: 1, data: data.clone() }, 7),
        (FCGIType::DATA { request_id: 1, data: data.clone() }, 8),
    ] {
        let mut expected = vec![1, code, 0, 1, 0, 3, 5, 0, b'a', b'b', b'c', 1, code, 0, 1, 0];
        expected.extend_from_slice(&[1, code, 0, 1, 0, 0, 0, 0]);
        assert_eq!(encoded(item), expected);
    }
    assert_eq!(
        encoded(FCGIType::STDOUT { request_id: 1, data: Bytes::new() }),
        b"\x01\x06\0\x01\0\0\0\0"
    );
}

#[test]
fn long_streams_are_cut() {
    for (len, records) in [
        (RECORD_LEN - 1, 2),
        (RECORD_LEN, 2),
        (RECORD_LEN + 1, 3),
        (3 * RECORD_LEN, 4),
        (3 * RECORD_LEN + 5, 5),
    ] {
        let data: Vec<u8> = (0..len).map(|i| (i % 251) as u8).collect();
        let bytes = encoded(FCGIType::STDOUT { request_id: 9, data: Bytes::from(data.clone()) });
        assert_eq!(bytes.len() % 8, 0);
        assert_eq!(stdout(bytes), (data, records));
    }
}

fn pairs() -> Vec<NameValuePair> {
    (0..3u8)
        .map(|i| {
            NameValuePair::new(
                Bytes::copy_from_slice(&[b'k', b'0' + i]),
                Bytes::from(vec![b'v'; 40000]),
            )
        })
        .collect()
}

#[test]
fn streams_of_pairs() {
    for (item, t) in [
        (FCGIType::Params { request_id: 4, p: pairs() }, RecordType::Params),
        (FCGIType::GetValues { p: pairs() }, RecordType::GetValues),
        (FCGIType::GetValuesResult { p: pairs() }, RecordType::GetValuesResult),
    ] {
        let mut data = Bytes::from(encoded(item));
        let mut reader = RecordReader::new();
        let mut all = Vec::new();
        while let Some(r) = reader.read(&mut data) {
            assert_eq!(r.header.rtype, t);
            assert_eq!(r.header.request_id, if t == RecordType::Params { 4 } else { 0 });
            match r.body {
                Body::Params(nv) | Body::GetValues(nv) | Body::GetValuesResult(nv) => {
                    all.extend_from_slice(&nv.drain().0)
                }
                _ => panic!("wrong body"),
            }
        }
        let mut drain = NVDrain(Bytes::from(all));
        for i in 0..3u8 {
            let p = drain.next().unwrap();
            assert_eq!(&p.name_data[..], [b'k', b'0' + i]);
            assert_eq!(p.value_data.len(), 40000);
        }
        assert!(drain.next().is_none());
    }
}

#[test]
fn pairs_one_by_one() {
    let mut w = FCGIWriter::new(());
    let mut kvw = w.kv_stream(1, RecordType::Params);
    kvw.add_kv(Bytes::from_static(b"a"), Bytes::from_static(b"1"));
    kvw.add(NameValuePair::new(Bytes::from_static(b"b"), Bytes::new()));
    kvw.extend(vec![(Bytes::from_static(b"c"), Bytes::from_static(b"33"))]);
    kvw.flush();
    assert_eq!(
        take(&mut w.pending),
        b"\x01\x04\0\x01\0\x0c\x04\0\x01\x01a1\x01\0b\x01\x02c33\x01\x04\0\x01\x01\x04\0\x01\0\0\0\0"
    );
}

#[test]
fn chunks_do_not_end_the_stream() {
    let mut w = FCGIWriter::new(());
    w.flush_data_chunk(Bytes::from_static(b"12345678"), 1, RecordType::StdIn);
    assert_eq!(take(&mut w.pending), b"\x01\x05\0\x01\0\x08\0\x0012345678");
    w.flush_data_chunk(Bytes::new(), 1, RecordType::StdIn);
    assert_eq!(take(&mut w.pending), b"\x01\x05\0\x01\0\0\0\0");
    let data = vec![b'x'; 2 * RECORD_LEN + 1];
    w.flush_data_chunk(Bytes::from(data.clone()), 1, RecordType::StdOut);
    let bytes = take(&mut w.pending);
    assert_eq!(bytes.len(), 2 * (RECORD_LEN + 8) + 16);
    assert_eq!(stdout(bytes), (data, 3));
}

#[test]
fn a_data_stream_does_not_depend_on_the_pieces() {
    let data: Vec<u8> = (0..RECORD_LEN + 100).map(|i| (i % 7) as u8).collect();
    let whole = encoded(FCGIType::STDOUT { request_id: 1, data: Bytes::from(data.clone()) });
    for size in [1000, RECORD_LEN, 70000] {
        let mut w = FCGIWriter::new(());
        let mut s = w.data_stream(1, RecordType::StdOut, data.len());
        for c in data.chunks(size) {
            w.data_chunk(&mut s, Bytes::copy_from_slice(c));
        }
        assert_eq!(w.data_end(s), Ok(()));
        assert_eq!(take(&mut w.pending), whole);
    }
}

#[test]
fn a_data_stream_that_is_too_short_is_aborted() {
    let mut w = FCGIWriter::new(());
    let mut s = w.data_stream(1, RecordType::StdIn, 5);
    w.data_chunk(&mut s, Bytes::from_static(b"1234"));
    assert_eq!(s.len, 1);
    assert_eq!(w.data_end(s), Err(SendError::BodyTooShort));
    assert_eq!(take(&mut w.pending), b"\x01\x02\0\x01\0\0\0\0");
    // more than announced is fine
    let mut s = w.data_stream(1, RecordType::StdIn, 1);
    w.data_chunk(&mut s, Bytes::from_static(b"1234"));
    assert_eq!(s.len, 0);
    assert_eq!(w.data_end(s), Ok(()));
}

#[test]
fn codec_is_a_value() {
    assert_eq!(FCGICodec::new(), FCGICodec {});
}
