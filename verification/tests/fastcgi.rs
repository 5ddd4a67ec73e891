//! Records and name-value pairs.
use async_fcgi::fastcgi::{
    BeginRequestBody, Body, FastCGIRole, Header, NVBody, NVBodyList, NVDrain, NameValuePair,
    ProtoStatus, Record, RecordReader, RecordType, STDINBody,
};
use bytes::{Buf, Bytes, BytesMut};

#[test]
fn encode_simple_get() {
    let mut b = BytesMut::with_capacity(80);
    BeginRequestBody::new(FastCGIRole::Responder, 0, 1).append(&mut b);
    let mut nv = NVBody::new();
    nv.add(NameValuePair::new(
        Bytes::from(&b"SCRIPT_FILENAME"[..]),
        Bytes::from(&b"/home/daniel/Public/test.php"[..]),
    ))
    .expect("record full");
    nv.to_record(RecordType::Params, 1).append(&mut b);
    NVBody::new().to_record(RecordType::Params, 1).append(&mut b);

    let mut dst = [0; 80];
    b.copy_to_slice(&mut dst);

    let expected = b"\x01\x01\0\x01\0\x08\0\0\0\x01\0\0\0\0\0\0\x01\x04\0\x01\0-\x03\0\x0f\x1cSCRIPT_FILENAME/home/daniel/Public/test.php\x01\x04\0\x01\x04\0\x01\0\0\0\0";

    assert_eq!(dst[..69], expected[..69]);
    //padding is uninit
    assert_eq!(dst[72..], expected[72..]);
}
#[test]
fn encode_post() {
    let mut b = BytesMut::with_capacity(104);
    BeginRequestBody::new(FastCGIRole::Responder, 0, 1).append(&mut b);
    let mut nv = NVBody::new();
    nv.add(NameValuePair::new(
        Bytes::from(&b"SCRIPT_FILENAME"[..]),
        Bytes::from(&b"/home/daniel/Public/test.php"[..]),
    ))
    .expect("record full");
    nv.to_record(RecordType::Params, 1).append(&mut b);
    NVBody::new().to_record(RecordType::Params, 1).append(&mut b);
    STDINBody::new(1, &mut Bytes::from(&b"a=b"[..])).append(&mut b);
    STDINBody::new(1, &mut Bytes::new()).append(&mut b);

    let mut dst = [0; 104];
    b.copy_to_slice(&mut dst);
    //padding is uninit
    dst[69] = 0xFF;
    dst[70] = 0xFF;
    dst[71] = 0xFF;
    dst[91] = 0xFF;
    dst[92] = 0xFF;
    dst[93] = 0xFF;
    dst[94] = 0xFF;
    dst[95] = 0xFF;
    let expected = b"\x01\x01\0\x01\0\x08\0\0\0\x01\0\0\0\0\0\0\x01\x04\0\x01\0-\x03\0\x0f\x1cSCRIPT_FILENAME/home/daniel/Public/test.php\xff\xff\xff\x01\x04\0\x01\0\0\0\0\x01\x05\0\x01\0\x03\x05\0a=b\xff\xff\xff\xff\xff\x01\x05\0\x01\0\0\0\0";

    assert_eq!(dst, &expected[..]);
}

#[test]
fn encode_long_param() {
    let mut b = BytesMut::with_capacity(190);
    BeginRequestBody::new(FastCGIRole::Responder, 0, 1).append(&mut b);
    let mut nv = NVBody::new();
    nv.add(NameValuePair::new(
        Bytes::from(&b"HTTP_ACCEPT"[..]),
        Bytes::from(&b"text/html,application/xhtml+xml,application/xml;q=0.9,image/avif,image/webp,image/apng,*/*;q=0.8,application/signed-exchange;v=b3;q=0.7"[..]),
    ))
    .expect("record full");
    nv.to_record(RecordType::Params, 1).append(&mut b);
    NVBody::new().to_record(RecordType::Params, 1).append(&mut b);

    let mut dst = [0; 184];
    b.copy_to_slice(&mut dst);

    //padding is uninit
    dst[175]=1;

    let expected = b"\x01\x01\0\x01\0\x08\0\0\0\x01\0\0\0\0\0\0\x01\x04\0\x01\0\x97\x01\0\x0b\x80\0\0\x87HTTP_ACCEPTtext/html,application/xhtml+xml,application/xml;q=0.9,image/avif,image/webp,image/apng,*/*;q=0.8,application/signed-exchange;v=b3;q=0.7\x01\x01\x04\0\x01\0\0\0\0";

    assert_eq!(dst, expected[..]);
}

fn pair(name: &[u8], value: &[u8]) -> NameValuePair {
    NameValuePair::new(Bytes::copy_from_slice(name), Bytes::copy_from_slice(value))
}

fn collect(mut d: NVDrain) -> Vec<(Vec<u8>, Vec<u8>)> {
    let mut r = Vec::new();
    loop {
        assert!(d.0.is_empty() || d.has_pair());
        match d.next() {
            Some(p) => r.push((p.name_data.to_vec(), p.value_data.to_vec())),
            None => return r,
        }
    }
}

#[test]
fn record_type_codes_round_trip() {
    for c in 0..=255u8 {
        match RecordType::try_from(c) {
            Ok(t) => {
                assert!((1..=11).contains(&c));
                assert_eq!(t.to_u8(), c);
            }
            Err(e) => {
                assert!(c == 0 || c > 11);
                assert_eq!(e, c);
            }
        }
    }
    assert_eq!(RecordType::try_from(6), Ok(RecordType::StdOut));
    assert_eq!(RecordType::GetValuesResult.to_text(), "GetValuesResult");
    assert_eq!(RecordType::UnknownType.to_text(), "UnknownType");
}

#[test]
fn proto_status_codes_round_trip() {
    for c in 0..=255u8 {
        match ProtoStatus::try_from(c) {
            Ok(t) => assert_eq!(t.to_u8(), c),
            Err(e) => {
                assert!(c > 3);
                assert_eq!(e, c);
            }
        }
    }
    assert_eq!(ProtoStatus::try_from(2), Ok(ProtoStatus::Overloaded));
    assert_eq!(ProtoStatus::CantMpxCon.to_text(), "CantMpxCon");
}

#[test]
fn role_codes() {
    assert_eq!(FastCGIRole::Responder.to_u16(), 1);
    assert_eq!(FastCGIRole::Authorizer.to_u16(), 2);
    assert_eq!(FastCGIRole::Filter.to_u16(), 3);
}

#[test]
fn header_pads_to_eight() {
    assert_eq!(Header::new(RecordType::StdIn, 1, 0).get_padding(), 0);
    assert_eq!(Header::new(RecordType::StdIn, 1, 1).get_padding(), 7);
    assert_eq!(Header::new(RecordType::StdIn, 1, 8).get_padding(), 0);
    assert_eq!(Header::new(RecordType::StdIn, 1, 0xffff).get_padding(), 1);
    for len in 0..100u16 {
        let h = Header::new(RecordType::Data, 7, len);
        assert_eq!((Header::HEADER_LEN + len as usize + h.get_padding() as usize) % 8, 0);
    }
}

#[test]
fn header_bytes_are_exact() {
    let mut b = BytesMut::new();
    Header::new(RecordType::StdErr, 0x0102, 0x0304).write_into(&mut b);
    assert_eq!(&b[..], b"\x01\x07\x01\x02\x03\x04\x04\0");
}

#[test]
fn pair_length_counts_prefixes() {
    assert_eq!(pair(b"a", b"").len(), 3);
    assert_eq!(pair(&[b'a'; 0x7f], b"b").len(), 0x7f + 1 + 2);
    assert_eq!(pair(&[b'a'; 0x80], b"b").len(), 0x80 + 1 + 5);
    assert_eq!(pair(&[b'a'; 0x80], &[b'b'; 0x80]).len(), 0x100 + 8);
}

#[test]
fn pairs_are_read_back() {
    let long = vec![b'x'; 300];
    let mut nv = NVBody::new();
    nv.add(pair(b"FIRST", b"1")).unwrap();
    nv.add(pair(b"EMPTY", b"")).unwrap();
    nv.add(pair(&long, b"2")).unwrap();
    nv.add(pair(b"LONG", &long)).unwrap();
    let got = collect(nv.drain());
    assert_eq!(
        got,
        vec![
            (b"FIRST".to_vec(), b"1".to_vec()),
            (b"EMPTY".to_vec(), b"".to_vec()),
            (long.clone(), b"2".to_vec()),
            (b"LONG".to_vec(), long),
        ]
    );
}

#[test]
fn drain_has_no_size() {
    assert_eq!(NVBody::new().drain().size_hint(), (1, None));
}

#[test]
fn broken_pairs_are_noticed() {
    assert!(!NVDrain(Bytes::new()).has_pair());
    assert!(!NVDrain(Bytes::from_static(b"\x01")).has_pair());
    assert!(!NVDrain(Bytes::from_static(b"\x01\x01a")).has_pair());
    assert!(!NVDrain(Bytes::from_static(b"\x80\0\0")).has_pair());
    assert!(NVDrain(Bytes::from_static(b"\x01\x01ab")).has_pair());
    assert!(NVDrain(Bytes::from_static(b"\x80\0\0\x01\0a")).has_pair());
}

#[test]
fn a_full_body_refuses_pairs() {
    let mut nv = NVBody::new();
    let big = vec![b'v'; 0xffff - 6];
    assert!(nv.fits(&pair(b"n", &big)));
    nv.add(pair(b"n", &big)).unwrap();
    assert_eq!(nv.len, 0xffff);
    assert!(!nv.fits(&pair(b"n", b"")));
    assert_eq!(nv.add(pair(b"n", b"")), Err(()));
    assert_eq!(nv.len, 0xffff);
    assert_eq!(collect(nv.drain()), vec![(b"n".to_vec(), big)]);
}

#[test]
fn lists_of_bodies_keep_pairs_in_order() {
    let value = vec![b'v'; 30000];
    let pairs: Vec<(Bytes, Bytes)> = (0..5u8)
        .map(|i| (Bytes::copy_from_slice(&[b'a' + i]), Bytes::copy_from_slice(&value)))
        .collect();
    let mut list = NVBodyList::from_iter(pairs);
    list.add(pair(b"z", b"last"));
    assert_eq!(list.bodies.len(), 3);
    let mut names = Vec::new();
    for b in list.bodies {
        assert!(b.len as usize <= 0xffff);
        for (n, _) in collect(b.drain()) {
            names.push(n[0]);
        }
    }
    assert_eq!(names, b"abcdez");
    let mut list = NVBodyList::new();
    list.extend(vec![(Bytes::from_static(b"k"), Bytes::new())]);
    assert_eq!(list.bodies.len(), 1);
}

#[test]
fn nv_records_are_read_back() {
    let mut nv = NVBody::new();
    nv.add(pair(b"MAX_CONNS", b"7")).unwrap();
    let mut b = BytesMut::new();
    nv.to_record(RecordType::GetValuesResult, 0).append(&mut b);
    assert_eq!(b.len() % 8, 0);
    let mut data = b.freeze();
    assert!(Record::is_readable(&data));
    let r = Record::read(&mut data).unwrap();
    assert!(data.is_empty());
    match r.body {
        Body::GetValuesResult(nv) => {
            assert_eq!(collect(nv.drain()), vec![(b"MAX_CONNS".to_vec(), b"7".to_vec())]);
        }
        _ => panic!("wrong body"),
    }
}

#[test]
fn stdin_takes_one_record() {
    let mut data = Bytes::from(vec![b'd'; 0x10000]);
    let r = STDINBody::new(3, &mut data);
    assert_eq!(r.header.content_length, 0xffff);
    assert_eq!(r.header.request_id, 3);
    assert_eq!(data.len(), 1);
}

#[test]
fn a_record_is_read_whole_or_not_at_all() {
    let whole = b"\x01\x06\0\x01\0\x03\x05\0abc.....rest";
    for n in 0..16 {
        let mut data = Bytes::copy_from_slice(&whole[..n]);
        assert!(Record::is_readable(&data));
        assert!(Record::read(&mut data).is_none());
        assert_eq!(data.len(), n);
    }
    let mut data = Bytes::copy_from_slice(whole);
    let r = Record::read(&mut data).unwrap();
    assert_eq!(&data[..], b"rest");
    match r.body {
        Body::StdOut(s) => assert_eq!(&s[..], b"abc"),
        _ => panic!("wrong body"),
    }
}

#[test]
fn unreadable_records_are_noticed() {
    // unknown type
    assert!(!Record::is_readable(&Bytes::from_static(b"\x01\x0c\0\0\0\0\0\0")));
    // a body that is not received
    assert!(!Record::is_readable(&Bytes::from_static(b"\x01\x05\0\0\0\0\0\0")));
    // the end of a request without its status
    assert!(!Record::is_readable(&Bytes::from_static(b"\x01\x03\0\x01\0\0\0\0")));
    assert!(!Record::is_readable(&Bytes::from_static(
        b"\x01\x03\0\x01\0\x08\0\0\0\0\0\0\x04\0\0\0"
    )));
    assert!(Record::is_readable(&Bytes::from_static(
        b"\x01\x03\0\x01\0\x08\0\0\0\0\0\0\x03\0\0\0"
    )));
    // an unknown type body needs its type
    assert!(!Record::is_readable(&Bytes::from_static(b"\x01\x0b\0\0\0\x01\0\0x")));
    let r = RecordReader::new();
    assert!(!r.is_readable(&Bytes::from_static(b"\x01\x0c\0\0\0\0\0\0")));
    assert!(r.is_readable(&Bytes::from_static(b"\x01\x0c\0\0")));
}

#[test]
fn end_request_is_taken_apart() {
    let mut data =
        Bytes::from_static(b"\x01\x03\0\x01\0\x08\0\0\x01\x02\x03\x04\x02\0\0\0");
    match Record::read(&mut data).unwrap().body {
        Body::EndRequest(e) => {
            assert_eq!(e.app_status, 0x01020304);
            assert_eq!(e.protocol_status, ProtoStatus::Overloaded);
        }
        _ => panic!("wrong body"),
    }
    let mut data = Bytes::from_static(b"\x01\x0b\0\0\0\x08\0\0\x63.......");
    match Record::read(&mut data).unwrap().body {
        Body::UnknownType(u) => assert_eq!(u.rtype, 0x63),
        _ => panic!("wrong body"),
    }
}

/// Reads all there is, and gives the payload of standard output and the number of records.
fn read_out(reader: &mut RecordReader, data: &mut Bytes) -> (Vec<u8>, usize) {
    let mut out = Vec::new();
    let mut n = 0;
    loop {
        assert!(reader.is_readable(data));
        match reader.read(data) {
            None => return (out, n),
            Some(r) => {
                n += 1;
                if let Body::StdOut(s) = r.body {
                    out.extend_from_slice(&s);
                }
            }
        }
    }
}

#[test]
fn reading_does_not_depend_on_the_pieces() {
    let whole = b"\x01\x06\0\x01\0\x05\x03\0hello...\x01\x06\0\x01\0\x02\x06\0!!......\x01\x06\0\x01\0\0\0\0";
    let mut all = Bytes::copy_from_slice(whole);
    let mut reader = RecordReader::new();
    let (expected, n) = read_out(&mut reader, &mut all);
    assert_eq!(expected, b"hello!!");
    assert_eq!(n, 3);
    assert!(all.is_empty());
    for cut in 0..whole.len() {
        let mut reader = RecordReader::new();
        let mut first = Bytes::copy_from_slice(&whole[..cut]);
        let (mut out, _) = read_out(&mut reader, &mut first);
        let mut rest = first.to_vec();
        rest.extend_from_slice(&whole[cut..]);
        let mut rest = Bytes::from(rest);
        let (more, _) = read_out(&mut reader, &mut rest);
        out.extend_from_slice(&more);
        assert_eq!(out, expected);
        assert!(rest.is_empty());
        assert!(reader.current.is_none());
    }
}

#[test]
fn an_end_is_handed_out_once_and_whole() {
    let whole = b"\x01\x03\0\x07\0\x08\x02\0\0\0\x01\x05\0\0\0\0..\x01\x06\0\x07\0\x01\0\0x";
    for a in 0..whole.len() {
        for b in a..whole.len() {
            let mut reader = RecordReader::new();
            let mut ends = Vec::new();
            let mut out = Vec::new();
            let mut left = Vec::new();
            for piece in [&whole[..a], &whole[a..b], &whole[b..]] {
                left.extend_from_slice(piece);
                let mut data = Bytes::from(left);
                loop {
                    assert!(reader.is_readable(&data));
                    match reader.read(&mut data) {
                        None => break,
                        Some(r) => {
                            assert_eq!(r.header.request_id, 7);
                            match r.body {
                                Body::EndRequest(e) => {
                                    assert_eq!(r.header.content_length, 8);
                                    ends.push((e.app_status, e.protocol_status));
                                }
                                Body::StdOut(s) => out.extend_from_slice(&s),
                                _ => panic!("wrong body"),
                            }
                        }
                    }
                }
                left = data.to_vec();
            }
            assert_eq!(ends, [(0x105, ProtoStatus::Complete)]);
            assert_eq!(out, b"x");
            assert!(left.is_empty());
            assert!(reader.current.is_none());
            assert_eq!((reader.held.len(), reader.skip), (0, 0));
        }
    }
}

#[test]
fn a_short_end_is_noticed_once_it_is_there() {
    let mut reader = RecordReader::new();
    let mut data = Bytes::from_static(b"\x01\x0b\0\0\0\x03\0\0\x63");
    assert!(reader.is_readable(&data));
    assert!(reader.read(&mut data).is_none());
    assert!(data.is_empty());
    assert_eq!(&reader.held[..], b"\x63");
    assert!(reader.is_readable(&Bytes::from_static(b"a")));
    assert!(!reader.is_readable(&Bytes::from_static(b"ab")));
}

#[test]
fn output_and_errors_in_pieces() {
    // padding of any length, and an empty record
    let whole = b"\x01\x07\0\x01\0\x03\x05\0err.....\x01\x06\0\x01\0\x02\x01\0ok.\x01\x07\0\x01\0\x01\0\0!\x01\x06\0\x01\0\0\x02\0..";
    for n in 1..whole.len() {
        let mut reader = RecordReader::new();
        let (mut out, mut err) = (Vec::new(), Vec::new());
        let mut left = Vec::new();
        for piece in whole.chunks(n) {
            left.extend_from_slice(piece);
            let mut data = Bytes::from(left);
            while let Some(r) = reader.read(&mut data) {
                match r.body {
                    Body::StdOut(s) => out.extend_from_slice(&s),
                    Body::StdErr(s) => err.extend_from_slice(&s),
                    _ => panic!("wrong body"),
                }
            }
            left = data.to_vec();
        }
        assert_eq!((&out[..], &err[..]), (&b"ok"[..], &b"err!"[..]));
        assert!(left.is_empty());
        assert!(reader.current.is_none());
    }
}

#[test]
fn a_cut_body_is_handed_out_in_parts() {
    let mut reader = RecordReader::new();
    let mut data = Bytes::from_static(b"\x01\x06\0\x02\0\x05\x03\0he");
    let r = reader.read(&mut data).unwrap();
    assert_eq!(r.header.content_length, 2);
    assert_eq!(r.header.padding_length, 0);
    assert!(data.is_empty());
    assert_eq!(reader.current.unwrap().content_length, 3);
    assert!(reader.read(&mut data).is_none());
    let mut data = Bytes::from_static(b"llo..");
    let r = reader.read(&mut data).unwrap();
    match r.body {
        Body::StdOut(s) => assert_eq!(&s[..], b"llo"),
        _ => panic!("wrong body"),
    }
    // the padding is still missing
    assert_eq!(data.len(), 2);
    assert_eq!(reader.current.unwrap().content_length, 0);
}

#[test]
fn bodies_are_filled() {
    let pair = |n: u8, len: usize| (Bytes::from(vec![n]), Bytes::from(vec![n; len]));
    // a long value takes six bytes more: 65535 is full
    let list = NVBodyList::from_iter(vec![
        pair(b'a', 65000),
        pair(b'b', 522),
        pair(b'c', 60000),
        pair(b'd', 5530),
        pair(b'e', 0),
    ]);
    let lens: Vec<u16> = list.bodies.iter().map(|b| b.len).collect();
    assert_eq!(lens, [65534, 60006, 5539]);
    for (body, first) in list.bodies.iter().zip([6 + 60000, 6 + 5530]) {
        assert!(body.len as usize + first > 65535);
    }
}
