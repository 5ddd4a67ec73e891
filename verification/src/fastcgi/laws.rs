//! What stands on the wire, byte by byte.
use bytes::Bytes;
use vstd::prelude::*;

use crate::buffer::{ascii, be16, be32, contents, read16, read32};
use crate::bufvec::BufList;
use crate::fastcgi::codes::{
    FastCGIRole, ProtoStatus, RecordType, LISTENSOCK_FILENO, MAX_CONNS, MAX_REQS, MPXS_CONNS,
};
use crate::fastcgi::params::{
    bodies_extend, encode_pairs, law_pairs_push, len_prefix, one_record, pair_bytes, pair_len,
    read_len, read_pair, read_pairs, NVBody, NVBodyList, NameValuePair, MAX_PART,
};
use crate::fastcgi::reader::{
    all_readable, lemma_first, lemma_step, read_all, read_step, seen, start, stream, waiting,
    Fragment, Place, RecordReader,
};
use crate::fastcgi::record::{
    appendable, begin_bytes, body_bytes, body_of, header_bytes, header_of, nv_record, padding,
    read_header, read_record, record_bytes, record_readable, zeros, BeginRequestBody, Body,
    BodyView, EndRequestBody, Header, Record, RecordView,
};

verus! {

// ---------------------------------------------------------------- numbers and texts

/// Numbers are written with the most significant byte first, in two bytes or in four.
pub proof fn law_big_endian(n: u16, m: u32)
    ensures
        be16(n).len() == 2,
        be16(n)[0] * 256 + be16(n)[1] == n,
        be32(m).len() == 4,
        be32(m)[0] * 0x100_0000 + be32(m)[1] * 0x1_0000 + be32(m)[2] * 256 + be32(m)[3] == m,
{
    let b = be32(m);
    assert(n as int == n as int / 256 * 256 + n as int % 256);
    assert(b[0] as int == m as int / 0x100_0000);
    assert(b[1] as int == m as int / 0x1_0000 % 256);
    assert(b[2] as int == m as int / 256 % 256);
    assert(b[3] as int == m as int % 256);
}

/// They are read in the same order.
pub proof fn law_big_endian_read(s: Seq<u8>)
    ensures
        s.len() >= 2 ==> read16(s) == 256 * s[0] + s[1],
        s.len() >= 4 ==> read32(s) == 0x100_0000 * s[0] + 0x1_0000 * s[1] + 256 * s[2] + s[3],
{
}

/// A text has one byte for each character.
pub proof fn law_text_bytes(s: Seq<char>, i: int)
    ensures
        ascii(s).len() == s.len(),
        0 <= i < s.len() ==> ascii(s)[i] == s[i] as u8,
{
}

/// A run of zeros holds nothing but zeros.
pub proof fn law_zeros(n: nat, i: int)
    ensures
        zeros(n).len() == n,
        0 <= i < n ==> zeros(n)[i] == 0,
{
}

/// The numbers and names that the protocol fixes.
pub proof fn law_protocol_numbers()
    ensures
        Header::HEADER_LEN == 8,
        Header::VERSION_1 == 1,
        Record::MGMT_REQUEST_ID == 0,
        BeginRequestBody::KEEP_CONN == 1,
        Body::MAX_LENGTH == 65535,
        MAX_PART == 0x7fff_ffff,
        LISTENSOCK_FILENO == 0,
        MAX_CONNS@ == "MAX_CONNS"@,
        MAX_REQS@ == "MAX_REQS"@,
        MPXS_CONNS@ == "MPXS_CONNS"@,
{
}

/// The number of each record type, role and status. No other number is one of a type, or of a
/// status.
pub proof fn law_codes(t: RecordType, role: FastCGIRole, status: ProtoStatus, c: u8)
    ensures
        t is BeginRequest <==> t.code() == 1,
        t is AbortRequest <==> t.code() == 2,
        t is EndRequest <==> t.code() == 3,
        t is Params <==> t.code() == 4,
        t is StdIn <==> t.code() == 5,
        t is StdOut <==> t.code() == 6,
        t is StdErr <==> t.code() == 7,
        t is Data <==> t.code() == 8,
        t is GetValues <==> t.code() == 9,
        t is GetValuesResult <==> t.code() == 10,
        t is UnknownType <==> t.code() == 11,
        RecordType::of_code(c) is Some <==> 1 <= c <= 11,
        RecordType::of_code(c) matches Some(k) ==> k.code() == c,
        role is Responder <==> role.code() == 1,
        role is Authorizer <==> role.code() == 2,
        role is Filter <==> role.code() == 3,
        status is Complete <==> status.code() == 0,
        status is CantMpxCon <==> status.code() == 1,
        status is Overloaded <==> status.code() == 2,
        status is UnknownRole <==> status.code() == 3,
        ProtoStatus::of_code(c) is Some <==> c <= 3,
        ProtoStatus::of_code(c) matches Some(k) ==> k.code() == c,
{
}

// ---------------------------------------------------------------- headers

/// A header takes eight bytes: version, type, two bytes of request id, two bytes of body
/// length, padding length, and a zero.
pub proof fn law_header_layout(h: Header)
    ensures
        ({
            let s = header_bytes(h);
            &&& s.len() == 8
            &&& s[0] == h.version
            &&& s[1] == h.rtype.code()
            &&& s[2] * 256 + s[3] == h.request_id
            &&& s[4] * 256 + s[5] == h.content_length
            &&& s[6] == h.padding_length
            &&& s[7] == 0
        }),
{
    law_big_endian(h.request_id, 0);
    law_big_endian(h.content_length, 0);
}

/// A header is read where there are eight bytes, the second of which is the number of a type:
/// each of its fields from its place.
pub proof fn law_header_read(s: Seq<u8>)
    ensures
        read_header(s) is Some <==> s.len() >= 8 && 1 <= s[1] <= 11,
        read_header(s) matches Some(h) ==> {
            &&& h.version == s[0]
            &&& h.rtype.code() == s[1]
            &&& h.request_id == s[2] * 256 + s[3]
            &&& h.content_length == s[4] * 256 + s[5]
            &&& h.padding_length == s[6]
        },
{
    if s.len() >= 8 {
        assert(s.skip(2)[0] == s[2] && s.skip(2)[1] == s[3]);
        assert(s.skip(4)[0] == s[4] && s.skip(4)[1] == s[5]);
    }
}

/// The header of a record tells its type, its request and the length of its body, in version
/// one. The padding is the least that makes the whole record a multiple of eight bytes.
pub proof fn law_header_of(rtype: RecordType, request_id: u16, len: u16)
    ensures
        ({
            let h = header_of(rtype, request_id, len);
            &&& h.version == 1
            &&& h.rtype == rtype
            &&& h.request_id == request_id
            &&& h.content_length == len
            &&& h.padding_length < 8
            &&& (len + h.padding_length) % 8 == 0
        }),
        0 <= padding(len as int) < 8,
        (len + padding(len as int)) % 8 == 0,
{
}

// ---------------------------------------------------------------- bodies

/// A request is begun with two bytes of role, one of flags, and five zeros.
pub proof fn law_begin_layout(b: BeginRequestBody)
    ensures
        ({
            let s = begin_bytes(b);
            &&& s.len() == 8
            &&& s[0] * 256 + s[1] == b.role.code()
            &&& s[2] == b.flags
            &&& forall|i: int| 3 <= i < 8 ==> s[i] == 0
        }),
{
    law_big_endian(b.role.code(), 0);
}

/// What a body of each type is read as. A stream of bytes is taken as it is; the end of a
/// request has four bytes of application status and one of protocol status; the report of an
/// unknown type starts with that type; all others are not received.
pub proof fn law_body_read(s: Seq<u8>)
    ensures
        body_of(s, RecordType::StdOut) == Some(BodyView::StdOut(s)),
        body_of(s, RecordType::StdErr) == Some(BodyView::StdErr(s)),
        body_of(s, RecordType::Params) == Some(BodyView::Params(s)),
        body_of(s, RecordType::GetValues) == Some(BodyView::GetValues(s)),
        body_of(s, RecordType::GetValuesResult) == Some(BodyView::GetValuesResult(s)),
        body_of(s, RecordType::EndRequest) is Some <==> s.len() >= 8 && s[4] <= 3,
        body_of(s, RecordType::EndRequest) matches Some(b) ==> (b matches BodyView::EndRequest(e)
            && {
            &&& e.app_status == 0x100_0000 * s[0] + 0x1_0000 * s[1] + 256 * s[2] + s[3]
            &&& e.protocol_status.code() == s[4]
        }),
        body_of(s, RecordType::UnknownType) is Some <==> s.len() >= 8,
        body_of(s, RecordType::UnknownType) matches Some(b) ==> (b matches BodyView::UnknownType(u)
            && u.rtype == s[0]),
        body_of(s, RecordType::BeginRequest) is None,
        body_of(s, RecordType::AbortRequest) is None,
        body_of(s, RecordType::StdIn) is None,
        body_of(s, RecordType::Data) is None,
{
}

// ---------------------------------------------------------------- records

/// A record that is written is its header, its bytes, and as many zeros as the header tells. A
/// request that is begun or aborted has no padding.
pub proof fn law_record_layout(r: RecordView)
    ensures
        ({
            let all = record_bytes(r);
            let body = all.skip(8);
            let pad = r.header.padding_length as int;
            &&& all.take(8) == header_bytes(r.header)
            &&& all.len() >= 8
            &&& match r.body {
                BodyView::BeginRequest(b) => body == begin_bytes(b),
                BodyView::Params(s) => {
                    &&& body.len() == s.len() + pad
                    &&& body.take(s.len() as int) == s
                    &&& forall|i: int| s.len() <= i < body.len() ==> body[i] == 0
                },
                BodyView::GetValues(s) => {
                    &&& body.len() == s.len() + pad
                    &&& body.take(s.len() as int) == s
                    &&& forall|i: int| s.len() <= i < body.len() ==> body[i] == 0
                },
                BodyView::GetValuesResult(s) => {
                    &&& body.len() == s.len() + pad
                    &&& body.take(s.len() as int) == s
                    &&& forall|i: int| s.len() <= i < body.len() ==> body[i] == 0
                },
                BodyView::StdIn(s) => {
                    &&& body.len() == s.len() + pad
                    &&& body.take(s.len() as int) == s
                    &&& forall|i: int| s.len() <= i < body.len() ==> body[i] == 0
                },
                _ => body.len() == 0,
            }
        }),
{
    law_header_layout(r.header);
    let all = record_bytes(r);
    assert(all.take(8) =~= header_bytes(r.header));
    assert(all.skip(8) =~= body_bytes(r));
    match r.body {
        BodyView::Params(s) => {
            assert(body_bytes(r).take(s.len() as int) =~= s);
        },
        BodyView::GetValues(s) => {
            assert(body_bytes(r).take(s.len() as int) =~= s);
        },
        BodyView::GetValuesResult(s) => {
            assert(body_bytes(r).take(s.len() as int) =~= s);
        },
        BodyView::StdIn(s) => {
            assert(body_bytes(r).take(s.len() as int) =~= s);
        },
        _ => {},
    }
}

/// Whatever a web server sends can be written.
pub proof fn law_appendable(r: RecordView)
    ensures
        r.body is BeginRequest || r.body is Params || r.body is GetValues
            || r.body is GetValuesResult || r.body is Abort ==> appendable(r),
        r.body matches BodyView::StdIn(s) ==> (s.len() > 0 || r.header.padding_length == 0
            ==> appendable(r)),
{
}

/// A record is read where its header, all of its body and all of its padding are there and its
/// body makes sense, and it takes all of that. Reading is refused at a header of an unknown
/// type, and at a whole record with a body that makes no sense.
pub proof fn law_record_read(s: Seq<u8>)
    ensures
        ({
            let len = s[4] * 256 + s[5];
            let end = 8 + len + s[6];
            let known = s.len() >= 8 && 1 <= s[1] <= 11;
            let whole = known && s.len() >= end;
            let body = body_of(s.subrange(8, 8 + len), RecordType::of_code(s[1])->0);
            &&& read_record(s) is Some <==> whole && body is Some
            &&& read_record(s) matches Some((r, n)) ==> {
                &&& n == end
                &&& Some(r.header) == read_header(s)
                &&& Some(r.body) == body
            }
            &&& record_readable(s) <==> s.len() < 8 || known && (whole ==> body is Some)
        }),
{
    law_header_read(s);
    if let Some(h) = read_header(s) {
        law_codes(h.rtype, FastCGIRole::Responder, ProtoStatus::Complete, s[1]);
    }
}

/// A record of name-value pairs has the type and the request it was made for, and these bytes.
pub proof fn law_nv_record(rtype: RecordType, request_id: u16, data: Seq<u8>)
    requires
        data.len() <= 65535,
    ensures
        ({
            let r = nv_record(rtype, request_id, data);
            &&& r.header.version == 1
            &&& r.header.rtype == rtype
            &&& r.header.request_id == request_id
            &&& r.header.content_length == data.len()
            &&& r.header.padding_length < 8
            &&& (data.len() + r.header.padding_length) % 8 == 0
            &&& rtype is Params ==> r.body == BodyView::Params(data)
            &&& rtype is GetValues ==> r.body == BodyView::GetValues(data)
            &&& rtype is GetValuesResult ==> r.body == BodyView::GetValuesResult(data)
        }),
{
}

// ---------------------------------------------------------------- name-value pairs

/// A length of up to 127 takes one byte. A longer one takes four, most significant first, with
/// the topmost bit set.
pub proof fn law_len_layout(n: int)
    ensures
        0 <= n <= 0x7f ==> len_prefix(n).len() == 1 && len_prefix(n)[0] == n,
        0x7f < n <= 0x7fff_ffff ==> {
            let p = len_prefix(n);
            &&& p.len() == 4
            &&& p[0] == 0x80 + n / 0x100_0000
            &&& p[1] == n / 0x1_0000 % 256
            &&& p[2] == n / 256 % 256
            &&& p[3] == n % 256
        },
{
    if 0x7f < n <= 0x7fff_ffff {
        lemma_top_bit(n as u32);
    }
}

/// Setting the topmost bit changes the first byte alone.
proof fn lemma_top_bit(n: u32)
    requires
        n <= 0x7fff_ffff,
    ensures
        (n + 0x8000_0000) / 0x100_0000 == 0x80 + n as int / 0x100_0000,
        (n + 0x8000_0000) / 0x1_0000 % 256 == n as int / 0x1_0000 % 256,
        (n + 0x8000_0000) / 256 % 256 == n as int / 256 % 256,
        (n + 0x8000_0000) % 256 == n as int % 256,
        n as int / 0x100_0000 <= 0x7f,
{
    let q = n as int / 0x100_0000;
    assert(n + 0x8000_0000 == (q + 0x80) * 0x100_0000 + n as int % 0x100_0000);
    assert((n + 0x8000_0000) / 0x1_0000 == n as int / 0x1_0000 + 0x80 * 256);
    assert((n + 0x8000_0000) / 256 == n as int / 256 + 0x80 * 0x1_0000);
}

/// A first byte up to 127 is a length. With a bigger one, it is four bytes that are, most
/// significant first, without the topmost bit.
pub proof fn law_len_read(s: Seq<u8>)
    ensures
        read_len(s) is Some <==> s.len() >= 1 && (s[0] >= 0x80 ==> s.len() >= 4),
        read_len(s) matches Some((n, width)) ==> {
            &&& s[0] < 0x80 ==> n == s[0] && width == 1
            &&& s[0] >= 0x80 ==> width == 4 && n == (s[0] - 0x80) * 0x100_0000 + s[1] * 0x1_0000
                + s[2] * 256 + s[3]
        },
{
}

/// A pair is written as both lengths, the name, and the value: each length in one byte up to
/// 127, else in four with the topmost bit set.
pub proof fn law_pair_layout(name: Seq<u8>, value: Seq<u8>)
    requires
        name.len() <= 0x7fff_ffff,
        value.len() <= 0x7fff_ffff,
    ensures
        ({
            let s = pair_bytes(name, value);
            let a = if name.len() <= 0x7f {
                1int
            } else {
                4
            };
            let b = if value.len() <= 0x7f {
                1int
            } else {
                4
            };
            &&& s.len() == a + b + name.len() + value.len()
            &&& a == 1 ==> s[0] == name.len()
            &&& a == 4 ==> s[0] >= 0x80 && (s[0] - 0x80) * 0x100_0000 + s[1] * 0x1_0000 + s[2] * 256
                + s[3] == name.len()
            &&& b == 1 ==> s[a] == value.len()
            &&& b == 4 ==> s[a] >= 0x80 && (s[a] - 0x80) * 0x100_0000 + s[a + 1] * 0x1_0000 + s[a
                + 2] * 256 + s[a + 3] == value.len()
            &&& s.subrange(a + b, a + b + name.len()) == name
            &&& s.skip(a + b + name.len()) == value
            &&& pair_len(name.len() as int, value.len() as int) == s.len()
        }),
{
    let s = pair_bytes(name, value);
    let p = len_prefix(name.len() as int);
    let q = len_prefix(value.len() as int);
    law_len_layout(name.len() as int);
    law_len_layout(value.len() as int);
    lemma_spelled(name.len() as int);
    lemma_spelled(value.len() as int);
    let (a, b) = (p.len() as int, q.len() as int);
    assert forall|i: int| 0 <= i < a implies #[trigger] s[i] == p[i] by {}
    assert forall|i: int| 0 <= i < b implies s[a + i] == #[trigger] q[i] by {}
    if b == 4 {
        assert(s[a + 0] == q[0] && s[a + 1] == q[1] && s[a + 2] == q[2] && s[a + 3] == q[3]);
    } else {
        assert(s[a + 0] == q[0]);
    }
    assert(s.subrange(a + b, a + b + name.len()) =~= name);
    assert(s.skip(a + b + name.len()) =~= value);
}

proof fn lemma_spelled(n: int)
    requires
        0 <= n <= 0x7fff_ffff,
    ensures
        n == n / 0x100_0000 * 0x100_0000 + n / 0x1_0000 % 256 * 0x1_0000 + n / 256 % 256 * 256 + n
            % 256,
{
}

/// The pair at the start of some bytes, whatever they are: both lengths are read, then so many
/// bytes of name, and so many of value. There is none where bytes are missing.
pub proof fn law_pair_read(s: Seq<u8>)
    ensures
        ({
            let wn = if s[0] < 0x80 {
                1int
            } else {
                4
            };
            let n = if wn == 1 {
                s[0] as int
            } else {
                (s[0] - 0x80) * 0x100_0000 + s[1] * 0x1_0000 + s[2] * 256 + s[3]
            };
            let wv = if s[wn] < 0x80 {
                1int
            } else {
                4
            };
            let v = if wv == 1 {
                s[wn] as int
            } else {
                (s[wn] - 0x80) * 0x100_0000 + s[wn + 1] * 0x1_0000 + s[wn + 2] * 256 + s[wn + 3]
            };
            let at = wn + wv;
            let there = s.len() >= 1 && s.len() >= wn + 1 && s.len() >= at && s.len() >= at + n + v;
            read_pair(s) == if there {
                Some((s.subrange(at, at + n), s.subrange(at + n, at + n + v), at + n + v))
            } else {
                None
            }
        }),
{
    law_len_read(s);
    if let Some((n, wn)) = read_len(s) {
        if s.len() >= wn {
            let t = s.skip(wn);
            law_len_read(t);
            assert forall|i: int| 0 <= i < t.len() implies #[trigger] t[i] == s[wn + i] by {}
            if t.len() > 0 {
                assert(t[0] == s[wn + 0]);
            }
            if t.len() >= 4 {
                assert(t[1] == s[wn + 1] && t[2] == s[wn + 2] && t[3] == s[wn + 3]);
            }
        }
    }
}

/// Pairs are written one after the other.
pub proof fn law_pairs_layout(
    pairs: Seq<(Seq<u8>, Seq<u8>)>,
    pair: (Seq<u8>, Seq<u8>),
)
    ensures
        encode_pairs(Seq::empty()) == Seq::<u8>::empty(),
        encode_pairs(pairs.push(pair)) == encode_pairs(pairs) + pair_bytes(pair.0, pair.1),
{
    law_pairs_push(pairs, pair);
}

/// Pairs are read one after the other, and all bytes have to be part of a pair.
pub proof fn law_pairs_read(s: Seq<u8>)
    ensures
        s.len() == 0 ==> read_pairs(s) == Some(Seq::<(Seq<u8>, Seq<u8>)>::empty()),
        s.len() > 0 && read_pair(s) is None ==> read_pairs(s) is None,
        s.len() > 0 ==> (read_pair(s) matches Some((name, value, n)) ==> {
            let more = read_pairs(s.skip(n));
            &&& read_pairs(s) is Some <==> more is Some
            &&& more is Some ==> read_pairs(s) == Some(seq![(name, value)] + more->0)
        }),
{
}

/// A pair goes to the last body if that has at most 65535 bytes with it, else it is the first
/// one of a new body. The other bodies stay as they are.
pub proof fn law_bodies_push(
    bodies: Seq<Seq<u8>>,
    pairs: Seq<(Seq<u8>, Seq<u8>)>,
    pair: (Seq<u8>, Seq<u8>),
)
    requires
        bodies.len() > 0,
    ensures
        ({
            let before = bodies_extend(bodies, pairs);
            let after = bodies_extend(bodies, pairs.push(pair));
            let bytes = pair_bytes(pair.0, pair.1);
            let last = before.len() - 1;
            &&& bodies_extend(bodies, Seq::empty()) == bodies
            &&& before.len() > 0
            &&& if before[last].len() + bytes.len() <= 65535 {
                after == before.update(last, before[last] + bytes)
            } else {
                after == before.push(bytes)
            }
        }),
    decreases pairs.len(),
{
    assert(pairs.push(pair).drop_last() =~= pairs);
    if pairs.len() > 0 {
        law_bodies_push(bodies, pairs.drop_last(), pairs.last());
        assert(pairs.drop_last().push(pairs.last()) =~= pairs);
    }
    let before = bodies_extend(bodies, pairs);
    let after = bodies_extend(bodies, pairs.push(pair));
    let last = before.len() - 1;
    let bytes = pair_bytes(pair.0, pair.1);
    if before[last].len() + bytes.len() <= 65535 {
        assert(after =~= before.update(last, before[last] + bytes));
    }
}

/// A pair can be held by one record if it has a name and takes at most 65535 bytes, lengths
/// included.
pub proof fn law_one_record(pair: (Seq<u8>, Seq<u8>))
    ensures
        one_record(pair) <==> pair.0.len() > 0 && pair_bytes(pair.0, pair.1).len() <= 65535,
{
}

/// A status of an application is read back as it was written.
pub proof fn law_end_layout(e: EndRequestBody, s: Seq<u8>)
    requires
        s.len() >= 8,
        s[0] * 0x100_0000 + s[1] * 0x1_0000 + s[2] * 256 + s[3] == e.app_status,
        s[4] == e.protocol_status.code(),
    ensures
        body_of(s, RecordType::EndRequest) == Some(BodyView::EndRequest(e)),
{
}

// ---------------------------------------------------------------- the reader

/// Without eight bytes of a header nothing is taken and nothing is handed out.
pub proof fn law_read_waits_for_header(s: Seq<u8>)
    requires
        s.len() < 8,
    ensures
        read_step(start(), s).fragment is None,
        read_step(start(), s).rest == s,
        read_step(start(), s).at == start(),
{
}

/// A new header is followed by its body, of which nothing has arrived before.
pub proof fn law_read_after_header(s: Seq<u8>)
    requires
        s.len() >= 8,
    ensures
        1 <= s[1] <= 11 ==> (read_header(s) matches Some(h) && read_step(start(), s) == read_step(
            Place { current: Some(h), held: Seq::empty(), skip: 0 },
            s.skip(8),
        )),
        s[1] < 1 || s[1] > 11 ==> read_step(start(), s).fragment is None && read_step(
            start(),
            s,
        ).rest == s,
{
    law_header_read(s);
}

/// A stream of bytes does not wait for the whole record: what has arrived of its body is handed
/// out, as a record of that length without padding, and the rest is waited for.
pub proof fn law_read_part_of_stream(h: Header, s: Seq<u8>)
    requires
        !(h.rtype is EndRequest),
        !(h.rtype is UnknownType),
        0 < s.len() < h.content_length,
    ensures
        ({
            let step = read_step(Place { current: Some(h), held: Seq::empty(), skip: 0 }, s);
            &&& step.fragment matches Some(f) && f.payload == s && f.header.rtype == h.rtype
                && f.header.request_id == h.request_id && f.header.content_length == s.len()
                && f.header.padding_length == 0 && f.header.version == h.version
            &&& step.rest.len() == 0
            &&& step.at.current matches Some(c) && c.content_length == h.content_length - s.len()
                && c.rtype == h.rtype && c.request_id == h.request_id && c.padding_length
                == h.padding_length && c.version == h.version
            &&& step.at.held.len() == 0
            &&& step.at.skip == 0
        }),
{
}

/// The end of a request and the report of an unknown type are held until they are whole.
pub proof fn law_read_holds_end(h: Header, held: Seq<u8>, s: Seq<u8>)
    requires
        h.rtype is EndRequest || h.rtype is UnknownType,
        s.len() < h.content_length,
    ensures
        ({
            let step = read_step(Place { current: Some(h), held, skip: 0 }, s);
            &&& step.fragment is None
            &&& step.rest.len() == 0
            &&& step.at.held == held + s
            &&& step.at.skip == 0
            &&& step.at.current matches Some(c) && c.content_length == h.content_length - s.len()
                && c.rtype == h.rtype && c.request_id == h.request_id && c.padding_length
                == h.padding_length && c.version == h.version
        }),
{
}

/// A body that is there, with its padding, is handed out with what was held of it, and the
/// padding is dropped.
pub proof fn law_read_whole(h: Header, held: Seq<u8>, s: Seq<u8>)
    requires
        h.content_length + h.padding_length <= s.len(),
        held.len() + h.content_length <= 65535,
    ensures
        ({
            let step = read_step(Place { current: Some(h), held, skip: 0 }, s);
            &&& step.fragment matches Some(f) && f.payload == held + s.take(h.content_length as int)
                && f.header.rtype == h.rtype && f.header.request_id == h.request_id
                && f.header.content_length == held.len() + h.content_length
                && f.header.padding_length == h.padding_length && f.header.version == h.version
            &&& step.rest == s.skip(h.content_length + h.padding_length)
            &&& step.at == start()
        }),
{
    let step = read_step(Place { current: Some(h), held, skip: 0 }, s);
    assert(step.rest =~= s.skip(h.content_length + h.padding_length));
}

/// Padding that was missing is dropped as far as it has arrived.
pub proof fn law_read_drops_padding(k: int, s: Seq<u8>)
    requires
        0 < k <= 255,
    ensures
        ({
            let at = Place { current: None, held: Seq::empty(), skip: k };
            let step = read_step(at, s);
            &&& s.len() < k ==> step.fragment is None && step.rest.len() == 0 && step.at == (
            Place { current: None, held: Seq::empty(), skip: k - s.len() })
            &&& s.len() >= k ==> step == read_step(start(), s.skip(k))
        }),
{
}

/// A body without its padding is handed out all the same, and the padding is waited for.
pub proof fn law_read_without_padding(h: Header, held: Seq<u8>, s: Seq<u8>)
    requires
        h.content_length <= s.len() < h.content_length + h.padding_length,
        0 < held.len() + h.content_length <= 65535,
        held.len() > 0 ==> h.rtype is EndRequest || h.rtype is UnknownType,
    ensures
        ({
            let step = read_step(Place { current: Some(h), held, skip: 0 }, s);
            let missing = h.content_length + h.padding_length - s.len();
            &&& step.fragment matches Some(f) && f.payload == held + s.take(h.content_length as int)
                && f.header.rtype == h.rtype && f.header.request_id == h.request_id
            &&& h.rtype is EndRequest || h.rtype is UnknownType ==> step.rest.len() == 0
                && step.at.current is None && step.at.skip == missing
            &&& !(h.rtype is EndRequest) && !(h.rtype is UnknownType) ==> step.rest == s.skip(
                h.content_length as int,
            ) && (step.at.current matches Some(c) && c.content_length == 0 && c.padding_length
                == h.padding_length && c.rtype == h.rtype && c.request_id == h.request_id)
        }),
{
}

/// Nothing is handed out where nothing has arrived of a body, nor for a record without bytes
/// before its padding is there.
pub proof fn law_read_waits_for_body(h: Header, s: Seq<u8>)
    ensures
        ({
            let at = Place { current: Some(h), held: Seq::empty(), skip: 0 };
            let step = read_step(at, s);
            &&& s.len() == 0 && h.content_length > 0 ==> step.fragment is None && step.at == at
                && step.rest.len() == 0
            &&& h.content_length == 0 && s.len() < h.padding_length ==> step.fragment is None
                && step.at == at && step.rest == s
        }),
{
    let at = Place { current: Some(h), held: Seq::empty(), skip: 0 };
    let step = read_step(at, s);
    if s.len() == 0 && h.content_length > 0 {
        assert(s =~= Seq::empty());
        assert(step.at.held =~= Seq::empty());
    }
    if h.content_length == 0 && s.len() < h.padding_length {
        assert(s.skip(0) =~= s);
    }
}

/// Reads follow one another until one hands nothing out, and all of them have to make sense.
pub proof fn law_read_all(at: Place, s: Seq<u8>)
    requires
        waiting(at),
    ensures
        ({
            let step = read_step(at, s);
            let more = read_all(step.at, step.rest);
            &&& step.fragment is None ==> {
                &&& read_all(at, s).fragments.len() == 0
                &&& read_all(at, s).at == step.at
                &&& read_all(at, s).rest == step.rest
                &&& all_readable(at, s) <==> (step.at == start() ==> step.rest.len() < 8 || (1
                    <= step.rest[1] <= 11))
            }
            &&& step.fragment matches Some(f) ==> {
                &&& read_all(at, s).fragments == seq![f] + more.fragments
                &&& read_all(at, s).at == more.at
                &&& read_all(at, s).rest == more.rest
                &&& all_readable(at, s) <==> body_of(f.payload, f.header.rtype) is Some
                    && all_readable(step.at, step.rest)
            }
        }),
{
    lemma_step(at, s);
    law_header_read(read_step(at, s).rest);
}

/// What was read of a type for a request: the bytes of each part, in order.
pub proof fn law_stream_of(f: Fragment, fs: Seq<Fragment>, t: RecordType, id: u16)
    ensures
        stream(Seq::empty(), t, id).len() == 0,
        !seen(Seq::empty(), t, id),
        f.header.rtype == t && f.header.request_id == id ==> stream(seq![f] + fs, t, id)
            == f.payload + stream(fs, t, id) && seen(seq![f] + fs, t, id),
        f.header.rtype != t || f.header.request_id != id ==> stream(seq![f] + fs, t, id) == stream(
            fs,
            t,
            id,
        ) && seen(seq![f] + fs, t, id) == seen(fs, t, id),
{
    lemma_first(f, fs, t, id);
}

/// A reader waits for nothing at first.
pub proof fn law_start()
    ensures
        start().current is None,
        start().held.len() == 0,
        start().skip == 0,
{
}

// ---------------------------------------------------------------- views

/// Buffers are seen as what they hold, one by one, and together as all of that in order.
pub proof fn law_buffers_seen(list: BufList<Bytes>, i: int)
    ensures
        list.chunks().len() == list.bufs@.len(),
        0 <= i < list.bufs@.len() ==> list.chunks()[i] == contents(list.bufs@[i]),
        list.bytes() == list.chunks().flatten(),
{
}

/// A pair, a body of pairs, and a list of such bodies are seen as their bytes.
pub proof fn law_pairs_seen(pair: NameValuePair, nv: NVBody, list: NVBodyList, i: int)
    ensures
        pair@ == (contents(pair.name_data), contents(pair.value_data)),
        nv.data() == nv.pairs.chunks().flatten(),
        list@.len() == list.bodies@.len(),
        0 <= i < list.bodies@.len() ==> list@[i] == list.bodies@[i].data(),
{
}

/// A record is seen as its header and what its body holds.
pub proof fn law_record_seen(r: Record)
    ensures
        r@.header == r.header,
        match r.body {
            Body::BeginRequest(b) => r@.body == BodyView::BeginRequest(b),
            Body::EndRequest(b) => r@.body == BodyView::EndRequest(b),
            Body::UnknownType(b) => r@.body == BodyView::UnknownType(b),
            Body::Params(nv) => r@.body == BodyView::Params(nv.data()),
            Body::StdIn(b) => r@.body == BodyView::StdIn(contents(b)),
            Body::StdErr(b) => r@.body == BodyView::StdErr(contents(b)),
            Body::StdOut(b) => r@.body == BodyView::StdOut(contents(b)),
            Body::Abort => r@.body == BodyView::Abort,
            Body::GetValues(nv) => r@.body == BodyView::GetValues(nv.data()),
            Body::GetValuesResult(nv) => r@.body == BodyView::GetValuesResult(nv.data()),
        },
{
}

/// A reader is seen as the header that is under way, what is held of its body, and the padding
/// that is missing.
pub proof fn law_reader_seen(r: RecordReader)
    ensures
        r@.current == r.current,
        r@.held == contents(r.held),
        r@.skip == r.skip,
        r@ == start() ==> r.wf(),
{
}

} // verus!
