//! What a stream that was written reads as.
use bytes::Bytes;
use vstd::prelude::*;

use crate::buffer::{be16, be32, contents, lemma_assoc, lemma_read32};
use crate::codec::{
    all_sendable, chunk_bytes, encodable, full_records, head, item_bytes, kv_step, leftover,
    padded_record, sendable, stream_bytes, stream_end, views, FCGIType, FCGIWriter, RECORD_LEN,
};
use crate::fastcgi::laws::{law_big_endian, law_header_layout, law_header_of};
use crate::fastcgi::params::{
    encode_pairs, law_pairs_round_trip, pair_views, read_pairs, MAX_PART,
};
use crate::fastcgi::reader::{
    law_reading_in_any_pieces, lemma_first, read_all, read_body, read_pieces, read_step, seen,
    start, stream, wholes, Fragment, Reading,
};
use crate::fastcgi::record::{
    body_of, header_bytes, header_of, law_header_round_trip, padding, zeros,
    BodyView,
};
use crate::fastcgi::{
    EndRequestBody, FastCGIRole, Header, NameValuePair, ProtoStatus, RecordType,
};

verus! {

/// Everything that is written for a stream is a multiple of eight bytes.
pub proof fn law_streams_aligned(t: RecordType, id: u16, p: Seq<u8>)
    ensures
        full_records(t, id, p).len() % 8 == 0,
        stream_bytes(t, id, p).len() % 8 == 0,
        chunk_bytes(t, id, p).len() % 8 == 0,
    decreases p.len(),
{
    lemma_leftover(p);
    if p.len() > RECORD_LEN {
        law_streams_aligned(t, id, p.skip(RECORD_LEN as int));
    }
}

/// At most one record's worth of bytes is held back.
pub proof fn lemma_leftover(p: Seq<u8>)
    ensures
        leftover(p).len() <= RECORD_LEN,
    decreases p.len(),
{
    if p.len() > RECORD_LEN {
        lemma_leftover(p.skip(RECORD_LEN as int));
    }
}

/// A body that is there whole, and its padding, are taken in one read.
proof fn lemma_whole_body(h: Header, payload: Seq<u8>, pad: Seq<u8>, rest: Seq<u8>)
    requires
        payload.len() == h.content_length,
        pad.len() == h.padding_length,
    ensures
        ({
            let step = read_body(h, Seq::empty(), payload + pad + rest);
            &&& step.at == start()
            &&& step.rest == rest
            &&& step.fragment == Some(Fragment { header: h, payload })
        }),
{
    let t = payload + pad + rest;
    assert(t.take(h.content_length as int) =~= payload);
    assert(t.skip(h.content_length as int) =~= pad + rest);
    assert((pad + rest).skip(h.padding_length as int) =~= rest);
    assert(Seq::<u8>::empty() + payload =~= payload);
}

/// A record that starts with the header `h` is read from what follows the header.
proof fn lemma_after_header(h: Header, t: Seq<u8>)
    ensures
        read_step(start(), header_bytes(h) + t) == read_body(h, Seq::empty(), t),
        header_bytes(h).len() == Header::HEADER_LEN,
{
    law_header_round_trip(h, t);
    assert((header_bytes(h) + t).skip(Header::HEADER_LEN as int) =~= t);
}

/// A whole record is read back as it is, whatever its padding, and then what follows it.
pub proof fn law_record_round_trip(h: Header, payload: Seq<u8>, pad: Seq<u8>, rest: Seq<u8>)
    requires
        payload.len() == h.content_length,
        pad.len() == h.padding_length,
    ensures
        ({
            let s = header_bytes(h) + payload + pad + rest;
            let more = read_all(start(), rest);
            read_all(start(), s) == (Reading {
                at: more.at,
                rest: more.rest,
                fragments: seq![Fragment { header: h, payload }] + more.fragments,
            })
        }),
{
    let head = header_bytes(h);
    let t = payload + pad + rest;
    lemma_after_header(h, t);
    lemma_whole_body(h, payload, pad, rest);
    lemma_behind(head, payload, pad, rest);
    lemma_all(head + t, h, payload, rest);
}

proof fn lemma_behind(a: Seq<u8>, b: Seq<u8>, c: Seq<u8>, d: Seq<u8>)
    ensures
        a + b + c + d == a + (b + c + d),
{
    assert(a + b + c + d =~= a + (b + c + d));
}

/// What is read when the first read takes a record whole.
proof fn lemma_all(s: Seq<u8>, h: Header, payload: Seq<u8>, rest: Seq<u8>)
    requires
        rest.len() < s.len(),
        read_step(start(), s).at == start(),
        read_step(start(), s).rest == rest,
        read_step(start(), s).fragment == Some(Fragment { header: h, payload }),
    ensures
        ({
            let more = read_all(start(), rest);
            read_all(start(), s) == (Reading {
                at: more.at,
                rest: more.rest,
                fragments: seq![Fragment { header: h, payload }] + more.fragments,
            })
        }),
{
}

/// A record as it stands on the wire.
pub struct Framed {
    pub header: Header,
    pub payload: Seq<u8>,
    pub pad: Seq<u8>,
}

/// Whether each header tells the lengths of what follows it.
pub open spec fn all_framed(records: Seq<Framed>) -> bool {
    forall|i: int|
        0 <= i < records.len() ==> (#[trigger] records[i]).payload.len()
            == records[i].header.content_length && records[i].pad.len()
            == records[i].header.padding_length
}

/// The bytes of records, one after the other.
pub open spec fn wire(records: Seq<Framed>) -> Seq<u8>
    decreases records.len(),
{
    if records.len() == 0 {
        Seq::empty()
    } else {
        let r = records[0];
        header_bytes(r.header) + r.payload + r.pad + wire(records.drop_first())
    }
}

/// What the records hold.
pub open spec fn held_in(records: Seq<Framed>) -> Seq<Fragment> {
    records.map_values(|r: Framed| Fragment { header: r.header, payload: r.payload })
}

/// Whole records are read back one by one, and nothing is left.
pub proof fn law_records_round_trip(records: Seq<Framed>)
    requires
        all_framed(records),
    ensures
        read_all(start(), wire(records)) == (Reading {
            at: start(),
            rest: Seq::empty(),
            fragments: held_in(records),
        }),
    decreases records.len(),
{
    if records.len() == 0 {
        assert(held_in(records) =~= Seq::empty());
    } else {
        let r = records[0];
        let more = records.drop_first();
        assert forall|i: int| 0 <= i < more.len() implies (#[trigger] more[i]).payload.len()
            == more[i].header.content_length && more[i].pad.len()
            == more[i].header.padding_length by {
            assert(more[i] == records[i + 1]);
        }
        law_records_round_trip(more);
        law_record_round_trip(r.header, r.payload, r.pad, wire(more));
        let f = Fragment { header: r.header, payload: r.payload };
        assert(held_in(records) =~= seq![f] + held_in(more));
    }
}

/// Whole records, with any padding and cut anywhere, are read back as their contents: for each
/// type and request the same bytes in the same order, and each end of a request once. Every
/// byte is consumed, and nothing is waited for.
pub proof fn law_records_in_pieces(records: Seq<Framed>, pieces: Seq<Seq<u8>>)
    requires
        all_framed(records),
        pieces.len() > 0,
        pieces.flatten() == wire(records),
    ensures
        ({
            let r = read_pieces(start(), Seq::empty(), pieces);
            &&& r.at == start()
            &&& r.rest == Seq::<u8>::empty()
            &&& forall|t: RecordType, id: u16| #[trigger]
                stream(r.fragments, t, id) == stream(held_in(records), t, id)
            &&& forall|t: RecordType, id: u16| #[trigger]
                seen(r.fragments, t, id) == seen(held_in(records), t, id)
            &&& wholes(r.fragments) == wholes(held_in(records))
        }),
{
    law_records_round_trip(records);
    law_reading_in_any_pieces(start(), Seq::empty(), pieces);
    assert(Seq::<u8>::empty() + pieces.flatten() =~= pieces.flatten());
}

/// `r` is `more` with the bytes `p` of type `t` for the request `id` before it.
pub open spec fn reads_first(
    r: Reading,
    t: RecordType,
    id: u16,
    p: Seq<u8>,
    more: Reading,
) -> bool {
    &&& r.at == more.at
    &&& r.rest == more.rest
    &&& stream(r.fragments, t, id) == p + stream(more.fragments, t, id)
    &&& seen(r.fragments, t, id)
    &&& forall|t2: RecordType, id2: u16|
        t2 != t || id2 != id ==> #[trigger] stream(r.fragments, t2, id2) == stream(
            more.fragments,
            t2,
            id2,
        )
    &&& forall|t2: RecordType, id2: u16|
        t2 != t || id2 != id ==> #[trigger] seen(r.fragments, t2, id2) == seen(
            more.fragments,
            t2,
            id2,
        )
}

/// What is read from `s` when no record is under way.
#[verifier::opaque]
spec fn outcome(s: Seq<u8>) -> Reading {
    read_all(start(), s)
}

proof fn lemma_outcome(s: Seq<u8>)
    ensures
        outcome(s) == read_all(start(), s),
{
    reveal(outcome);
}

proof fn lemma_reads_record(
    h: Header,
    payload: Seq<u8>,
    pad: Seq<u8>,
    rest: Seq<u8>,
)
    requires
        payload.len() == h.content_length,
        pad.len() == h.padding_length,
    ensures
        reads_first(
            outcome(header_bytes(h) + payload + pad + rest),
            h.rtype,
            h.request_id,
            payload,
            outcome(rest),
        ),
{
    reveal(outcome);
    law_record_round_trip(h, payload, pad, rest);
    let more = outcome(rest).fragments;
    let f = Fragment { header: h, payload };
    let all = outcome(header_bytes(h) + payload + pad + rest).fragments;
    assert(all == seq![f] + more);
    assert forall|t: RecordType, id: u16|
        #![trigger stream(all, t, id)]
        #![trigger seen(all, t, id)]
        stream(all, t, id) == (if h.rtype == t && h.request_id == id {
            payload + stream(more, t, id)
        } else {
            stream(more, t, id)
        }) && seen(all, t, id) == (h.rtype == t && h.request_id == id || seen(more, t, id)) by {
        lemma_first(f, more, t, id);
    }
}

/// What is read first and what is read then.
pub proof fn lemma_reads_join(
    r: Reading,
    t: RecordType,
    id: u16,
    p: Seq<u8>,
    more: Reading,
    q: Seq<u8>,
    last: Reading,
)
    requires
        reads_first(r, t, id, p, more),
        reads_first(more, t, id, q, last),
    ensures
        reads_first(r, t, id, p + q, last),
{
    let tail = stream(last.fragments, t, id);
    assert(p + (q + tail) =~= p + q + tail);
    assert forall|t2: RecordType, id2: u16| t2 != t || id2 != id implies #[trigger] stream(
        r.fragments,
        t2,
        id2,
    ) == stream(last.fragments, t2, id2) by {
        assert(stream(more.fragments, t2, id2) == stream(last.fragments, t2, id2));
    }
    assert forall|t2: RecordType, id2: u16| t2 != t || id2 != id implies #[trigger] seen(
        r.fragments,
        t2,
        id2,
    ) == seen(last.fragments, t2, id2) by {
        assert(seen(more.fragments, t2, id2) == seen(last.fragments, t2, id2));
    }
}

proof fn lemma_regroup(h: Seq<u8>, a: Seq<u8>, x: Seq<u8>, y: Seq<u8>, rest: Seq<u8>)
    ensures
        h + a + x + y + rest == h + a + Seq::<u8>::empty() + (x + y + rest),
{
    assert(h + a + x + y + rest =~= h + a + Seq::<u8>::empty() + (x + y + rest));
}

/// The first of several records of a stream, whose last part is written as `end`.
proof fn lemma_reads_full(t: RecordType, id: u16, p: Seq<u8>, end: Seq<u8>, rest: Seq<u8>)
    requires
        p.len() > RECORD_LEN,
    ensures
        reads_first(
            outcome(full_records(t, id, p) + end + rest),
            t,
            id,
            p.take(RECORD_LEN as int),
            outcome(full_records(t, id, p.skip(RECORD_LEN as int)) + end + rest),
        ),
{
    let n = RECORD_LEN as int;
    let h = header_of(t, id, RECORD_LEN as u16);
    let x = full_records(t, id, p.skip(n));
    lemma_reads_record(h, p.take(n), Seq::empty(), x + end + rest);
    lemma_regroup(header_bytes(h), p.take(n), x, end, rest);
}

proof fn lemma_reads_padded(t: RecordType, id: u16, p: Seq<u8>, rest: Seq<u8>)
    requires
        p.len() <= RECORD_LEN,
    ensures
        reads_first(
            outcome(padded_record(t, id, p) + rest),
            t,
            id,
            p,
            outcome(rest),
        ),
{
    let h = header_of(t, id, p.len() as u16);
    let pad = header_bytes(h).take(padding(p.len() as int));
    law_header_round_trip(h, rest);
    lemma_reads_record(h, p, pad, rest);
}

proof fn lemma_reads_end(t: RecordType, id: u16, p: Seq<u8>, rest: Seq<u8>)
    requires
        p.len() <= RECORD_LEN,
    ensures
        reads_first(
            outcome(stream_end(t, id, p) + rest),
            t,
            id,
            p,
            outcome(rest),
        ),
{
    let none = Seq::<u8>::empty();
    let hb = head(t, id, 0);
    let tail = hb + rest;
    assert(hb + none + none + rest =~= tail);
    lemma_reads_record(header_of(t, id, 0), none, none, rest);
    assert(reads_first(outcome(tail), t, id, none, outcome(rest)));
    if p.len() > 0 {
        let one = padded_record(t, id, p);
        assert(stream_end(t, id, p) + rest == one + hb + rest);
        assert(one + hb + rest =~= one + tail);
        lemma_reads_padded(t, id, p, tail);
        lemma_reads_join(
            outcome(one + tail),
            t,
            id,
            p,
            outcome(tail),
            none,
            outcome(rest),
        );
        assert(p + none =~= p);
    } else {
        assert(none + hb + rest =~= tail);
        assert(p =~= none);
    }
}

proof fn lemma_reads_stream(t: RecordType, id: u16, p: Seq<u8>, rest: Seq<u8>)
    ensures
        reads_first(
            outcome(stream_bytes(t, id, p) + rest),
            t,
            id,
            p,
            outcome(rest),
        ),
    decreases p.len(),
{
    if p.len() > RECORD_LEN {
        let n = RECORD_LEN as int;
        lemma_reads_stream(t, id, p.skip(n), rest);
        lemma_reads_full(t, id, p, stream_end(t, id, leftover(p)), rest);
        lemma_reads_join(
            outcome(stream_bytes(t, id, p) + rest),
            t,
            id,
            p.take(n),
            outcome(stream_bytes(t, id, p.skip(n)) + rest),
            p.skip(n),
            outcome(rest),
        );
        assert(p.take(n) + p.skip(n) =~= p);
    } else {
        assert(full_records(t, id, p) + stream_end(t, id, p) =~= stream_end(t, id, p));
        lemma_reads_end(t, id, p, rest);
    }
}

proof fn lemma_reads_chunk(t: RecordType, id: u16, p: Seq<u8>, rest: Seq<u8>)
    ensures
        reads_first(
            outcome(chunk_bytes(t, id, p) + rest),
            t,
            id,
            p,
            outcome(rest),
        ),
    decreases p.len(),
{
    if p.len() > RECORD_LEN {
        let n = RECORD_LEN as int;
        lemma_reads_chunk(t, id, p.skip(n), rest);
        lemma_reads_full(t, id, p, padded_record(t, id, leftover(p)), rest);
        lemma_reads_join(
            outcome(chunk_bytes(t, id, p) + rest),
            t,
            id,
            p.take(n),
            outcome(chunk_bytes(t, id, p.skip(n)) + rest),
            p.skip(n),
            outcome(rest),
        );
        assert(p.take(n) + p.skip(n) =~= p);
    } else {
        assert(full_records(t, id, p) + padded_record(t, id, p) =~= padded_record(t, id, p));
        lemma_reads_padded(t, id, p, rest);
    }
}

/// A stream that was written is read back: its bytes come out for its type and request, in
/// order and nothing else, and what follows it is read as if it stood alone.
pub proof fn law_stream_round_trip(t: RecordType, id: u16, p: Seq<u8>, rest: Seq<u8>)
    ensures
        reads_first(
            read_all(start(), stream_bytes(t, id, p) + rest),
            t,
            id,
            p,
            read_all(start(), rest),
        ),
{
    lemma_reads_stream(t, id, p, rest);
    lemma_outcome(stream_bytes(t, id, p) + rest);
    lemma_outcome(rest);
}

/// A part of a stream that was written without an end is read back in the same way.
pub proof fn law_chunk_round_trip(t: RecordType, id: u16, p: Seq<u8>, rest: Seq<u8>)
    ensures
        reads_first(
            read_all(start(), chunk_bytes(t, id, p) + rest),
            t,
            id,
            p,
            read_all(start(), rest),
        ),
{
    lemma_reads_chunk(t, id, p, rest);
    lemma_outcome(chunk_bytes(t, id, p) + rest);
    lemma_outcome(rest);
}

/// What has been written of a stream of the bytes `p` of which the last part is held back.
pub open spec fn written_part(p: Seq<u8>) -> Seq<u8> {
    p.take(p.len() - leftover(p).len())
}

/// `r` is `more` with the bytes `p` of type `t` for the request `id` before it, or just `more`
/// if there are none.
pub open spec fn reads_some(
    r: Reading,
    t: RecordType,
    id: u16,
    p: Seq<u8>,
    more: Reading,
) -> bool {
    if p.len() == 0 {
        r == more
    } else {
        reads_first(r, t, id, p, more)
    }
}

/// The full records of a stream that was not ended are read back.
pub proof fn law_full_records_round_trip(t: RecordType, id: u16, p: Seq<u8>, rest: Seq<u8>)
    ensures
        reads_some(
            read_all(start(), full_records(t, id, p) + rest),
            t,
            id,
            written_part(p),
            read_all(start(), rest),
        ),
{
    lemma_reads_fulls(t, id, p, rest);
    lemma_outcome(full_records(t, id, p) + rest);
    lemma_outcome(rest);
}

proof fn lemma_reads_fulls(t: RecordType, id: u16, p: Seq<u8>, rest: Seq<u8>)
    ensures
        leftover(p).len() <= p.len(),
        reads_some(
            outcome(full_records(t, id, p) + rest),
            t,
            id,
            written_part(p),
            outcome(rest),
        ),
    decreases p.len(),
{
    let none = Seq::<u8>::empty();
    if p.len() > RECORD_LEN {
        let n = RECORD_LEN as int;
        let tail = p.skip(n);
        lemma_reads_fulls(t, id, tail, rest);
        lemma_reads_full(t, id, p, none, rest);
        let x = full_records(t, id, tail);
        assert(full_records(t, id, p) + none =~= full_records(t, id, p));
        assert(x + none =~= x);
        if written_part(tail).len() > 0 {
            lemma_reads_join(
                outcome(full_records(t, id, p) + rest),
                t,
                id,
                p.take(n),
                outcome(x + rest),
                written_part(tail),
                outcome(rest),
            );
        }
        assert(p.take(n) + written_part(tail) =~= written_part(p));
        assert(p.take(n) + none =~= p.take(n));
    } else {
        assert(full_records(t, id, p) + rest =~= rest);
    }
}

/// The start of a request that was written is read back.
pub proof fn law_begin_request_round_trip(
    request_id: u16,
    role: FastCGIRole,
    flags: u8,
    rest: Seq<u8>,
)
    ensures
        reads_first(
            read_all(
                start(),
                item_bytes(FCGIType::BeginRequest { request_id, role, flags }) + rest,
            ),
            RecordType::BeginRequest,
            request_id,
            be16(role.code()) + (seq![flags] + zeros(5)),
            read_all(start(), rest),
        ),
{
    let item = FCGIType::BeginRequest { request_id, role, flags };
    let h = header_of(RecordType::BeginRequest, request_id, 8);
    let payload = be16(role.code()) + (seq![flags] + zeros(5));
    assert(payload.len() == 8);
    lemma_regroup_end(header_bytes(h), be16(role.code()), seq![flags], zeros(5), rest);
    lemma_reads_record(h, payload, Seq::empty(), rest);
    lemma_outcome(item_bytes(item) + rest);
    lemma_outcome(rest);
}

/// An abort that was written is read back.
pub proof fn law_abort_round_trip(request_id: u16, rest: Seq<u8>)
    ensures
        reads_first(
            read_all(start(), item_bytes(FCGIType::AbortRequest { request_id }) + rest),
            RecordType::AbortRequest,
            request_id,
            Seq::empty(),
            read_all(start(), rest),
        ),
{
    let h = header_of(RecordType::AbortRequest, request_id, 0);
    let none = Seq::<u8>::empty();
    lemma_reads_record(h, none, none, rest);
    assert(header_bytes(h) + none + none =~= header_bytes(h));
    lemma_outcome(item_bytes(FCGIType::AbortRequest { request_id }) + rest);
    lemma_outcome(rest);
}

/// Pairs that were written as a stream are read back, however many records they took.
pub proof fn law_pair_stream_round_trip(t: RecordType, id: u16, pairs: Seq<(Seq<u8>, Seq<u8>)>)
    requires
        forall|i: int|
            0 <= i < pairs.len() ==> (#[trigger] pairs[i]).0.len() <= MAX_PART
                && pairs[i].1.len() <= MAX_PART,
    ensures
        read_pairs(
            stream(read_all(start(), stream_bytes(t, id, encode_pairs(pairs))).fragments, t, id),
        ) == Some(pairs),
{
    let p = encode_pairs(pairs);
    let none = Seq::<u8>::empty();
    law_stream_round_trip(t, id, p, none);
    assert(stream_bytes(t, id, p) + none =~= stream_bytes(t, id, p));
    assert(read_all(start(), none).fragments =~= Seq::empty());
    assert(p + stream(read_all(start(), none).fragments, t, id) =~= p);
    law_pairs_round_trip(pairs);
}

proof fn lemma_end_body(app_status: u32, protocol_status: ProtoStatus)
    ensures
        ({
            let payload = be32(app_status) + (seq![protocol_status.code()] + zeros(3));
            &&& payload.len() == 8
            &&& body_of(payload, RecordType::EndRequest) == Some(
                BodyView::EndRequest(EndRequestBody { app_status, protocol_status }),
            )
        }),
{
    let tail = seq![protocol_status.code()] + zeros(3);
    lemma_read32(app_status, tail);
    assert((be32(app_status) + tail)[4] == protocol_status.code());
}

proof fn lemma_regroup_end(h: Seq<u8>, a: Seq<u8>, b: Seq<u8>, c: Seq<u8>, rest: Seq<u8>)
    ensures
        h + a + b + c + rest == h + (a + (b + c)) + Seq::<u8>::empty() + rest,
{
    assert(h + a + b + c + rest =~= h + (a + (b + c)) + Seq::<u8>::empty() + rest);
}

/// The end of a request that was written is read back, with its status.
pub proof fn law_end_request_round_trip(
    request_id: u16,
    app_status: u32,
    protocol_status: ProtoStatus,
    rest: Seq<u8>,
)
    ensures
        ({
            let item = FCGIType::EndRequest {
                request_id,
                app_status,
                proto_status: protocol_status.code(),
            };
            let r = read_all(start(), item_bytes(item) + rest);
            &&& r.fragments.len() > 0
            &&& r.fragments[0].header == header_of(RecordType::EndRequest, request_id, 8)
            &&& body_of(r.fragments[0].payload, RecordType::EndRequest) == Some(
                BodyView::EndRequest(EndRequestBody { app_status, protocol_status }),
            )
            &&& r.fragments.drop_first() == read_all(start(), rest).fragments
        }),
{
    let item = FCGIType::EndRequest {
        request_id,
        app_status,
        proto_status: protocol_status.code(),
    };
    let h = header_of(RecordType::EndRequest, request_id, 8);
    let status = seq![protocol_status.code()];
    let payload = be32(app_status) + (status + zeros(3));
    lemma_end_body(app_status, protocol_status);
    lemma_regroup_end(header_bytes(h), be32(app_status), status, zeros(3), rest);
    lemma_outcome_one(h, payload, rest);
    lemma_outcome(item_bytes(item) + rest);
    lemma_outcome(rest);
}

proof fn lemma_outcome_one(h: Header, payload: Seq<u8>, rest: Seq<u8>)
    requires
        payload.len() == h.content_length,
        h.padding_length == 0,
    ensures
        ({
            let r = outcome(header_bytes(h) + payload + Seq::<u8>::empty() + rest);
            &&& r.fragments.len() > 0
            &&& r.fragments[0] == Fragment { header: h, payload }
            &&& r.fragments.drop_first() == outcome(rest).fragments
        }),
{
    reveal(outcome);
    law_record_round_trip(h, payload, Seq::empty(), rest);
    let more = read_all(start(), rest).fragments;
    assert((seq![Fragment { header: h, payload }] + more).drop_first() =~= more);
}

// ---------------------------------------------------------------- byte by byte

/// The records that begin, abort and end a request, byte by byte.
pub proof fn law_item_layout(
    request_id: u16,
    role: FastCGIRole,
    flags: u8,
    app_status: u32,
    proto_status: u8,
)
    ensures
        ({
            let hi = (request_id / 256) as u8;
            let lo = (request_id % 256) as u8;
            let begin = item_bytes(FCGIType::BeginRequest { request_id, role, flags });
            let end = item_bytes(FCGIType::EndRequest { request_id, app_status, proto_status });
            &&& begin == seq![1u8, 1, hi, lo, 0, 8, 0, 0, 0, begin[9], flags, 0, 0, 0, 0, 0]
            &&& begin[9] == role.code()
            &&& item_bytes(FCGIType::AbortRequest { request_id }) == seq![
                1u8,
                2,
                hi,
                lo,
                0,
                0,
                0,
                0,
            ]
            &&& end.len() == 16
            &&& end.take(8) == seq![1u8, 3, hi, lo, 0, 8, 0, 0]
            &&& end[8] * 0x100_0000 + end[9] * 0x1_0000 + end[10] * 256 + end[11] == app_status
            &&& end[12] == proto_status
            &&& end[13] == 0 && end[14] == 0 && end[15] == 0
        }),
{
    let hi = (request_id / 256) as u8;
    let lo = (request_id % 256) as u8;
    let begin = item_bytes(FCGIType::BeginRequest { request_id, role, flags });
    let end = item_bytes(FCGIType::EndRequest { request_id, app_status, proto_status });
    let abort = item_bytes(FCGIType::AbortRequest { request_id });
    law_big_endian(0, app_status);
    assert(begin =~= seq![1u8, 1, hi, lo, 0, 8, 0, 0, 0, begin[9], flags, 0, 0, 0, 0, 0]);
    assert(abort =~= seq![1u8, 2, hi, lo, 0, 0, 0, 0]);
    assert(end.take(8) =~= seq![1u8, 3, hi, lo, 0, 8, 0, 0]);
    assert(end[8] == be32(app_status)[0]);
    assert(end[9] == be32(app_status)[1]);
    assert(end[10] == be32(app_status)[2]);
    assert(end[11] == be32(app_status)[3]);
}

/// The header of a record of a stream: version one, the type, the request, and the length, with
/// the padding that makes the record a multiple of eight bytes.
pub proof fn law_head_layout(t: RecordType, id: u16, len: int)
    requires
        0 <= len <= 65535,
    ensures
        ({
            let s = head(t, id, len);
            &&& s.len() == 8
            &&& s[0] == 1
            &&& s[1] == t.code()
            &&& s[2] * 256 + s[3] == id
            &&& s[4] * 256 + s[5] == len
            &&& s[6] < 8 && (len + s[6]) % 8 == 0
            &&& s[7] == 0
        }),
{
    law_header_layout(header_of(t, id, len as u16));
    law_header_of(t, id, len as u16);
}

/// A stream is cut into records of 65528 bytes without padding, as long as more than that is
/// left. What is left is held back.
pub proof fn law_full_records_layout(t: RecordType, id: u16, p: Seq<u8>)
    ensures
        RECORD_LEN == 65528,
        p.len() <= 65528 ==> full_records(t, id, p).len() == 0 && leftover(p) == p,
        p.len() > 65528 ==> {
            &&& full_records(t, id, p) == head(t, id, 65528) + p.take(65528) + full_records(
                t,
                id,
                p.skip(65528),
            )
            &&& leftover(p) == leftover(p.skip(65528))
        },
{
}

/// The end of a stream: a record with what was held back, if that is anything, and a record
/// without bytes. A part of a stream that is not its end has no such record. The padding is
/// taken from the start of the header.
pub proof fn law_stream_end_layout(t: RecordType, id: u16, p: Seq<u8>)
    requires
        p.len() <= 65528,
    ensures
        ({
            let one = padded_record(t, id, p);
            let pad = one.len() - 8 - p.len();
            &&& one.take(8) == head(t, id, p.len() as int)
            &&& one.subrange(8, 8int + p.len()) == p
            &&& 0 <= pad < 8 && one.len() % 8 == 0
            &&& one.skip(8int + p.len()) == one.take(pad)
            &&& p.len() == 0 ==> stream_bytes(t, id, p) == head(t, id, 0)
            &&& p.len() > 0 ==> stream_bytes(t, id, p) == one + head(t, id, 0)
            &&& chunk_bytes(t, id, p) == one
        }),
{
    let one = padded_record(t, id, p);
    let pad = padding(p.len() as int);
    law_head_layout(t, id, p.len() as int);
    assert(one.take(8) =~= head(t, id, p.len() as int));
    assert(one.subrange(8, 8int + p.len()) =~= p);
    assert(one.skip(8int + p.len()) =~= one.take(pad));
    assert(full_records(t, id, p) + stream_end(t, id, p) =~= stream_end(t, id, p));
    assert(full_records(t, id, p) + padded_record(t, id, p) =~= padded_record(t, id, p));
    if p.len() == 0 {
        assert(Seq::<u8>::empty() + head(t, id, 0) =~= head(t, id, 0));
    }
}

/// A longer stream is its full records and then the end of what is held back.
pub proof fn law_long_stream_layout(t: RecordType, id: u16, p: Seq<u8>)
    requires
        p.len() > 65528,
    ensures
        stream_bytes(t, id, p) == head(t, id, 65528) + p.take(65528) + stream_bytes(
            t,
            id,
            p.skip(65528),
        ),
        chunk_bytes(t, id, p) == head(t, id, 65528) + p.take(65528) + chunk_bytes(
            t,
            id,
            p.skip(65528),
        ),
{
    let first = head(t, id, 65528) + p.take(65528);
    let more = full_records(t, id, p.skip(65528));
    lemma_assoc(first, more, stream_end(t, id, leftover(p)));
    lemma_assoc(first, more, padded_record(t, id, leftover(p)));
}

/// Each item that carries a stream is written as a stream of its type: parameters and standard
/// input of a request, its standard output, standard error and data, and the values that are
/// asked for and given, which belong to no request.
pub proof fn law_item_streams(item: FCGIType)
    ensures
        match item {
            FCGIType::Params { request_id, p } => item_bytes(item) == stream_bytes(
                RecordType::Params,
                request_id,
                encode_pairs(views(p@)),
            ),
            FCGIType::STDIN { request_id, data } => item_bytes(item) == stream_bytes(
                RecordType::StdIn,
                request_id,
                contents(data),
            ),
            FCGIType::STDOUT { request_id, data } => item_bytes(item) == stream_bytes(
                RecordType::StdOut,
                request_id,
                contents(data),
            ),
            FCGIType::STDERR { request_id, data } => item_bytes(item) == stream_bytes(
                RecordType::StdErr,
                request_id,
                contents(data),
            ),
            FCGIType::DATA { request_id, data } => item_bytes(item) == stream_bytes(
                RecordType::Data,
                request_id,
                contents(data),
            ),
            FCGIType::GetValues { p } => item_bytes(item) == stream_bytes(
                RecordType::GetValues,
                0,
                encode_pairs(views(p@)),
            ),
            FCGIType::GetValuesResult { p } => item_bytes(item) == stream_bytes(
                RecordType::GetValuesResult,
                0,
                encode_pairs(views(p@)),
            ),
            _ => true,
        },
{
}

/// A pair can be written if neither its name nor its value has more than 0x7fffffff bytes.
pub proof fn law_sendable(pair: (Seq<u8>, Seq<u8>))
    ensures
        sendable(pair) <==> pair.0.len() <= 0x7fff_ffff && pair.1.len() <= 0x7fff_ffff,
{
}

/// Bytes that are added to a stream are cut into full records behind what was held back. What
/// is left is held back, and nothing else changes.
pub proof fn law_kv_added<RW>(
    w: FCGIWriter<RW>,
    buf: Seq<u8>,
    w2: FCGIWriter<RW>,
    buf2: Seq<u8>,
    t: RecordType,
    id: u16,
    p: Seq<u8>,
)
    requires
        kv_step(w, buf, w2, buf2, t, id, p),
    ensures
        w2.io == w.io,
        w2.pending.bytes() == w.pending.bytes() + full_records(t, id, buf + p),
        buf2 == leftover(buf + p),
        w2.pending.bytes() + stream_end(t, id, buf2) == w.pending.bytes() + stream_bytes(
            t,
            id,
            buf + p,
        ),
{
    lemma_assoc(w.queued(), full_records(t, id, buf + p), stream_end(t, id, buf2));
}

/// Pairs are seen as their names and values, one by one, and can be written if each of them can.
pub proof fn law_pairs_seen(p: Vec<NameValuePair>, q: Vec<(Bytes, Bytes)>, i: int, item: FCGIType)
    ensures
        views(p@).len() == p@.len(),
        0 <= i < p@.len() ==> views(p@)[i] == (
            contents(p@[i].name_data),
            contents(p@[i].value_data),
        ),
        pair_views(q@).len() == q@.len(),
        0 <= i < q@.len() ==> pair_views(q@)[i] == (contents(q@[i].0), contents(q@[i].1)),
        item !is Params && item !is GetValues && item !is GetValuesResult ==> encodable(item),
        item == (FCGIType::GetValues { p }) || item == (FCGIType::GetValuesResult { p }) ==> (
        encodable(item) <==> forall|j: int|
            0 <= j < p@.len() ==> contents((#[trigger] p@[j]).name_data).len() <= 0x7fff_ffff
                && contents(p@[j].value_data).len() <= 0x7fff_ffff),
{
    if all_sendable(views(p@)) {
        assert forall|j: int| 0 <= j < p@.len() implies contents(
            (#[trigger] p@[j]).name_data,
        ).len() <= 0x7fff_ffff && contents(p@[j].value_data).len() <= 0x7fff_ffff by {
            assert(sendable(views(p@)[j]));
        }
    }
    if forall|j: int|
        0 <= j < p@.len() ==> contents((#[trigger] p@[j]).name_data).len() <= 0x7fff_ffff
            && contents(p@[j].value_data).len() <= 0x7fff_ffff {
        assert forall|j: int| 0 <= j < p@.len() implies sendable(#[trigger] views(p@)[j]) by {
            assert(contents(p@[j].name_data).len() <= 0x7fff_ffff);
        }
    }
}

/// The parameters of a request can be written if each of them can.
pub proof fn law_params_encodable(request_id: u16, p: Vec<NameValuePair>)
    ensures
        encodable(FCGIType::Params { request_id, p }) <==> encodable(FCGIType::GetValues { p }),
{
}

} // verus!
