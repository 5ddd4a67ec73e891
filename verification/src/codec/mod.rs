//! Streams of records.
//!
//! [`FCGIWriter`] cuts streams of bytes and of name-value pairs into records and queues them
//! for the transport it belongs to.
pub mod laws;

use bytes::{Bytes, BytesMut};
use vstd::prelude::*;

use crate::buffer::{
    be16, be32, chunk, contents, put_slice, put_u16, put_u32, put_u8, slice, written,
};
use crate::bufvec::BufList;
use crate::error::SendError;
use crate::fastcgi::params::{
    encode_pairs, law_pairs_push, pair_bytes, pair_views, put_len, MAX_PART,
};
use crate::fastcgi::record::{header_bytes, header_of, padding, zeros};
use crate::fastcgi::{FastCGIRole, Header, NameValuePair, Record, RecordType};

verus! {

pub enum FCGIType {
    BeginRequest { request_id: u16, role: FastCGIRole, flags: u8 },
    AbortRequest { request_id: u16 },
    EndRequest { request_id: u16, app_status: u32, proto_status: u8 },
    Params { request_id: u16, p: Vec<NameValuePair> },
    STDIN { request_id: u16, data: Bytes },
    STDOUT { request_id: u16, data: Bytes },
    STDERR { request_id: u16, data: Bytes },
    DATA { request_id: u16, data: Bytes },
    GetValues { p: Vec<NameValuePair> },
    GetValuesResult { p: Vec<NameValuePair> },
}

/// The most bytes of a stream that go into one record: the largest length that needs no
/// padding.
pub const RECORD_LEN: usize = 65528;

// ---------------------------------------------------------------- wire format

/// The header of a record of `len` bytes.
pub open spec fn head(t: RecordType, id: u16, len: int) -> Seq<u8> {
    header_bytes(header_of(t, id, len as u16))
}

/// The full records at the start of a stream of the bytes `p`: the last part of a stream,
/// full or not, is held back.
pub open spec fn full_records(t: RecordType, id: u16, p: Seq<u8>) -> Seq<u8>
    decreases p.len(),
{
    if p.len() > RECORD_LEN {
        head(t, id, RECORD_LEN as int) + p.take(RECORD_LEN as int) + full_records(
            t,
            id,
            p.skip(RECORD_LEN as int),
        )
    } else {
        Seq::empty()
    }
}

/// What is held back of a stream of the bytes `p`.
pub open spec fn leftover(p: Seq<u8>) -> Seq<u8>
    decreases p.len(),
{
    if p.len() > RECORD_LEN {
        leftover(p.skip(RECORD_LEN as int))
    } else {
        p
    }
}

/// One record with the bytes `p`. The padding repeats the start of the header.
pub open spec fn padded_record(t: RecordType, id: u16, p: Seq<u8>) -> Seq<u8> {
    head(t, id, p.len() as int) + p + head(t, id, p.len() as int).take(padding(p.len() as int))
}

/// The end of a stream of which `p` was held back: a record with `p`, unless it is empty,
/// and a record without bytes.
pub open spec fn stream_end(t: RecordType, id: u16, p: Seq<u8>) -> Seq<u8> {
    (if p.len() > 0 {
        padded_record(t, id, p)
    } else {
        Seq::empty()
    }) + head(t, id, 0)
}

/// A whole stream of the bytes `p`.
pub open spec fn stream_bytes(t: RecordType, id: u16, p: Seq<u8>) -> Seq<u8> {
    full_records(t, id, p) + stream_end(t, id, leftover(p))
}

/// A part of a stream that is written without an end.
pub open spec fn chunk_bytes(t: RecordType, id: u16, p: Seq<u8>) -> Seq<u8> {
    full_records(t, id, p) + padded_record(t, id, leftover(p))
}

/// The names and values of a list of pairs.
pub open spec fn views(p: Seq<NameValuePair>) -> Seq<(Seq<u8>, Seq<u8>)> {
    p.map_values(|x: NameValuePair| x@)
}

/// Whether a name or value is short enough to be written.
pub open spec fn sendable(pair: (Seq<u8>, Seq<u8>)) -> bool {
    &&& pair.0.len() <= MAX_PART
    &&& pair.1.len() <= MAX_PART
}

/// Whether all pairs are short enough to be written.
pub open spec fn all_sendable(pairs: Seq<(Seq<u8>, Seq<u8>)>) -> bool {
    forall|i: int| 0 <= i < pairs.len() ==> sendable(#[trigger] pairs[i])
}

/// Whether the pairs of an item, if it has any, are short enough to be written.
pub open spec fn encodable(item: FCGIType) -> bool {
    match item {
        FCGIType::Params { p, .. } => all_sendable(views(p@)),
        FCGIType::GetValues { p } => all_sendable(views(p@)),
        FCGIType::GetValuesResult { p } => all_sendable(views(p@)),
        _ => true,
    }
}

/// How an item is written.
pub open spec fn item_bytes(item: FCGIType) -> Seq<u8> {
    match item {
        FCGIType::BeginRequest { request_id, role, flags } => head(
            RecordType::BeginRequest,
            request_id,
            8,
        ) + be16(role.code()) + seq![flags] + zeros(5),
        FCGIType::AbortRequest { request_id } => head(RecordType::AbortRequest, request_id, 0),
        FCGIType::EndRequest { request_id, app_status, proto_status } => head(
            RecordType::EndRequest,
            request_id,
            8,
        ) + be32(app_status) + seq![proto_status] + zeros(3),
        FCGIType::Params { request_id, p } => stream_bytes(
            RecordType::Params,
            request_id,
            encode_pairs(views(p@)),
        ),
        FCGIType::STDIN { request_id, data } => stream_bytes(
            RecordType::StdIn,
            request_id,
            contents(data),
        ),
        FCGIType::STDOUT { request_id, data } => stream_bytes(
            RecordType::StdOut,
            request_id,
            contents(data),
        ),
        FCGIType::STDERR { request_id, data } => stream_bytes(
            RecordType::StdErr,
            request_id,
            contents(data),
        ),
        FCGIType::DATA { request_id, data } => stream_bytes(
            RecordType::Data,
            request_id,
            contents(data),
        ),
        FCGIType::GetValues { p } => stream_bytes(
            RecordType::GetValues,
            Record::MGMT_REQUEST_ID,
            encode_pairs(views(p@)),
        ),
        FCGIType::GetValuesResult { p } => stream_bytes(
            RecordType::GetValuesResult,
            Record::MGMT_REQUEST_ID,
            encode_pairs(views(p@)),
        ),
    }
}

// ---------------------------------------------------------------- writer

/// Writes records for the transport `io`. What is to be written waits in `pending`, oldest
/// first.
pub struct FCGIWriter<RW> {
    pub io: RW,
    pub pending: BufList<Bytes>,
}

/// A stream of bytes that is being written: what is held back of it, and how many bytes have
/// to follow at least.
pub struct DataStream {
    pub buf: BytesMut,
    pub len: usize,
    pub request_id: u16,
    pub rtype: RecordType,
}

impl DataStream {
    pub open spec fn wf(self) -> bool {
        written(self.buf).len() <= RECORD_LEN
    }
}

impl<RW> FCGIWriter<RW> {
    /// The bytes that wait to be written.
    pub open spec fn queued(self) -> Seq<u8> {
        self.pending.bytes()
    }

    pub open spec fn wf(self) -> bool {
        self.pending.wf()
    }

    pub fn new(io: RW) -> (r: FCGIWriter<RW>)
        ensures
            r.wf(),
            r.io == io,
            r.queued() == Seq::<u8>::empty(),
    {
        let r = FCGIWriter { io, pending: BufList::new() };
        assert(r.queued() =~= Seq::<u8>::empty());
        r
    }

    /// Queues the bytes of `buf`.
    fn write_whole_buf(&mut self, buf: Bytes)
        requires
            old(self).wf(),
        ensures
            final(self).wf(),
            final(self).io == old(self).io,
            final(self).queued() == old(self).queued() + contents(buf),
    {
        if buf.len() > 0 {
            self.pending.push(buf);
        } else {
            assert(self.queued() + contents(buf) =~= self.queued());
        }
    }

    /// Queues the header of a record of `len` bytes.
    fn write_head(&mut self, rtype: RecordType, request_id: u16, len: u16)
        requires
            old(self).wf(),
        ensures
            final(self).wf(),
            final(self).io == old(self).io,
            final(self).queued() == old(self).queued() + head(rtype, request_id, len as int),
    {
        let mut buf = BytesMut::with_capacity(Header::HEADER_LEN);
        Header::new(rtype, request_id, len).write_into(&mut buf);
        assert(written(buf) =~= head(rtype, request_id, len as int));
        self.write_whole_buf(buf.freeze());
    }

    /// Queues a record with the bytes of `data`, and its padding.
    fn write_record(&mut self, rtype: RecordType, request_id: u16, data: Bytes)
        requires
            old(self).wf(),
            contents(data).len() <= RECORD_LEN,
        ensures
            final(self).wf(),
            final(self).io == old(self).io,
            final(self).queued() == old(self).queued() + padded_record(
                rtype,
                request_id,
                contents(data),
            ),
    {
        let ghost before = self.queued();
        let ghost p = contents(data);
        let last_head = Header::new(rtype, request_id, data.len() as u16);
        let pad: usize = last_head.get_padding() as usize;
        let mut buf = BytesMut::with_capacity(Header::HEADER_LEN);
        last_head.write_into(&mut buf);
        let buf = buf.freeze();
        let ghost h = head(rtype, request_id, p.len() as int);
        assert(contents(buf) =~= h);
        let pad = slice(&buf, 0, pad);
        assert(contents(pad) =~= h.take(padding(p.len() as int)));
        self.write_whole_buf(buf);
        self.write_whole_buf(data);
        //padding
        self.write_whole_buf(pad);
        assert(self.queued() =~= before + padded_record(rtype, request_id, p));
    }

    /// Queues an item.
    pub fn encode(&mut self, item: FCGIType)
        requires
            old(self).wf(),
            encodable(item),
        ensures
            final(self).wf(),
            final(self).io == old(self).io,
            final(self).queued() == old(self).queued() + item_bytes(item),
    {
        match item {
            FCGIType::BeginRequest { request_id, role, flags } => {
                let mut buf = BytesMut::with_capacity(Header::HEADER_LEN + 8);
                Header::new(RecordType::BeginRequest, request_id, 8).write_into(&mut buf);
                put_u16(&mut buf, role.to_u16());
                put_u8(&mut buf, flags);
                put_u32(&mut buf, 0);  // reserved
                put_u8(&mut buf, 0);
                assert(written(buf) =~= item_bytes(item));
                self.write_whole_buf(buf.freeze());
            },
            FCGIType::AbortRequest { request_id } => {
                let mut buf = BytesMut::with_capacity(Header::HEADER_LEN);
                Header::new(RecordType::AbortRequest, request_id, 0).write_into(&mut buf);
                assert(written(buf) =~= item_bytes(item));
                self.write_whole_buf(buf.freeze());
            },
            FCGIType::EndRequest { request_id, app_status, proto_status } => {
                let mut buf = BytesMut::with_capacity(Header::HEADER_LEN + 8);
                Header::new(RecordType::EndRequest, request_id, 8).write_into(&mut buf);
                put_u32(&mut buf, app_status);
                put_u8(&mut buf, proto_status);
                put_u16(&mut buf, 0);  // reserved
                put_u8(&mut buf, 0);
                assert(written(buf) =~= item_bytes(item));
                self.write_whole_buf(buf.freeze());
            },
            FCGIType::Params { request_id, p } => {
                self.encode_kvp(request_id, RecordType::Params, p);
            },
            FCGIType::STDIN { request_id, data } => {
                self.encode_data(request_id, RecordType::StdIn, data);
            },
            FCGIType::STDOUT { request_id, data } => {
                self.encode_data(request_id, RecordType::StdOut, data);
            },
            FCGIType::STDERR { request_id, data } => {
                self.encode_data(request_id, RecordType::StdErr, data);
            },
            FCGIType::DATA { request_id, data } => {
                self.encode_data(request_id, RecordType::Data, data);
            },
            FCGIType::GetValues { p } => {
                self.encode_kvp(Record::MGMT_REQUEST_ID, RecordType::GetValues, p);
            },
            FCGIType::GetValuesResult { p } => {
                self.encode_kvp(Record::MGMT_REQUEST_ID, RecordType::GetValuesResult, p);
            },
        }
    }

    /// add val to the stream.
    /// will append and write a header if needed.
    /// will use `buf` to buffer small writes.
    /// `buf` might not be empty after the function is done. Use `end_stream` to flush the
    /// buffer.
    fn append_to_stream(
        &mut self,
        val: Bytes,
        buf: &mut BytesMut,
        request_id: u16,
        rtype: RecordType,
    )
        requires
            old(self).wf(),
            written(*old(buf)).len() <= RECORD_LEN,
        ensures
            final(self).wf(),
            final(self).io == old(self).io,
            final(self).queued() == old(self).queued() + full_records(
                rtype,
                request_id,
                written(*old(buf)) + contents(val),
            ),
            written(*final(buf)) == leftover(written(*old(buf)) + contents(val)),
            written(*final(buf)).len() <= RECORD_LEN,
    {
        let mut val = val;
        let ghost all = written(*buf) + contents(val);
        let ghost before = self.queued();
        assert(before + full_records(rtype, request_id, all) =~= self.queued() + full_records(
            rtype,
            request_id,
            written(*buf) + contents(val),
        ));
        while val.len() > RECORD_LEN - buf.len()
            invariant
                self.wf(),
                self.io == old(self).io,
                written(*buf).len() <= RECORD_LEN,
                before + full_records(rtype, request_id, all) == self.queued() + full_records(
                    rtype,
                    request_id,
                    written(*buf) + contents(val),
                ),
                leftover(all) == leftover(written(*buf) + contents(val)),
            decreases contents(val).len() + written(*buf).len(),
        {
            let ghost here = self.queued();
            let ghost p = written(*buf) + contents(val);
            let ghost held = written(*buf);
            let room: usize = RECORD_LEN - buf.len();
            let part = val.split_to(room);
            self.write_head(rtype, request_id, RECORD_LEN as u16);
            self.write_whole_buf(buf.split().freeze());
            self.write_whole_buf(part);
            proof {
                let h = head(rtype, request_id, RECORD_LEN as int);
                let rest = written(*buf) + contents(val);
                assert(held + contents(part) =~= p.take(RECORD_LEN as int));
                assert(rest =~= p.skip(RECORD_LEN as int));
                assert(self.queued() =~= here + (h + p.take(RECORD_LEN as int)));
                assert(here + full_records(rtype, request_id, p) =~= self.queued()
                    + full_records(rtype, request_id, rest));
            }
        }
        let ghost held = written(*buf);
        put_slice(buf, chunk(&val));
        assert(self.queued() + full_records(rtype, request_id, held + contents(val))
            =~= self.queued());
    }

    /// write buf and padding and append an emty header to indicate the steams end
    fn end_stream(&mut self, buf: BytesMut, request_id: u16, rtype: RecordType)
        requires
            old(self).wf(),
            written(buf).len() <= RECORD_LEN,
        ensures
            final(self).wf(),
            final(self).io == old(self).io,
            final(self).queued() == old(self).queued() + stream_end(
                rtype,
                request_id,
                written(buf),
            ),
    {
        let ghost before = self.queued();
        if buf.len() > 0 {
            //write whats left
            self.write_record(rtype, request_id, buf.freeze());
        }
        //empty record
        self.write_head(rtype, request_id, 0);
        assert(self.queued() =~= before + stream_end(rtype, request_id, written(buf)));
    }

    /// write pairs to the stream.
    fn encode_kvp(&mut self, request_id: u16, rtype: RecordType, p: Vec<NameValuePair>)
        requires
            old(self).wf(),
            all_sendable(views(p@)),
        ensures
            final(self).wf(),
            final(self).io == old(self).io,
            final(self).queued() == old(self).queued() + stream_bytes(
                rtype,
                request_id,
                encode_pairs(views(p@)),
            ),
    {
        let ghost before = self.queued();
        let ghost bytes = encode_pairs(views(p@));
        let mut kvps = self.kv_stream(request_id, rtype);
        assert(written(kvps.buf) + bytes =~= bytes);
        let mut pairs: Vec<(Bytes, Bytes)> = Vec::new();
        let mut i: usize = 0;
        while i < p.len()
            invariant
                i <= p@.len(),
                pair_views(pairs@) =~= views(p@).take(i as int),
            decreases p@.len() - i,
        {
            let ghost so_far = pair_views(pairs@);
            pairs.push((p[i].name_data.clone(), p[i].value_data.clone()));
            assert(pair_views(pairs@) =~= so_far.push(views(p@)[i as int]));
            i += 1;
        }
        assert(views(p@).take(i as int) =~= views(p@));
        kvps.extend(pairs);
        //write a header
        kvps.flush();
        assert(self.queued() =~= before + stream_bytes(rtype, request_id, bytes));
    }

    /// Create a NameValuePairWriter for this stream in order to write key value pairs (like
    /// PARAMS).
    ///
    /// ```
    /// use async_fcgi::codec::FCGIWriter;
    /// use async_fcgi::fastcgi::RecordType;
    /// use bytes::Bytes;
    /// fn write_params<W>(fcgi_writer: &mut FCGIWriter<W>) {
    ///     let mut kvw = fcgi_writer.kv_stream(1, RecordType::Params);
    ///     kvw.add_kv(Bytes::from(&b"QUERY_STRING"[..]), Bytes::new());
    ///     kvw.flush();
    /// }
    /// ```
    pub fn kv_stream<'a>(&'a mut self, request_id: u16, rtype: RecordType) -> (r:
        NameValuePairWriter<'a, RW>)
        requires
            old(self).wf(),
        ensures
            r.wf(),
            *r.w == *old(self),
            *final(r.w) == *final(self),
            r.request_id == request_id,
            r.rtype == rtype,
            written(r.buf) == Seq::<u8>::empty(),
    {
        let buf = BytesMut::with_capacity(RECORD_LEN);
        NameValuePairWriter { w: self, request_id, rtype, buf }
    }

    /// write `data` to the stream.
    fn encode_data(&mut self, request_id: u16, rtype: RecordType, data: Bytes)
        requires
            old(self).wf(),
        ensures
            final(self).wf(),
            final(self).io == old(self).io,
            final(self).queued() == old(self).queued() + stream_bytes(
                rtype,
                request_id,
                contents(data),
            ),
    {
        let ghost before = self.queued();
        let ghost p = contents(data);
        let mut buf = BytesMut::with_capacity(RECORD_LEN);
        assert(written(buf) + p =~= p);
        self.append_to_stream(data, &mut buf, request_id, rtype);
        self.end_stream(buf, request_id, rtype);
        assert(self.queued() =~= before + stream_bytes(rtype, request_id, p));
    }

    /// Starts a stream of at least `len` bytes.
    pub fn data_stream(&self, request_id: u16, rtype: RecordType, len: usize) -> (r: DataStream)
        ensures
            r.wf(),
            written(r.buf) == Seq::<u8>::empty(),
            r.len == len,
            r.request_id == request_id,
            r.rtype == rtype,
    {
        DataStream { buf: BytesMut::with_capacity(RECORD_LEN), len, request_id, rtype }
    }

    /// Writes a chunk of a stream.
    pub fn data_chunk(&mut self, stream: &mut DataStream, val: Bytes)
        requires
            old(self).wf(),
            old(stream).wf(),
        ensures
            final(self).wf(),
            final(stream).wf(),
            final(self).io == old(self).io,
            final(stream).request_id == old(stream).request_id,
            final(stream).rtype == old(stream).rtype,
            final(stream).len == if contents(val).len() <= old(stream).len {
                old(stream).len - contents(val).len()
            } else {
                0
            },
            ({
                let p = written(old(stream).buf) + contents(val);
                &&& final(self).queued() == old(self).queued() + full_records(
                    old(stream).rtype,
                    old(stream).request_id,
                    p,
                )
                &&& written(final(stream).buf) == leftover(p)
            }),
    {
        stream.len = stream.len.saturating_sub(val.len());
        self.append_to_stream(val, &mut stream.buf, stream.request_id, stream.rtype);
    }

    /// Ends a stream, or aborts its request if there was less data than announced.
    pub fn data_end(&mut self, stream: DataStream) -> (r: Result<(), SendError>)
        requires
            old(self).wf(),
            stream.wf(),
        ensures
            final(self).wf(),
            final(self).io == old(self).io,
            match r {
                Ok(_) => stream.len == 0 && final(self).queued() == old(self).queued()
                    + stream_end(stream.rtype, stream.request_id, written(stream.buf)),
                Err(e) => stream.len > 0 && e == SendError::BodyTooShort && final(self).queued()
                    == old(self).queued() + head(RecordType::AbortRequest, stream.request_id, 0),
            },
    {
        if stream.len > 0 {
            self.encode(FCGIType::AbortRequest { request_id: stream.request_id });
            return Err(SendError::BodyTooShort);
        }
        self.end_stream(stream.buf, stream.request_id, stream.rtype);
        Ok(())
    }

    /// Write data to the stream.
    /// Insert header as needed.
    /// do not end the data stream
    pub fn flush_data_chunk(&mut self, data: Bytes, request_id: u16, rtype: RecordType)
        requires
            old(self).wf(),
        ensures
            final(self).wf(),
            final(self).io == old(self).io,
            final(self).queued() == old(self).queued() + chunk_bytes(
                rtype,
                request_id,
                contents(data),
            ),
    {
        let ghost before = self.queued();
        let ghost all = contents(data);
        let mut data = data;
        while data.len() > RECORD_LEN
            invariant
                self.wf(),
                self.io == old(self).io,
                before + chunk_bytes(rtype, request_id, all) == self.queued() + chunk_bytes(
                    rtype,
                    request_id,
                    contents(data),
                ),
            decreases contents(data).len(),
        {
            let ghost here = self.queued();
            let ghost p = contents(data);
            let part = data.split_to(RECORD_LEN);
            self.write_head(rtype, request_id, RECORD_LEN as u16);
            self.write_whole_buf(part);
            proof {
                let h = head(rtype, request_id, RECORD_LEN as int);
                assert(self.queued() =~= here + (h + p.take(RECORD_LEN as int)));
                assert(here + chunk_bytes(rtype, request_id, p) =~= self.queued() + chunk_bytes(
                    rtype,
                    request_id,
                    contents(data),
                ));
            }
        }
        let ghost rest = contents(data);
        let ghost here = self.queued();
        self.write_record(rtype, request_id, data);
        assert(chunk_bytes(rtype, request_id, rest) =~= padded_record(rtype, request_id, rest));
    }
}

// ---------------------------------------------------------------- name-value pairs

/// Writes Key Value Pairs to the stream
/// Uses an internal write buffer
pub struct NameValuePairWriter<'a, RW> {
    pub w: &'a mut FCGIWriter<RW>,
    pub request_id: u16,
    pub rtype: RecordType,
    pub buf: BytesMut,
}

impl<'a, RW> NameValuePairWriter<'a, RW> {
    pub open spec fn wf(self) -> bool {
        &&& self.w.wf()
        &&& written(self.buf).len() <= RECORD_LEN
    }

    /// Whether this is `before` with the bytes `p` added to its stream.
    pub open spec fn added(self, before: NameValuePairWriter<'a, RW>, p: Seq<u8>) -> bool {
        &&& kv_step(
            *before.w,
            written(before.buf),
            *self.w,
            written(self.buf),
            before.rtype,
            before.request_id,
            p,
        )
        &&& self.request_id == before.request_id
        &&& self.rtype == before.rtype
    }

    /// write all remaining data to the stream
    pub fn flush(self)
        requires
            self.wf(),
        ensures
            final(self.w).wf(),
            final(self.w).io == old(self.w).io,
            final(self.w).queued() == old(self.w).queued() + stream_end(
                self.rtype,
                self.request_id,
                written(self.buf),
            ),
    {
        //write a header
        self.w.end_stream(self.buf, self.request_id, self.rtype);
    }

    /// add all Key Value Pairs to the stream
    /// A key or value has at most 0x7fffffff bytes
    pub fn extend(&mut self, iter: Vec<(Bytes, Bytes)>)
        requires
            old(self).wf(),
            all_sendable(pair_views(iter@)),
        ensures
            *final(final(self).w) == *final(old(self).w),
            final(self).added(*old(self), encode_pairs(pair_views(iter@))),
    {
        let ghost all = pair_views(iter@);
        let mut i: usize = 0;
        assert(all.take(0) =~= Seq::empty());
        proof {
            lemma_kv_none(*self.w, written(self.buf), self.rtype, self.request_id);
        }
        while i < iter.len()
            invariant
                i <= iter@.len(),
                all == pair_views(iter@),
                all_sendable(all),
                self.wf(),
                *final(self.w) == *final(old(self).w),
                self.request_id == old(self).request_id,
                self.rtype == old(self).rtype,
                kv_step(
                    *old(self).w,
                    written(old(self).buf),
                    *self.w,
                    written(self.buf),
                    old(self).rtype,
                    old(self).request_id,
                    encode_pairs(all.take(i as int)),
                ),
            decreases iter@.len() - i,
        {
            let ghost w1 = *self.w;
            let ghost b1 = written(self.buf);
            assert(sendable(all[i as int]));
            self.add_kv(iter[i].0.clone(), iter[i].1.clone());
            proof {
                let pair = all[i as int];
                lemma_kv_join(
                    *old(self).w,
                    written(old(self).buf),
                    w1,
                    b1,
                    *self.w,
                    written(self.buf),
                    self.rtype,
                    self.request_id,
                    encode_pairs(all.take(i as int)),
                    pair_bytes(pair.0, pair.1),
                );
                law_pairs_push(all.take(i as int), pair);
                assert(all.take(i + 1) =~= all.take(i as int).push(pair));
            }
            i += 1;
        }
        assert(all.take(i as int) =~= all);
    }

    /// add a Key Value Pair to the stream
    /// The key and the value have at most 0x7fffffff bytes
    pub fn add(&mut self, pair: NameValuePair)
        requires
            old(self).wf(),
            sendable(pair@),
        ensures
            *final(final(self).w) == *final(old(self).w),
            final(self).added(*old(self), pair_bytes(pair@.0, pair@.1)),
    {
        self.add_kv(pair.name_data, pair.value_data);
    }

    /// add a Key Value Pair to the stream
    /// The key and the value have at most 0x7fffffff bytes
    pub fn add_kv(&mut self, name: Bytes, val: Bytes)
        requires
            old(self).wf(),
            sendable((contents(name), contents(val))),
        ensures
            *final(final(self).w) == *final(old(self).w),
            final(self).added(*old(self), pair_bytes(contents(name), contents(val))),
    {
        let mut blen = BytesMut::with_capacity(8);
        put_len(&mut blen, name.len());
        put_len(&mut blen, val.len());
        let lens = blen.freeze();
        let ghost b0 = written(self.buf);
        let ghost l = contents(lens);
        let ghost n = contents(name);
        let ghost v = contents(val);
        let ghost w0 = *self.w;
        self.w.append_to_stream(lens, &mut self.buf, self.request_id, self.rtype);
        let ghost w1 = *self.w;
        let ghost b1 = written(self.buf);
        self.w.append_to_stream(name, &mut self.buf, self.request_id, self.rtype);
        let ghost w2 = *self.w;
        let ghost b2 = written(self.buf);
        self.w.append_to_stream(val, &mut self.buf, self.request_id, self.rtype);
        proof {
            let (t, id) = (self.rtype, self.request_id);
            lemma_kv_join(w0, b0, w1, b1, w2, b2, t, id, l, n);
            lemma_kv_join(w0, b0, w2, b2, *self.w, written(self.buf), t, id, l + n, v);
            assert(l + n + v =~= pair_bytes(n, v));
        }
    }
}

/// The writer and what it holds back, before and after the bytes `p` were added to a stream.
pub open spec fn kv_step<RW>(
    w: FCGIWriter<RW>,
    buf: Seq<u8>,
    w2: FCGIWriter<RW>,
    buf2: Seq<u8>,
    t: RecordType,
    id: u16,
    p: Seq<u8>,
) -> bool {
    &&& w2.wf()
    &&& w2.io == w.io
    &&& w2.queued() == w.queued() + full_records(t, id, buf + p)
    &&& buf2 == leftover(buf + p)
    &&& buf2.len() <= RECORD_LEN
}

// ---------------------------------------------------------------- laws

/// A stream does not depend on how its bytes were cut into pieces: writing `a` and then `b`
/// behind what was held back of `a` writes what `a + b` writes.
pub proof fn law_stream_in_pieces(t: RecordType, id: u16, a: Seq<u8>, b: Seq<u8>)
    ensures
        full_records(t, id, a + b) == full_records(t, id, a) + full_records(
            t,
            id,
            leftover(a) + b,
        ),
        leftover(a + b) == leftover(leftover(a) + b),
    decreases a.len(),
{
    if a.len() > RECORD_LEN {
        let n = RECORD_LEN as int;
        law_stream_in_pieces(t, id, a.skip(n), b);
        assert((a + b).take(n) =~= a.take(n));
        assert((a + b).skip(n) =~= a.skip(n) + b);
        assert(full_records(t, id, a + b) =~= full_records(t, id, a) + full_records(
            t,
            id,
            leftover(a) + b,
        ));
    } else {
        assert(full_records(t, id, a + b) =~= full_records(t, id, a) + full_records(
            t,
            id,
            leftover(a) + b,
        ));
    }
}

/// Adding `p` and then `q` is adding `p + q`.
pub proof fn lemma_kv_join<RW>(
    w0: FCGIWriter<RW>,
    b0: Seq<u8>,
    w1: FCGIWriter<RW>,
    b1: Seq<u8>,
    w2: FCGIWriter<RW>,
    b2: Seq<u8>,
    t: RecordType,
    id: u16,
    p: Seq<u8>,
    q: Seq<u8>,
)
    requires
        kv_step(w0, b0, w1, b1, t, id, p),
        kv_step(w1, b1, w2, b2, t, id, q),
    ensures
        kv_step(w0, b0, w2, b2, t, id, p + q),
{
    law_stream_in_pieces(t, id, b0 + p, q);
    assert(b0 + p + q =~= b0 + (p + q));
    assert(w2.queued() =~= w0.queued() + full_records(t, id, b0 + (p + q)));
}

/// Adding nothing changes nothing.
pub proof fn lemma_kv_none<RW>(w: FCGIWriter<RW>, b: Seq<u8>, t: RecordType, id: u16)
    requires
        w.wf(),
        b.len() <= RECORD_LEN,
    ensures
        kv_step(w, b, w, b, t, id, Seq::empty()),
{
    assert(b + Seq::<u8>::empty() =~= b);
    assert(w.queued() + full_records(t, id, b) =~= w.queued());
}

} // verus!
