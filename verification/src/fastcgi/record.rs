//! Records: a header, a body and padding.
use bytes::{Bytes, BytesMut};
use vstd::prelude::*;

use crate::buffer::{
    advance, be16, chunk, contents, get_u16, get_u32, get_u8, lemma_read16, put_slice, put_u16,
    put_u8, read16, read32, slice, written,
};
use crate::fastcgi::codes::{FastCGIRole, ProtoStatus, RecordType};
use crate::fastcgi::params::NVBody;

verus! {

// ---------------------------------------------------------------- header

/// FCGI record header
#[derive(Debug, Clone, Copy)]
pub struct Header {
    pub version: u8,
    pub rtype: RecordType,
    /// A request ID R becomes active when the application receives a record
    /// {FCGI_BEGIN_REQUEST, R, …} and becomes inactive when the application sends a record
    /// {FCGI_END_REQUEST, R, …} to the Web server. Management records have a requestId value
    /// of zero
    pub request_id: u16,
    pub content_length: u16,
    /// align by 8
    pub padding_length: u8,
}

impl Header {
    /// Number of bytes in a Header.
    ///
    /// Future versions of the protocol will not reduce this number.
    pub const HEADER_LEN: usize = 8;

    /// version component of Header
    pub const VERSION_1: u8 = 1;
}

impl Record {
    /// Default request id component of Header
    pub const MGMT_REQUEST_ID: u16 = 0;
}

impl BeginRequestBody {
    /// Mask for flags component of BeginRequestBody
    pub const KEEP_CONN: u8 = 1;
}

impl Body {
    /// Maximum length per record
    pub const MAX_LENGTH: usize = 0xffff;
}

/// The number of bytes that fill a body of `len` bytes up to a multiple of eight.
pub open spec fn padding(len: int) -> int {
    (8 - len % 8) % 8
}

/// `n` zero bytes.
pub open spec fn zeros(n: nat) -> Seq<u8> {
    Seq::new(n, |i: int| 0u8)
}

/// The header of a record with a body of `len` bytes.
pub open spec fn header_of(rtype: RecordType, request_id: u16, len: u16) -> Header {
    Header {
        version: Header::VERSION_1,
        rtype,
        request_id,
        content_length: len,
        padding_length: padding(len as int) as u8,
    }
}

/// How a header is written.
pub open spec fn header_bytes(h: Header) -> Seq<u8> {
    seq![h.version, h.rtype.code()] + be16(h.request_id) + be16(h.content_length) + seq![
        h.padding_length,
        0u8,
    ]
}

/// The header at the start of `s`, if `s` holds one of a known type.
pub open spec fn read_header(s: Seq<u8>) -> Option<Header> {
    if s.len() < Header::HEADER_LEN {
        None
    } else {
        match RecordType::of_code(s[1]) {
            None => None,
            Some(rtype) => Some(
                Header {
                    version: s[0],
                    rtype,
                    request_id: read16(s.skip(2)) as u16,
                    content_length: read16(s.skip(4)) as u16,
                    padding_length: s[6],
                },
            ),
        }
    }
}

impl Header {
    /// The header of a record with a body of `len` bytes.
    pub fn new(rtype: RecordType, request_id: u16, len: u16) -> (r: Header)
        ensures
            r == header_of(rtype, request_id, len),
    {
        let mut pad: u8 = (len % 8) as u8;
        if pad != 0 {
            pad = 8 - pad;
        }
        Header {
            version: Header::VERSION_1,
            rtype,
            request_id,
            content_length: len,
            padding_length: pad,
        }
    }

    /// Appends the header to `data`.
    pub fn write_into(self, data: &mut BytesMut)
        requires
            written(*old(data)).len() + Header::HEADER_LEN <= isize::MAX,
        ensures
            written(*final(data)) == written(*old(data)) + header_bytes(self),
    {
        put_u8(data, self.version);
        put_u8(data, self.rtype.to_u8());
        put_u16(data, self.request_id);
        put_u16(data, self.content_length);
        put_u8(data, self.padding_length);
        put_u8(data, 0);  // reserved
        assert(written(*data) =~= written(*old(data)) + header_bytes(self));
    }

    /// Takes the header at the start of `data`.
    pub(crate) fn parse(data: &mut Bytes) -> (r: Header)
        requires
            read_header(contents(*old(data))) is Some,
        ensures
            read_header(contents(*old(data))) == Some(r),
            contents(*final(data)) == contents(*old(data)).skip(Header::HEADER_LEN as int),
    {
        let ghost s = contents(*data);
        let version = get_u8(data);
        let code = get_u8(data);
        assert(code == s[1]);
        assert(contents(*data) =~= s.skip(2));
        let request_id = get_u16(data);
        assert(contents(*data) =~= s.skip(4));
        let content_length = get_u16(data);
        assert(contents(*data) =~= s.skip(6));
        let padding_length = get_u8(data);
        advance(data, 1);  // reserved
        assert(contents(*data) =~= s.skip(8));
        let rtype = match RecordType::try_from(code) {
            Ok(t) => t,
            Err(_) => RecordType::UnknownType,
        };
        Header { version, rtype, request_id, content_length, padding_length }
    }

    #[inline]
    pub fn get_padding(&self) -> (r: u8)
        ensures
            r == self.padding_length,
    {
        self.padding_length
    }
}

// ---------------------------------------------------------------- bodies

#[derive(Debug, Clone, Copy)]
pub struct BeginRequestBody {
    pub role: FastCGIRole,
    pub flags: u8,
}

#[derive(Debug, Clone, Copy)]
pub struct EndRequestBody {
    pub app_status: u32,
    pub protocol_status: ProtoStatus,
}

#[derive(Debug, Clone, Copy)]
pub struct UnknownTypeBody {
    pub rtype: u8,
}

pub struct STDINBody {}

pub enum Body {
    BeginRequest(BeginRequestBody),
    EndRequest(EndRequestBody),
    UnknownType(UnknownTypeBody),
    Params(NVBody),
    StdIn(Bytes),
    StdErr(Bytes),
    StdOut(Bytes),
    Abort,
    GetValues(NVBody),
    GetValuesResult(NVBody),
}

/// What a body holds.
pub enum BodyView {
    BeginRequest(BeginRequestBody),
    EndRequest(EndRequestBody),
    UnknownType(UnknownTypeBody),
    Params(Seq<u8>),
    StdIn(Seq<u8>),
    StdErr(Seq<u8>),
    StdOut(Seq<u8>),
    Abort,
    GetValues(Seq<u8>),
    GetValuesResult(Seq<u8>),
}

impl View for Body {
    type V = BodyView;

    open spec fn view(&self) -> BodyView {
        match *self {
            Body::BeginRequest(b) => BodyView::BeginRequest(b),
            Body::EndRequest(b) => BodyView::EndRequest(b),
            Body::UnknownType(b) => BodyView::UnknownType(b),
            Body::Params(nv) => BodyView::Params(nv.data()),
            Body::StdIn(b) => BodyView::StdIn(contents(b)),
            Body::StdErr(b) => BodyView::StdErr(contents(b)),
            Body::StdOut(b) => BodyView::StdOut(contents(b)),
            Body::Abort => BodyView::Abort,
            Body::GetValues(nv) => BodyView::GetValues(nv.data()),
            Body::GetValuesResult(nv) => BodyView::GetValuesResult(nv.data()),
        }
    }
}

impl Body {
    /// The name-value bodies know their lengths.
    pub open spec fn wf(self) -> bool {
        match self {
            Body::Params(nv) => nv.wf(),
            Body::GetValues(nv) => nv.wf(),
            Body::GetValuesResult(nv) => nv.wf(),
            _ => true,
        }
    }
}

/// The body of a record of type `rtype` with the bytes `s`, if a record of that type can be
/// received and its bytes make sense.
pub open spec fn body_of(s: Seq<u8>, rtype: RecordType) -> Option<BodyView> {
    match rtype {
        RecordType::StdOut => Some(BodyView::StdOut(s)),
        RecordType::StdErr => Some(BodyView::StdErr(s)),
        RecordType::EndRequest => if s.len() < 8 {
            None
        } else {
            match ProtoStatus::of_code(s[4]) {
                None => None,
                Some(protocol_status) => Some(
                    BodyView::EndRequest(
                        EndRequestBody { app_status: read32(s) as u32, protocol_status },
                    ),
                ),
            }
        },
        RecordType::UnknownType => if s.len() < 8 {
            None
        } else {
            Some(BodyView::UnknownType(UnknownTypeBody { rtype: s[0] }))
        },
        RecordType::GetValuesResult => Some(BodyView::GetValuesResult(s)),
        RecordType::GetValues => Some(BodyView::GetValues(s)),
        RecordType::Params => Some(BodyView::Params(s)),
        _ => None,
    }
}

impl BeginRequestBody {
    /// create a record of type BeginRequest
    pub fn new(role: FastCGIRole, flags: u8, request_id: u16) -> (r: Record)
        ensures
            r.wf(),
            r@ == (RecordView {
                header: header_of(RecordType::BeginRequest, request_id, 8),
                body: BodyView::BeginRequest(BeginRequestBody { role, flags }),
            }),
    {
        Record {
            header: Header {
                version: Header::VERSION_1,
                rtype: RecordType::BeginRequest,
                request_id,
                content_length: 8,
                padding_length: 0,
            },
            body: Body::BeginRequest(BeginRequestBody { role, flags }),
        }
    }

    /// Appends the body to `data`.
    pub fn write_into(self, data: &mut BytesMut)
        requires
            written(*old(data)).len() + 8 <= isize::MAX,
        ensures
            written(*final(data)) == written(*old(data)) + begin_bytes(self),
    {
        put_u16(data, self.role.to_u16());
        put_u8(data, self.flags);
        put_zeros(data, 5);  // reserved
        assert(written(*data) =~= written(*old(data)) + begin_bytes(self));
    }
}

/// How the body of a record that begins a request is written.
pub open spec fn begin_bytes(b: BeginRequestBody) -> Seq<u8> {
    be16(b.role.code()) + seq![b.flags] + zeros(5)
}

impl EndRequestBody {
    /// Reads the body of a record that ends a request.
    fn parse(data: Bytes) -> (r: EndRequestBody)
        requires
            body_of(contents(data), RecordType::EndRequest) is Some,
        ensures
            body_of(contents(data), RecordType::EndRequest) == Some(BodyView::EndRequest(r)),
    {
        let mut data = data;
        let app_status = get_u32(&mut data);
        let code = get_u8(&mut data);
        let protocol_status = match ProtoStatus::try_from(code) {
            Ok(s) => s,
            Err(_) => ProtoStatus::UnknownRole,
        };
        EndRequestBody { app_status, protocol_status }
    }
}

impl STDINBody {
    /// create a single STDIN record from Bytes
    /// remaining bytes might be left if the record is full
    pub fn new(request_id: u16, b: &mut Bytes) -> (r: Record)
        ensures
            r.wf(),
            ({
                let all = contents(*old(b));
                let n = if all.len() <= Body::MAX_LENGTH {
                    all.len() as int
                } else {
                    Body::MAX_LENGTH as int
                };
                &&& r@ == (RecordView {
                    header: header_of(RecordType::StdIn, request_id, n as u16),
                    body: BodyView::StdIn(all.take(n)),
                })
                &&& contents(*final(b)) == all.skip(n)
            }),
    {
        let len: usize = if b.len() <= Body::MAX_LENGTH {
            b.len()
        } else {
            Body::MAX_LENGTH
        };
        let data = b.split_to(len);
        Record {
            header: Header::new(RecordType::StdIn, request_id, len as u16),
            body: Body::StdIn(data),
        }
    }
}

/// Appends `n` zero bytes to `data`.
fn put_zeros(data: &mut BytesMut, n: u8)
    requires
        written(*old(data)).len() + n <= isize::MAX,
    ensures
        written(*final(data)) == written(*old(data)) + zeros(n as nat),
{
    let mut i: u8 = 0;
    while i < n
        invariant
            i <= n,
            written(*old(data)).len() + n <= isize::MAX,
            written(*data) =~= written(*old(data)) + zeros(i as nat),
        decreases n - i,
    {
        put_u8(data, 0);
        i += 1;
    }
}

// ---------------------------------------------------------------- records

/// FCGI record
pub struct Record {
    pub header: Header,
    pub body: Body,
}

/// What a record holds.
pub struct RecordView {
    pub header: Header,
    pub body: BodyView,
}

impl View for Record {
    type V = RecordView;

    open spec fn view(&self) -> RecordView {
        RecordView { header: self.header, body: self.body@ }
    }
}

/// Whether a record is of a kind that can be written: a web server sends these. A body of
/// standard input without bytes has no padding.
pub open spec fn appendable(r: RecordView) -> bool {
    match r.body {
        BodyView::BeginRequest(_) => true,
        BodyView::Params(_) => true,
        BodyView::GetValues(_) => true,
        BodyView::GetValuesResult(_) => true,
        BodyView::StdIn(s) => s.len() == 0 ==> r.header.padding_length == 0,
        BodyView::Abort => true,
        _ => false,
    }
}

/// How the body of a record is written, padding included. The padding is made of zeros.
pub open spec fn body_bytes(r: RecordView) -> Seq<u8> {
    let pad = zeros(r.header.padding_length as nat);
    match r.body {
        BodyView::BeginRequest(b) => begin_bytes(b),
        BodyView::Params(s) => s + pad,
        BodyView::GetValues(s) => s + pad,
        BodyView::GetValuesResult(s) => s + pad,
        BodyView::StdIn(s) => s + pad,
        _ => Seq::empty(),
    }
}

/// How a record is written.
pub open spec fn record_bytes(r: RecordView) -> Seq<u8> {
    header_bytes(r.header) + body_bytes(r)
}

/// Whether reading a record from `s` makes sense: where there is a header, its type is
/// known, and where there is a whole record, its body can be read.
pub open spec fn record_readable(s: Seq<u8>) -> bool {
    s.len() >= Header::HEADER_LEN ==> {
        &&& read_header(s) matches Some(h) && (s.len() >= Header::HEADER_LEN + h.content_length
            + h.padding_length ==> body_of(
            s.subrange(Header::HEADER_LEN as int, Header::HEADER_LEN + h.content_length),
            h.rtype,
        ) is Some)
    }
}

/// The record at the start of `s` and the number of bytes that it takes, if `s` holds a
/// whole one.
pub open spec fn read_record(s: Seq<u8>) -> Option<(RecordView, int)> {
    match read_header(s) {
        None => None,
        Some(h) => {
            let end = Header::HEADER_LEN + h.content_length;
            if s.len() < end + h.padding_length {
                None
            } else {
                match body_of(s.subrange(Header::HEADER_LEN as int, end), h.rtype) {
                    None => None,
                    Some(body) => Some((RecordView { header: h, body }, end + h.padding_length)),
                }
            }
        },
    }
}

impl Record {
    pub open spec fn wf(self) -> bool {
        self.body.wf()
    }

    pub(crate) fn get_request_id(&self) -> (r: u16)
        ensures
            r == self@.header.request_id,
    {
        self.header.request_id
    }

    /// parse bytes to a single record
    /// returns `None` and leaves data untouched if not enough data is available
    pub fn read(data: &mut Bytes) -> (r: Option<Record>)
        requires
            record_readable(contents(*old(data))),
        ensures
            match r {
                None => read_record(contents(*old(data))) is None && *final(data) == *old(data),
                Some(rec) => {
                    &&& rec.wf()
                    &&& read_record(contents(*old(data))) matches Some((v, n)) && {
                        &&& rec@ == v
                        &&& contents(*final(data)) == contents(*old(data)).skip(n)
                    }
                },
            },
    {
        let ghost s = contents(*data);
        //dont alter data until we have a whole packet to read
        if data.len() < Header::HEADER_LEN {
            return None;
        }
        let mut peek = data.clone();
        let header = Header::parse(&mut peek);
        let len: usize = header.content_length as usize + header.padding_length as usize;
        if data.len() < len + Header::HEADER_LEN {
            return None;
        }
        advance(data, Header::HEADER_LEN);
        let body = slice(data, 0, header.content_length as usize);
        assert(contents(body) =~= s.subrange(
            Header::HEADER_LEN as int,
            Header::HEADER_LEN + header.content_length,
        ));
        advance(data, len);
        assert(contents(*data) =~= s.skip(Header::HEADER_LEN + len));
        let body = Record::parse_body(body, header.rtype);
        Some(Record { header, body })
    }

    /// Whether `read` can be called on `data`: the header there is of a known type, and a
    /// whole record has a body that can be read.
    pub fn is_readable(data: &Bytes) -> (r: bool)
        ensures
            r == record_readable(contents(*data)),
    {
        let ghost s = contents(*data);
        if data.len() < Header::HEADER_LEN {
            return true;
        }
        let code: u8 = chunk(data)[1];
        if RecordType::try_from(code).is_err() {
            return false;
        }
        let mut rest = data.clone();
        let header = Header::parse(&mut rest);
        let len: usize = header.content_length as usize + header.padding_length as usize;
        if data.len() < len + Header::HEADER_LEN {
            return true;
        }
        let end: usize = Header::HEADER_LEN + header.content_length as usize;
        let body = slice(data, Header::HEADER_LEN, end);
        Record::body_is_readable(&body, header.rtype)
    }

    /// Whether a record of type `ptype` can be received with the bytes of `payload`.
    pub(crate) fn body_is_readable(payload: &Bytes, ptype: RecordType) -> (r: bool)
        ensures
            r == (body_of(contents(*payload), ptype) is Some),
    {
        match ptype {
            RecordType::StdOut => true,
            RecordType::StdErr => true,
            RecordType::EndRequest => {
                if payload.len() < 8 {
                    false
                } else {
                    let code: u8 = chunk(payload)[4];
                    ProtoStatus::try_from(code).is_ok()
                }
            },
            RecordType::UnknownType => payload.len() >= 8,
            RecordType::GetValuesResult => true,
            RecordType::GetValues => true,
            RecordType::Params => true,
            _ => false,
        }
    }

    /// Reads the body of a record of type `ptype`.
    pub(crate) fn parse_body(payload: Bytes, ptype: RecordType) -> (r: Body)
        requires
            body_of(contents(payload), ptype) is Some,
            contents(payload).len() <= Body::MAX_LENGTH,
        ensures
            r.wf(),
            body_of(contents(payload), ptype) == Some(r@),
    {
        let mut payload = payload;
        match ptype {
            RecordType::StdOut => Body::StdOut(payload),
            RecordType::StdErr => Body::StdErr(payload),
            RecordType::EndRequest => Body::EndRequest(EndRequestBody::parse(payload)),
            RecordType::UnknownType => {
                let rtype = get_u8(&mut payload);
                Body::UnknownType(UnknownTypeBody { rtype })
            },
            RecordType::GetValuesResult => Body::GetValuesResult(NVBody::from_bytes(payload)),
            RecordType::GetValues => Body::GetValues(NVBody::from_bytes(payload)),
            _ => Body::Params(NVBody::from_bytes(payload)),
        }
    }

    /// serialize this record and append it to buf
    pub fn append(self, buf: &mut BytesMut)
        requires
            self.wf(),
            appendable(self@),
            written(*old(buf)).len() + record_bytes(self@).len() <= isize::MAX,
        ensures
            written(*final(buf)) == written(*old(buf)) + record_bytes(self@),
    {
        let ghost before = written(*buf);
        let pad = self.header.padding_length;
        match self.body {
            Body::BeginRequest(brb) => {
                self.header.write_into(buf);
                brb.write_into(buf);
            },
            Body::Params(nvs) => {
                self.header.write_into(buf);
                let kvp = nvs.drain().0;
                put_slice(buf, chunk(&kvp));
                put_zeros(buf, pad);
            },
            Body::GetValues(nvs) => {
                self.header.write_into(buf);
                let kvp = nvs.drain().0;
                put_slice(buf, chunk(&kvp));
                put_zeros(buf, pad);
            },
            Body::GetValuesResult(nvs) => {
                self.header.write_into(buf);
                let kvp = nvs.drain().0;
                put_slice(buf, chunk(&kvp));
                put_zeros(buf, pad);
            },
            Body::StdIn(b) => {
                self.header.write_into(buf);
                if b.len() == 0 {
                    //end stream has no data or padding
                    assert(written(*buf) =~= before + record_bytes(self@));
                    return ;
                }
                put_slice(buf, chunk(&b));
                put_zeros(buf, pad);
            },
            _ => {
                self.header.write_into(buf);
            },
        }
        assert(written(*buf) =~= before + record_bytes(self@));
    }
}

impl NVBody {
    /// The record of type `rtype` with this body. There are three types for such a body.
    pub fn to_record(self, rtype: RecordType, request_id: u16) -> (r: Record)
        requires
            self.wf(),
            rtype is Params || rtype is GetValues || rtype is GetValuesResult,
        ensures
            r.wf(),
            r@ == nv_record(rtype, request_id, self.data()),
    {
        let mut pad: u8 = (self.len % 8) as u8;
        if pad != 0 {
            pad = 8 - pad;
        }
        Record {
            header: Header {
                version: Header::VERSION_1,
                rtype,
                request_id,
                content_length: self.len,
                padding_length: pad,
            },
            body: match rtype {
                RecordType::Params => Body::Params(self),
                RecordType::GetValues => Body::GetValues(self),
                _ => Body::GetValuesResult(self),
            },
        }
    }
}

/// The record of type `rtype` with the name-value pairs in `data`.
pub open spec fn nv_record(rtype: RecordType, request_id: u16, data: Seq<u8>) -> RecordView {
    RecordView {
        header: header_of(rtype, request_id, data.len() as u16),
        body: match rtype {
            RecordType::Params => BodyView::Params(data),
            RecordType::GetValues => BodyView::GetValues(data),
            _ => BodyView::GetValuesResult(data),
        },
    }
}

// ---------------------------------------------------------------- laws

/// Reading a header gives back the header that was written, whatever follows.
pub proof fn law_header_round_trip(h: Header, rest: Seq<u8>)
    ensures
        header_bytes(h).len() == Header::HEADER_LEN,
        read_header(header_bytes(h) + rest) == Some(h),
{
    let s = header_bytes(h) + rest;
    assert(s.skip(2) =~= be16(h.request_id) + (be16(h.content_length) + seq![
        h.padding_length,
        0u8,
    ] + rest));
    assert(s.skip(4) =~= be16(h.content_length) + (seq![h.padding_length, 0u8] + rest));
    lemma_read16(h.request_id, be16(h.content_length) + seq![h.padding_length, 0u8] + rest);
    lemma_read16(h.content_length, seq![h.padding_length, 0u8] + rest);
}

/// Header, body and padding together are a multiple of eight bytes, and the padding is less
/// than eight bytes.
pub proof fn law_padding_aligns(rtype: RecordType, request_id: u16, len: u16)
    ensures
        (Header::HEADER_LEN + len + header_of(rtype, request_id, len).padding_length) % 8 == 0,
        header_of(rtype, request_id, len).padding_length < 8,
{
}

/// A record of name-value pairs that was written is read back, whatever follows.
pub proof fn law_nv_record_round_trip(
    rtype: RecordType,
    request_id: u16,
    data: Seq<u8>,
    rest: Seq<u8>,
)
    requires
        rtype is Params || rtype is GetValues || rtype is GetValuesResult,
        data.len() <= Body::MAX_LENGTH,
    ensures
        ({
            let r = nv_record(rtype, request_id, data);
            let s = record_bytes(r) + rest;
            &&& appendable(r)
            &&& record_readable(s)
            &&& read_record(s) == Some((r, record_bytes(r).len() as int))
            &&& s.skip(record_bytes(r).len() as int) == rest
        }),
{
    let r = nv_record(rtype, request_id, data);
    let h = r.header;
    let pad = zeros(h.padding_length as nat);
    let s = record_bytes(r) + rest;
    law_header_round_trip(h, data + pad + rest);
    assert(s =~= header_bytes(h) + (data + pad + rest));
    assert(s.subrange(Header::HEADER_LEN as int, Header::HEADER_LEN + data.len()) =~= data);
    assert(s.skip(record_bytes(r).len() as int) =~= rest);
}

} // verus!
