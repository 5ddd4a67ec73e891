//! How an HTTP request is told to an application.
use bytes::{Bytes, BytesMut};
use http::{HeaderMap, HeaderName, HeaderValue};
use tokio::sync::OwnedSemaphorePermit;
use vstd::prelude::*;

use crate::buffer::{
    ascii, chunk, contents, is_text, lemma_assoc, put_slice, put_u8, text, written,
};
use crate::client::connection::inner::{key_of, InnerConnection};
use crate::client::connection::requests::{requests, RequestView};
use crate::codec::{
    all_sendable, chunk_bytes, full_records, item_bytes, leftover, lemma_kv_join,
    lemma_kv_none, sendable, stream_bytes, stream_end, FCGIType, FCGIWriter, NameValuePairWriter,
};
use crate::error::SendError;
use crate::fastcgi::params::{
    encode_pairs, law_pairs_push, lemma_pairs_concat, pair_bytes, pair_views, MAX_PART,
};
use crate::fastcgi::{BeginRequestBody, FastCGIRole, RecordType};
use crate::headers::{
    fields, header_name, header_name_bytes, header_value_bytes, headers_get, headers_get_all,
    headers_keys, is_token, lower, lower_byte, name_bytes, names_of, names_view,
    value_bytes, values_view,
};
use crate::number::{decimal, to_decimal};

verus! {

/// Specifies how to handle multiple HTTP Headers
#[derive(Debug, Clone, Copy, PartialEq, Eq, Structural)]
pub enum MultiHeaderStrategy {
    /// RFC 3875: Combine then by joining them separated by `,`
    Combine,
    /// Only forward the first occurrence
    OnlyFirst,
    /// Only forward the last occurrence
    OnlyLast,
}

/// Specifies how to handle HTTP Headers that contain `\n`
#[derive(Debug, Clone, Copy, PartialEq, Eq, Structural)]
pub enum HeaderMultilineStrategy {
    /// Forward it to the FCGI server
    Ignore,
    /// RFC 7230: Return an error
    ReturnError,
}

/// What a request says besides its body.
pub struct RequestHead {
    /// What follows the question mark of the URI.
    pub query: Option<Bytes>,
    pub method: Bytes,
    pub headers: HeaderMap<HeaderValue>,
    /// The body has at least so many bytes.
    pub size_lower: u64,
    /// The body has at most so many bytes.
    pub size_upper: Option<u64>,
}

// ---------------------------------------------------------------- the parameters

/// A byte of a header name as it stands in the name of a parameter: letters in upper case,
/// an underscore for a dash.
pub open spec fn var_byte(b: u8) -> u8 {
    if b == 0x2d {
        0x5f
    } else if 0x61 <= b <= 0x7a {
        (b - 32) as u8
    } else {
        b
    }
}

/// The name of the parameter that a header turns to. (CGI/1.1 4.1.18)
pub open spec fn var_name(name: Seq<u8>) -> Seq<u8> {
    ascii("HTTP_"@) + name.map_values(|b: u8| var_byte(b))
}

/// The headers that are not forwarded: they have parameters of their own, or are nothing for
/// an application.
pub open spec fn skipped(name: Seq<u8>) -> bool {
    ||| name == ascii("authorization"@)
    ||| name == ascii("content-length"@)
    ||| name == ascii("content-type"@)
}

/// Values one after the other, with a comma between them.
pub open spec fn join(values: Seq<Seq<u8>>) -> Seq<u8>
    decreases values.len(),
{
    if values.len() == 0 {
        Seq::empty()
    } else if values.len() == 1 {
        values[0]
    } else {
        join(values.drop_last()) + seq![0x2cu8] + values.last()
    }
}

/// What is forwarded of the values of a header.
pub open spec fn forwarded(values: Seq<Seq<u8>>, mul: MultiHeaderStrategy) -> Seq<u8> {
    match mul {
        MultiHeaderStrategy::Combine => join(values),
        MultiHeaderStrategy::OnlyFirst => if values.len() > 0 {
            values[0]
        } else {
            Seq::empty()
        },
        MultiHeaderStrategy::OnlyLast => if values.len() > 0 {
            values.last()
        } else {
            Seq::empty()
        },
    }
}

/// The parameter that the header `name` turns to.
pub open spec fn header_var(
    m: Map<Seq<u8>, Seq<Seq<u8>>>,
    name: Seq<u8>,
    mul: MultiHeaderStrategy,
) -> (Seq<u8>, Seq<u8>) {
    (var_name(name), forwarded(m[name], mul))
}

/// The parameters that the headers `names` turn to, in that order.
pub open spec fn header_vars(
    m: Map<Seq<u8>, Seq<Seq<u8>>>,
    names: Seq<Seq<u8>>,
    mul: MultiHeaderStrategy,
) -> Seq<(Seq<u8>, Seq<u8>)>
    decreases names.len(),
{
    if names.len() == 0 {
        Seq::empty()
    } else {
        let init = header_vars(m, names.drop_last(), mul);
        if skipped(names.last()) {
            init
        } else {
            init.push(header_var(m, names.last(), mul))
        }
    }
}

/// Whether the header `name` has to be refused because its value spans lines.
pub open spec fn refused(
    m: Map<Seq<u8>, Seq<Seq<u8>>>,
    name: Seq<u8>,
    mul: MultiHeaderStrategy,
    nl: HeaderMultilineStrategy,
) -> bool {
    &&& nl is ReturnError
    &&& !skipped(name)
    &&& forwarded(m[name], mul).contains(0x0au8)
}

/// How many of the headers `names` come before the first one that has to be refused.
pub open spec fn accepted(
    m: Map<Seq<u8>, Seq<Seq<u8>>>,
    names: Seq<Seq<u8>>,
    mul: MultiHeaderStrategy,
    nl: HeaderMultilineStrategy,
) -> nat
    decreases names.len(),
{
    if names.len() == 0 {
        0
    } else {
        let init = accepted(m, names.drop_last(), mul, nl);
        if init < names.len() - 1 || refused(m, names.last(), mul, nl) {
            init
        } else {
            names.len()
        }
    }
}

/// The parameters that do not stand for a header of the request, after those that the caller
/// gave.
pub open spec fn request_vars(
    query: Seq<u8>,
    method: Seq<u8>,
    content_type: Option<Seq<u8>>,
    content_length: Option<nat>,
) -> Seq<(Seq<u8>, Seq<u8>)> {
    seq![(ascii("QUERY_STRING"@), query), (ascii("REQUEST_METHOD"@), method)]
        + match content_type {
        Some(v) => seq![(ascii("CONTENT_TYPE"@), v)],
        None => Seq::empty(),
    } + match content_length {
        Some(n) => seq![(ascii("CONTENT_LENGTH"@), decimal(n))],
        None => Seq::empty(),
    }
}

impl RequestHead {
    /// The headers of the request.
    pub open spec fn fields(self) -> Map<Seq<u8>, Seq<Seq<u8>>> {
        fields(self.headers)
    }

    pub open spec fn query_bytes(self) -> Seq<u8> {
        match self.query {
            Some(q) => contents(q),
            None => Seq::empty(),
        }
    }

    /// The first value of the content type header, if there is one.
    pub open spec fn content_type(self) -> Option<Seq<u8>> {
        if self.fields().dom().contains(ascii("content-type"@)) {
            Some(forwarded(self.fields()[ascii("content-type"@)], MultiHeaderStrategy::OnlyFirst))
        } else {
            None
        }
    }

    /// The length that the body has at least, unless it is known to be empty.
    pub open spec fn content_length(self) -> Option<nat> {
        if self.size_upper == Some(0u64) {
            None
        } else {
            Some(self.size_lower as nat)
        }
    }

    /// The parameters of the request that do not stand for a header.
    pub open spec fn vars(self) -> Seq<(Seq<u8>, Seq<u8>)> {
        request_vars(
            self.query_bytes(),
            contents(self.method),
            self.content_type(),
            self.content_length(),
        )
    }
}

/// Whether all parameters of a request are short enough to be written.
pub open spec fn request_fits(
    dyn_headers: Seq<(Seq<u8>, Seq<u8>)>,
    req: RequestHead,
    mul: MultiHeaderStrategy,
) -> bool {
    &&& all_sendable(dyn_headers)
    &&& all_sendable(req.vars())
    &&& forall|n: Seq<u8>| #[trigger]
        req.fields().dom().contains(n) && !skipped(n) ==> sendable(
            header_var(req.fields(), n, mul),
        )
}

// ---------------------------------------------------------------- sending

/// How requests are forwarded on a connection.
pub struct Connection {
    pub header_mul: MultiHeaderStrategy,
    pub header_nl: HeaderMultilineStrategy,
}

/// The name of the parameter that a header turns to.
fn param_name(key: &HeaderName) -> (r: Bytes)
    requires
        var_name(name_bytes(*key)).len() <= MAX_PART,
    ensures
        contents(r) == var_name(name_bytes(*key)),
{
    let name = header_name_bytes(key);
    proof {
        reveal_strlit("HTTP_");
    }
    let prefix = text("HTTP_");
    let mut k = BytesMut::with_capacity(name.len() + 5);
    put_slice(&mut k, chunk(&prefix));
    let mut i: usize = 0;
    assert(written(k) =~= ascii("HTTP_"@) + name@.take(0).map_values(|b: u8| var_byte(b)));
    while i < name.len()
        invariant
            i <= name@.len(),
            name@.len() + 5 <= MAX_PART,
            ascii("HTTP_"@).len() == 5,
            written(k) == ascii("HTTP_"@) + name@.take(i as int).map_values(
                |b: u8| var_byte(b),
            ),
        decreases name@.len() - i,
    {
        let c: u8 = name[i];
        let upper: u8 = if c == 0x2d {
            0x5f
        } else if 0x61 <= c && c <= 0x7a {
            c - 32
        } else {
            c
        };
        put_u8(&mut k, upper);
        proof {
            let f = |b: u8| var_byte(b);
            assert(name@.take(i + 1).map_values(f) =~= name@.take(i as int).map_values(f).push(
                upper,
            ));
            assert(written(k) =~= ascii("HTTP_"@) + name@.take(i + 1).map_values(f));
        }
        i += 1;
    }
    assert(name@.take(i as int) =~= name@);
    k.freeze()
}

/// Joining more values gives something longer.
proof fn lemma_join_prefix(values: Seq<Seq<u8>>, n: int)
    requires
        0 <= n <= values.len(),
    ensures
        join(values.take(n)).len() <= join(values).len(),
    decreases values.len() - n,
{
    if n == values.len() {
        assert(values.take(n) =~= values);
    } else {
        assert(values.take(n + 1).drop_last() =~= values.take(n));
        lemma_join_prefix(values, n + 1);
    }
}

/// Values one after the other, with a comma between them.
fn joined(values: &Vec<&HeaderValue>) -> (r: Bytes)
    requires
        join(values_view(values@)).len() <= MAX_PART,
    ensures
        contents(r) == join(values_view(values@)),
{
    let ghost all = values_view(values@);
    let mut value_buf = BytesMut::with_capacity(512);
    let mut i: usize = 0;
    assert(all.take(0) =~= Seq::empty());
    while i < values.len()
        invariant
            i <= values@.len(),
            all == values_view(values@),
            join(all).len() <= MAX_PART,
            written(value_buf) == join(all.take(i as int)),
        decreases values@.len() - i,
    {
        proof {
            lemma_join_prefix(all, i + 1);
            assert(all.take(i + 1).drop_last() =~= all.take(i as int));
            assert(all.take(i + 1).last() == all[i as int]);
        }
        if i > 0 {
            put_u8(&mut value_buf, 0x2c);
        }
        put_slice(&mut value_buf, header_value_bytes(values[i]));
        assert(written(value_buf) =~= join(all.take(i + 1)));
        i += 1;
    }
    assert(all.take(i as int) =~= all);
    value_buf.freeze()
}

/// Whether a run of bytes holds a line feed.
fn has_newline(b: &Bytes) -> (r: bool)
    ensures
        r == contents(*b).contains(0x0au8),
{
    let s = chunk(b);
    let mut i: usize = 0;
    while i < s.len()
        invariant
            i <= s@.len(),
            s@ == contents(*b),
            forall|j: int| 0 <= j < i ==> s@[j] != 0x0au8,
        decreases s@.len() - i,
    {
        if s[i] == 0x0a {
            assert(s@[i as int] == 0x0au8);
            return true;
        }
        i += 1;
    }
    false
}

/// Whether a header is not forwarded.
fn is_skipped(key: &HeaderName) -> (r: bool)
    ensures
        r == skipped(name_bytes(*key)),
{
    let name = header_name_bytes(key);
    proof {
        reveal_strlit("authorization");
        reveal_strlit("content-length");
        reveal_strlit("content-type");
    }
    is_text(name, "authorization") || is_text(name, "content-length") || is_text(
        name,
        "content-type",
    )
}

impl Connection {
    /// What is forwarded of the values of a header.
    fn header_value(&self, headers: &HeaderMap<HeaderValue>, key: &HeaderName) -> (r: Bytes)
        requires
            fields(*headers).dom().contains(name_bytes(*key)),
            forwarded(fields(*headers)[name_bytes(*key)], self.header_mul).len() <= MAX_PART,
        ensures
            contents(r) == forwarded(fields(*headers)[name_bytes(*key)], self.header_mul),
    {
        match self.header_mul {
            MultiHeaderStrategy::Combine => {
                let all = headers_get_all(headers, key);
                joined(&all)
            },
            MultiHeaderStrategy::OnlyFirst => match headers_get(headers, key) {
                Some(v) => Bytes::copy_from_slice(header_value_bytes(v)),
                None => Bytes::new(),
            },
            MultiHeaderStrategy::OnlyLast => {
                let all = headers_get_all(headers, key);
                let ghost views = values_view(all@);
                if all.len() > 0 {
                    let last: usize = all.len() - 1;
                    assert(views.last() == value_bytes(*all@[last as int]));
                    Bytes::copy_from_slice(header_value_bytes(all[last]))
                } else {
                    Bytes::new()
                }
            },
        }
    }

    /// Appends the headers `keys`, in that order, up to one that has to be refused.
    pub fn add_headers<RW>(
        &self,
        kvw: &mut NameValuePairWriter<RW>,
        headers: &HeaderMap<HeaderValue>,
        keys: &Vec<HeaderName>,
    ) -> (r: Result<(), SendError>)
        requires
            old(kvw).wf(),
            forall|i: int|
                0 <= i < keys@.len() ==> fields(*headers).dom().contains(
                    #[trigger] names_view(keys@)[i],
                ),
            forall|i: int|
                0 <= i < keys@.len() && !skipped(#[trigger] names_view(keys@)[i]) ==> sendable(
                    header_var(fields(*headers), names_view(keys@)[i], self.header_mul),
                ),
        ensures
            *final(final(kvw).w) == *final(old(kvw).w),
            final(kvw).wf(),
            ({
                let names = names_view(keys@);
                let n = accepted(fields(*headers), names, self.header_mul, self.header_nl);
                &&& final(kvw).added(
                    *old(kvw),
                    encode_pairs(
                        header_vars(fields(*headers), names.take(n as int), self.header_mul),
                    ),
                )
                &&& r is Ok <==> n == names.len()
                &&& r matches Err(e) ==> e == SendError::MultilineHeader
            }),
    {
        let ghost m = fields(*headers);
        let ghost names = names_view(keys@);
        let ghost (mul, nl) = (self.header_mul, self.header_nl);
        let mut i: usize = 0;
        assert(names.take(0) =~= Seq::empty());
        proof {
            lemma_kv_none(*kvw.w, written(kvw.buf), kvw.rtype, kvw.request_id);
        }
        while i < keys.len()
            invariant
                i <= keys@.len(),
                m == fields(*headers),
                names == names_view(keys@),
                mul == self.header_mul,
                nl == self.header_nl,
                forall|i: int| 0 <= i < names.len() ==> m.dom().contains(#[trigger] names[i]),
                forall|i: int|
                    0 <= i < names.len() && !skipped(#[trigger] names[i]) ==> sendable(
                        header_var(m, names[i], mul),
                    ),
                *final(kvw.w) == *final(old(kvw).w),
                kvw.wf(),
                kvw.added(*old(kvw), encode_pairs(header_vars(m, names.take(i as int), mul))),
                accepted(m, names.take(i as int), mul, nl) == i,
            decreases keys@.len() - i,
        {
            let key = &keys[i];
            let ghost name = names[i as int];
            let ghost so_far = header_vars(m, names.take(i as int), mul);
            proof {
                assert(name == name_bytes(*key));
                assert(m.dom().contains(name));
                assert(names.take(i + 1).drop_last() =~= names.take(i as int));
                assert(names.take(i + 1).last() == name);
                lemma_accepted(m, names, mul, nl, i + 1);
            }
            if is_skipped(key) {
                i += 1;
                continue ;
            }
            assert(sendable(header_var(m, name, mul)));
            let k = param_name(key);
            let value = self.header_value(headers, key);
            if let HeaderMultilineStrategy::ReturnError = self.header_nl {
                if has_newline(&value) {
                    return Err(SendError::MultilineHeader);
                }
            }
            let ghost before = *kvw;
            let ghost pair = (contents(k), contents(value));
            kvw.add_kv(k, value);
            proof {
                law_pairs_push(so_far, pair);
                lemma_kv_join(
                    *old(kvw).w,
                    written(old(kvw).buf),
                    *before.w,
                    written(before.buf),
                    *kvw.w,
                    written(kvw.buf),
                    kvw.rtype,
                    kvw.request_id,
                    encode_pairs(so_far),
                    pair_bytes(pair.0, pair.1),
                );
            }
            i += 1;
        }
        assert(names.take(i as int) =~= names);
        Ok(())
    }
}

/// What became of a request that was sent.
pub struct Sent {
    /// Its id.
    pub rid: u16,
    /// How many bytes of body have to follow, if there is a body.
    pub len: Option<usize>,
}

/// The parameters of a request, with its headers in the order `names`.
pub open spec fn params(
    dyn_headers: Seq<(Seq<u8>, Seq<u8>)>,
    req: RequestHead,
    names: Seq<Seq<u8>>,
    mul: MultiHeaderStrategy,
) -> Seq<(Seq<u8>, Seq<u8>)> {
    dyn_headers + req.vars() + header_vars(req.fields(), names, mul)
}

/// What is written for a request with the id `rid`, and what is returned, when its headers are
/// walked in the order `names`.
///
/// A request starts with its id and goes on with its parameters. Where there is no body, an
/// empty one follows at once. Where a header is refused, the request is aborted in the middle
/// of its parameters: what is held back of them is not written.
pub open spec fn sent(
    con: Connection,
    dyn_headers: Seq<(Seq<u8>, Seq<u8>)>,
    req: RequestHead,
    names: Seq<Seq<u8>>,
    rid: u16,
    out: Seq<u8>,
    r: Result<Sent, SendError>,
) -> bool {
    let begin = item_bytes(
        FCGIType::BeginRequest {
            request_id: rid,
            role: FastCGIRole::Responder,
            flags: BeginRequestBody::KEEP_CONN,
        },
    );
    let n = accepted(req.fields(), names, con.header_mul, con.header_nl);
    let pairs = encode_pairs(params(dyn_headers, req, names.take(n as int), con.header_mul));
    if n < names.len() {
        &&& r == Err::<Sent, SendError>(SendError::MultilineHeader)
        &&& out == begin + full_records(RecordType::Params, rid, pairs) + item_bytes(
            FCGIType::AbortRequest { request_id: rid },
        )
    } else {
        match req.content_length() {
            Some(len) => {
                &&& r == Ok::<Sent, SendError>(Sent { rid, len: Some(len as usize) })
                &&& out == begin + stream_bytes(RecordType::Params, rid, pairs)
            },
            None => {
                &&& r == Ok::<Sent, SendError>(Sent { rid, len: None })
                &&& out == begin + stream_bytes(RecordType::Params, rid, pairs) + chunk_bytes(
                    RecordType::StdIn,
                    rid,
                    Seq::empty(),
                )
            },
        }
    }
}

impl Connection {
    /// Forwards with [`MultiHeaderStrategy::OnlyFirst`] & [`HeaderMultilineStrategy::Ignore`].
    pub fn new() -> (r: Connection)
        ensures
            r.header_mul is OnlyFirst,
            r.header_nl is Ignore,
    {
        Connection {
            header_mul: MultiHeaderStrategy::OnlyFirst,
            header_nl: HeaderMultilineStrategy::Ignore,
        }
    }

    /// Appends the parameters of a request that do not stand for a header.
    fn add_request<RW>(
        &self,
        kvw: &mut NameValuePairWriter<RW>,
        req: &RequestHead,
    )
        requires
            old(kvw).wf(),
            all_sendable(req.vars()),
        ensures
            *final(final(kvw).w) == *final(old(kvw).w),
            final(kvw).wf(),
            final(kvw).added(*old(kvw), encode_pairs(req.vars())),
    {
        proof {
            reveal_strlit("QUERY_STRING");
            reveal_strlit("REQUEST_METHOD");
            reveal_strlit("CONTENT_TYPE");
            reveal_strlit("CONTENT_LENGTH");
        }
        let mut pairs: Vec<(Bytes, Bytes)> = Vec::new();
        let query = match &req.query {
            Some(query) => query.clone(),
            None => Bytes::new(),
        };
        pairs.push((text("QUERY_STRING"), query));  //must CGI1.1 4.1.7
        pairs.push((text("REQUEST_METHOD"), req.method.clone()));  //must CGI1.1 4.1.12
        let key = content_type_name();
        if let Some(value) = headers_get(&req.headers, &key) {
            //if client CGI1.1 4.1.3.
            let value = Bytes::copy_from_slice(header_value_bytes(value));
            pairs.push((text("CONTENT_TYPE"), value));
        }
        if let Some(len) = Self::body_length(req) {
            //if body CGI1.1 4.1.2.
            let digits = Bytes::copy_from_slice(to_decimal(len).as_slice());
            pairs.push((text("CONTENT_LENGTH"), digits));
        }
        assert(pair_views(pairs@) =~= req.vars());
        kvw.extend(pairs);
    }

    /// The length that the body has at least, unless it is known to be empty.
    fn body_length(req: &RequestHead) -> (r: Option<u64>)
        ensures
            r == match req.content_length() {
                Some(n) => Some(n as u64),
                None => None,
            },
    {
        match req.size_upper {
            Some(n) => {
                if n == 0 {
                    //if exact and 0 -> no body
                    None
                } else {
                    Some(req.size_lower)
                }
            },
            //if unknown -> at least lower, maybe 0
            None => Some(req.size_lower),
        }
    }

    /// start a new request on a connection that is ready
    ///
    /// Fills `QUERY_STRING`, `REQUEST_METHOD`, `CONTENT_TYPE` and `CONTENT_LENGTH`
    /// from the corresponding values in the Request.
    /// Headers from the Request will be added with the `HTTP_` prefix. (CGI/1.1 4.1.18)
    ///
    /// Additional Params might be expected from the application (at least the url path):
    ///
    /// |Param             |Specification           |Info                       |
    /// |------------------|------------------------|---------------------------|
    /// | SCRIPT_NAME      |**must** CGI/1.1 4.1.13 | **required** in any case |
    /// | SERVER_NAME      |**must** CGI/1.1 4.1.14 | **required** by flup |
    /// | SERVER_PORT      |**must** CGI/1.1 4.1.15 | **required** by flup |
    /// | SERVER_PROTOCOL  |**must** CGI/1.1 4.1.16 | **required** by flup |
    /// | SERVER_SOFTWARE  |**must** CGI/1.1 4.1.17 | |
    /// | REMOTE_ADDR      |**must** CGI/1.1 4.1.8  | |
    /// | GATEWAY_INTERFACE|**must** CGI/1.1 4.1.4  | `"CGI/1.1"` |
    /// | REMOTE_HOST      |should CGI/1.1  4.1.9 | |
    /// | REMOTE_IDENT     |may CGI/1.1  4.1.10 | |
    /// | REMOTE_USER      |opt CGI/1.1 | |
    /// | AUTH_TYPE        |opt CGI/1.1 | |
    /// | PATH_INFO        |opt CGI/1.1   4.1.5 |extra-path|
    /// | PATH_TRANSLATED  |opt CGI/1.1   4.1.6|
    /// | SCRIPT_FILENAME  | | **required** by PHP |
    /// | REMOTE_PORT      | | common |
    /// | SERVER_ADDR      | | common |
    /// | REQUEST_URI      | | common |
    /// | DOCUMENT_URI     | | common |
    /// | DOCUMENT_ROOT    | | common |
    ///
    /// The headers are sent in the order in which their map walks them, which is not
    /// specified.
    pub fn send_request<RW>(
        &self,
        inner: &mut InnerConnection<RW>,
        req: &RequestHead,
        dyn_headers: Vec<(Bytes, Bytes)>,
        permit: OwnedSemaphorePermit,
    ) -> (r: Result<Sent, SendError>)
        requires
            old(inner).wf(),
            requests(old(inner).running_requests).dom().len() < 0xffff,
            request_fits(pair_views(dyn_headers@), *req, self.header_mul),
        ensures
            final(inner).wf(),
            final(inner).fcgi_parser == old(inner).fcgi_parser,
            final(inner).early == old(inner).early,
            final(inner).io.io == old(inner).io.io,
            exists|names: Seq<Seq<u8>>, rid: u16, out: Seq<u8>|
                {
                    &&& names_of(req.fields(), names)
                    &&& started(old(inner).running(), rid, permit, final(inner).running())
                    &&& final(inner).io.queued() == old(inner).io.queued() + out
                    &&& #[trigger] sent(
                        *self,
                        pair_views(dyn_headers@),
                        *req,
                        names,
                        rid,
                        out,
                        r,
                    )
                },
    {
        let keys = headers_keys(&req.headers);
        self.send_request_in_order(inner, req, dyn_headers, permit, &keys)
    }

    /// Starts a new request and sends its headers in the order `keys`.
    pub fn send_request_in_order<RW>(
        &self,
        inner: &mut InnerConnection<RW>,
        req: &RequestHead,
        dyn_headers: Vec<(Bytes, Bytes)>,
        permit: OwnedSemaphorePermit,
        keys: &Vec<HeaderName>,
    ) -> (r: Result<Sent, SendError>)
        requires
            old(inner).wf(),
            requests(old(inner).running_requests).dom().len() < 0xffff,
            request_fits(pair_views(dyn_headers@), *req, self.header_mul),
            names_of(req.fields(), names_view(keys@)),
        ensures
            final(inner).wf(),
            final(inner).fcgi_parser == old(inner).fcgi_parser,
            final(inner).early == old(inner).early,
            final(inner).io.io == old(inner).io.io,
            exists|rid: u16, out: Seq<u8>|
                {
                    &&& started(old(inner).running(), rid, permit, final(inner).running())
                    &&& final(inner).io.queued() == old(inner).io.queued() + out
                    &&& #[trigger] sent(
                        *self,
                        pair_views(dyn_headers@),
                        *req,
                        names_view(keys@),
                        rid,
                        out,
                        r,
                    )
                },
    {
        let ghost names = names_view(keys@);
        let ghost given = pair_views(dyn_headers@);
        let ghost q0 = inner.io.queued();
        let ghost m0 = inner.running();
        let ghost permit_ = permit;
        let rid = inner.start_request(permit);
        let ghost begin = item_bytes(
            FCGIType::BeginRequest {
                request_id: rid,
                role: FastCGIRole::Responder,
                flags: BeginRequestBody::KEEP_CONN,
            },
        );
        let ghost n = accepted(req.fields(), names, self.header_mul, self.header_nl);
        let ghost pairs = encode_pairs(
            params(given, *req, names.take(n as int), self.header_mul),
        );
        assert(started(m0, rid, permit_, inner.running()));
        if self.add_params(&mut inner.io, rid, req, dyn_headers, keys).is_err() {
            //stop mid stream
            let ghost part = full_records(RecordType::Params, rid, pairs);
            inner.abort_req(rid);
            let r = Err(SendError::MultilineHeader);
            proof {
                let abort = item_bytes(FCGIType::AbortRequest { request_id: rid });
                lemma_assoc(q0, begin, part);
                lemma_assoc(q0, begin + part, abort);
                assert(sent(*self, given, *req, names, rid, begin + part + abort, r));
            }
            return r;
        }
        let ghost whole = stream_bytes(RecordType::Params, rid, pairs);
        proof {
            lemma_assoc(q0, begin, whole);
        }
        match Self::body_length(req) {
            Some(len) => {
                let r = Ok(Sent { rid, len: Some(len as usize) });
                assert(sent(*self, given, *req, names, rid, begin + whole, r));
                r
            },
            None => {
                //send end of STDIN
                inner.io.flush_data_chunk(Bytes::new(), rid, RecordType::StdIn);
                let r = Ok(Sent { rid, len: None });
                proof {
                    let none = chunk_bytes(RecordType::StdIn, rid, Seq::empty());
                    lemma_assoc(q0, begin + whole, none);
                    assert(sent(*self, given, *req, names, rid, begin + whole + none, r));
                }
                r
            },
        }
    }

    /// Writes the parameters of a request, with its headers in the order `keys`. Where a header
    /// is refused, what is held back of the parameters is not written.
    fn add_params<RW>(
        &self,
        io: &mut FCGIWriter<RW>,
        rid: u16,
        req: &RequestHead,
        dyn_headers: Vec<(Bytes, Bytes)>,
        keys: &Vec<HeaderName>,
    ) -> (r: Result<(), SendError>)
        requires
            old(io).wf(),
            request_fits(pair_views(dyn_headers@), *req, self.header_mul),
            names_of(req.fields(), names_view(keys@)),
        ensures
            final(io).wf(),
            final(io).io == old(io).io,
            ({
                let names = names_view(keys@);
                let n = accepted(req.fields(), names, self.header_mul, self.header_nl);
                let pairs = encode_pairs(
                    params(
                        pair_views(dyn_headers@),
                        *req,
                        names.take(n as int),
                        self.header_mul,
                    ),
                );
                &&& r is Ok <==> n == names.len()
                &&& r is Ok ==> final(io).queued() == old(io).queued() + stream_bytes(
                    RecordType::Params,
                    rid,
                    pairs,
                )
                &&& r is Err ==> final(io).queued() == old(io).queued() + full_records(
                    RecordType::Params,
                    rid,
                    pairs,
                )
                &&& n <= names.len()
            }),
    {
        let ghost t = RecordType::Params;
        let ghost names = names_view(keys@);
        let ghost given = pair_views(dyn_headers@);
        let ghost w1 = *io;
        let ghost n = accepted(req.fields(), names, self.header_mul, self.header_nl);
        let ghost vars = header_vars(req.fields(), names.take(n as int), self.header_mul);
        let ghost pairs = encode_pairs(given + req.vars() + vars);
        proof {
            assert forall|i: int| 0 <= i < keys@.len() implies req.fields().dom().contains(
                #[trigger] names[i],
            ) by {
                assert(names.contains(names[i]));
            }
            lemma_accepted(
                req.fields(),
                names,
                self.header_mul,
                self.header_nl,
                names.len() as int,
            );
            assert(names.take(names.len() as int) =~= names);
        }
        //Prepare the CGI headers
        let mut kvw = io.kv_stream(rid, RecordType::Params);
        kvw.extend(dyn_headers);
        let ghost (w2, b2) = (*kvw.w, written(kvw.buf));
        self.add_request(&mut kvw, req);
        let ghost (w3, b3) = (*kvw.w, written(kvw.buf));
        //append all HTTP headers
        let done = self.add_headers(&mut kvw, &req.headers, keys);
        let ghost (w4, b4) = (*kvw.w, written(kvw.buf));
        proof {
            let b1 = Seq::<u8>::empty();
            let (p, q, v) = (encode_pairs(given), encode_pairs(req.vars()), encode_pairs(vars));
            lemma_kv_join(w1, b1, w2, b2, w3, b3, t, rid, p, q);
            lemma_kv_join(w1, b1, w3, b3, w4, b4, t, rid, p + q, v);
            lemma_pairs_concat(given, req.vars());
            lemma_pairs_concat(given + req.vars(), vars);
            assert(b1 + pairs =~= pairs);
        }
        if done.is_err() {
            return Err(SendError::MultilineHeader);
        }
        //send all headers to the FCGI App
        kvw.flush();
        proof {
            lemma_assoc(
                w1.queued(),
                full_records(t, rid, pairs),
                stream_end(t, rid, leftover(pairs)),
            );
        }
        Ok(())
    }
}

impl Connection {
    /// Whether all parameters of a request are short enough to be written.
    pub fn fits(&self, req: &RequestHead, dyn_headers: &Vec<(Bytes, Bytes)>) -> (r: bool)
        ensures
            r == request_fits(pair_views(dyn_headers@), *req, self.header_mul),
    {
        let ghost given = pair_views(dyn_headers@);
        let mut i: usize = 0;
        while i < dyn_headers.len()
            invariant
                i <= dyn_headers@.len(),
                given == pair_views(dyn_headers@),
                forall|j: int| 0 <= j < i ==> sendable(#[trigger] given[j]),
            decreases dyn_headers@.len() - i,
        {
            if dyn_headers[i].0.len() > MAX_PART || dyn_headers[i].1.len() > MAX_PART {
                assert(!sendable(given[i as int]));
                return false;
            }
            i += 1;
        }
        if !Self::vars_fit(req) {
            return false;
        }
        let keys = headers_keys(&req.headers);
        let ghost names = names_view(keys@);
        let ghost m = req.fields();
        i = 0;
        while i < keys.len()
            invariant
                i <= keys@.len(),
                m == req.fields(),
                names == names_view(keys@),
                names_of(m, names),
                all_sendable(given),
                all_sendable(req.vars()),
                given == pair_views(dyn_headers@),
                forall|j: int|
                    0 <= j < i && !skipped(#[trigger] names[j]) ==> sendable(
                        header_var(m, names[j], self.header_mul),
                    ),
            decreases keys@.len() - i,
        {
            let key = &keys[i];
            proof {
                assert(names[i as int] == name_bytes(*key));
                assert(names.contains(names[i as int]));
            }
            if !is_skipped(key) && !self.header_fits(&req.headers, key) {
                assert(m.dom().contains(names[i as int]) && !skipped(names[i as int]));
                return false;
            }
            i += 1;
        }
        proof {
            assert forall|n: Seq<u8>| #[trigger]
                m.dom().contains(n) && !skipped(n) implies sendable(
                header_var(m, n, self.header_mul),
            ) by {
                assert(names.contains(n));
                let j = choose|j: int| 0 <= j < names.len() && names[j] == n;
                assert(!skipped(names[j]));
            }
        }
        true
    }

    /// Whether the parameters that do not stand for a header are short enough to be written.
    fn vars_fit(req: &RequestHead) -> (r: bool)
        ensures
            r == all_sendable(req.vars()),
    {
        proof {
            reveal_strlit("QUERY_STRING");
            reveal_strlit("REQUEST_METHOD");
            reveal_strlit("CONTENT_TYPE");
            reveal_strlit("CONTENT_LENGTH");
        }
        let ghost vars = req.vars();
        let ghost type_at = 2int;
        let ghost length_at = vars.len() - 1;
        if let Some(query) = &req.query {
            if query.len() > MAX_PART {
                assert(!sendable(vars[0]));
                return false;
            }
        }
        assert(sendable(vars[0]));
        if req.method.len() > MAX_PART {
            assert(!sendable(vars[1]));
            return false;
        }
        assert(sendable(vars[1]));
        let key = content_type_name();
        if let Some(value) = headers_get(&req.headers, &key) {
            if header_value_bytes(value).len() > MAX_PART {
                assert(!sendable(vars[type_at]));
                return false;
            }
            assert(sendable(vars[type_at]));
        }
        if let Some(len) = Self::body_length(req) {
            if to_decimal(len).len() > MAX_PART {
                assert(!sendable(vars[length_at]));
                return false;
            }
            assert(sendable(vars[length_at]));
        }
        true
    }

    /// Whether the parameter that a header turns to is short enough to be written.
    fn header_fits(&self, headers: &HeaderMap<HeaderValue>, key: &HeaderName) -> (r: bool)
        requires
            fields(*headers).dom().contains(name_bytes(*key)),
        ensures
            r == sendable(header_var(fields(*headers), name_bytes(*key), self.header_mul)),
    {
        let ghost values = fields(*headers)[name_bytes(*key)];
        proof {
            reveal_strlit("HTTP_");
        }
        if header_name_bytes(key).len() > MAX_PART - 5 {
            return false;
        }
        match self.header_mul {
            MultiHeaderStrategy::Combine => {
                let all = headers_get_all(headers, key);
                let mut len: usize = 0;
                let mut i: usize = 0;
                assert(values.take(0) =~= Seq::empty());
                while i < all.len()
                    invariant
                        i <= all@.len(),
                        values == values_view(all@),
                        values == fields(*headers)[name_bytes(*key)],
                        self.header_mul is Combine,
                        len == join(values.take(i as int)).len(),
                        len <= MAX_PART,
                    decreases all@.len() - i,
                {
                    let n: usize = header_value_bytes(all[i]).len();
                    proof {
                        lemma_join_prefix(values, i + 1);
                        assert(values.take(i + 1).drop_last() =~= values.take(i as int));
                        assert(values.take(i + 1).last() == values[i as int]);
                    }
                    if i > 0 {
                        len += 1;
                    }
                    if len > MAX_PART || n > MAX_PART - len {
                        return false;
                    }
                    len += n;
                    i += 1;
                }
                assert(values.take(i as int) =~= values);
                true
            },
            MultiHeaderStrategy::OnlyFirst => match headers_get(headers, key) {
                Some(v) => header_value_bytes(v).len() <= MAX_PART,
                None => true,
            },
            MultiHeaderStrategy::OnlyLast => {
                let all = headers_get_all(headers, key);
                if all.len() > 0 {
                    let last: usize = all.len() - 1;
                    assert(values_view(all@).last() == value_bytes(*all@[last as int]));
                    header_value_bytes(all[last]).len() <= MAX_PART
                } else {
                    true
                }
            },
        }
    }

    /// Sends a chunk of the body of the request `request_id` to the FCGI App as STDIN. At
    /// least `len` more bytes have to be sent; there may be more. Returns how many bytes have
    /// to follow.
    pub fn send_body<RW>(
        &self,
        inner: &mut InnerConnection<RW>,
        request_id: u16,
        len: usize,
        data: Bytes,
    ) -> (left: usize)
        requires
            old(inner).wf(),
        ensures
            final(inner).wf(),
            final(inner).running_requests == old(inner).running_requests,
            final(inner).fcgi_parser == old(inner).fcgi_parser,
            final(inner).early == old(inner).early,
            final(inner).io.io == old(inner).io.io,
            left == if contents(data).len() <= len {
                len - contents(data).len()
            } else {
                0
            },
            final(inner).io.queued() == old(inner).io.queued() + body_chunk(
                request_id,
                contents(data),
            ),
    {
        let s: usize = data.len();
        if s == 0 {
            assert(inner.io.queued() + body_chunk(request_id, contents(data))
                =~= inner.io.queued());
            return len;
        }
        inner.io.flush_data_chunk(data, request_id, RecordType::StdIn);
        if s <= len {
            len - s
        } else {
            0
        }
    }

    /// Ends the body of the request `request_id`, of which `len` more bytes were announced.
    pub fn end_body<RW>(
        &self,
        inner: &mut InnerConnection<RW>,
        request_id: u16,
        len: usize,
    ) -> (r: Result<(), SendError>)
        requires
            old(inner).wf(),
        ensures
            final(inner).wf(),
            final(inner).running_requests == old(inner).running_requests,
            final(inner).fcgi_parser == old(inner).fcgi_parser,
            final(inner).early == old(inner).early,
            final(inner).io.io == old(inner).io.io,
            match r {
                Ok(_) => len == 0 && final(inner).io.queued() == old(inner).io.queued()
                    + chunk_bytes(RecordType::StdIn, request_id, Seq::empty()),
                Err(e) => len > 0 && e == SendError::BodyTooShort && final(inner).io == old(
                    inner,
                ).io,
            },
    {
        //CGI1.1 4.2 -> at least content-length data
        if len > 0 {
            return Err(SendError::BodyTooShort);
        }
        //empty record to end STDIN steam FCGI1.0
        inner.io.flush_data_chunk(Bytes::new(), request_id, RecordType::StdIn);
        Ok(())
    }
}

/// What is written for a chunk of a body. An empty one would end the body, so nothing is
/// written for it.
pub open spec fn body_chunk(id: u16, data: Seq<u8>) -> Seq<u8> {
    if data.len() == 0 {
        Seq::empty()
    } else {
        chunk_bytes(RecordType::StdIn, id, data)
    }
}

/// What is written for a body that came in `chunks`.
pub open spec fn body_stream(id: u16, chunks: Seq<Seq<u8>>) -> Seq<u8>
    decreases chunks.len(),
{
    if chunks.len() == 0 {
        chunk_bytes(RecordType::StdIn, id, Seq::empty())
    } else {
        body_chunk(id, chunks[0]) + body_stream(id, chunks.drop_first())
    }
}

/// Whether the requests `m2` are `m` and a new one with the id `rid`.
pub open spec fn started(
    m: Map<usize, RequestView>,
    rid: u16,
    permit: OwnedSemaphorePermit,
    m2: Map<usize, RequestView>,
) -> bool {
    &&& rid > 0
    &&& !m.dom().contains(key_of(rid))
    &&& m2 == m.insert(
        key_of(rid),
        RequestView { chunks: Seq::empty(), waker: None, ended: false, permit },
    )
}

/// The name of the content type header.
fn content_type_name() -> (r: HeaderName)
    ensures
        name_bytes(r) == ascii("content-type"@),
{
    proof {
        reveal_strlit("content-type");
    }
    let name = text("content-type");
    proof {
        let s = ascii("content-type"@);
        assert(s.len() == 12);
        assert forall|i: int| 0 <= i < s.len() implies is_token(#[trigger] s[i]) && lower_byte(
            s[i],
        ) == s[i] by {
            assert(i == 0 || i == 1 || i == 2 || i == 3 || i == 4 || i == 5 || i == 6 || i == 7
                || i == 8 || i == 9 || i == 10 || i == 11);
        }
        assert(lower(s) =~= s);
    }
    header_name(chunk(&name)).unwrap()
}

/// Where a header is refused, no header behind it is accepted.
pub proof fn lemma_accepted(
    m: Map<Seq<u8>, Seq<Seq<u8>>>,
    names: Seq<Seq<u8>>,
    mul: MultiHeaderStrategy,
    nl: HeaderMultilineStrategy,
    n: int,
)
    requires
        0 <= n <= names.len(),
    ensures
        accepted(m, names.take(n), mul, nl) <= n,
        accepted(m, names.take(n), mul, nl) < n ==> accepted(m, names, mul, nl) == accepted(
            m,
            names.take(n),
            mul,
            nl,
        ),
    decreases names.len(),
{
    if n == names.len() {
        assert(names.take(n) =~= names);
        if n > 0 {
            let init = names.drop_last();
            lemma_accepted(m, init, mul, nl, n - 1);
            assert(init.take(n - 1) =~= init);
        }
    } else {
        let init = names.drop_last();
        lemma_accepted(m, init, mul, nl, n);
        assert(init.take(n) =~= names.take(n));
    }
}

} // verus!
