//! How the answer of an application turns to an HTTP response.
use bytes::{Bytes, BytesMut};
use http::{HeaderMap, HeaderName, HeaderValue};
use vstd::prelude::*;

use crate::buffer::{ascii, chunk, contents, put_slice, slice, text};
use crate::client::connection::inner::{key_of, InnerConnection};
use crate::client::connection::requests::{slots, RequestView};
use crate::headers::{
    fields, header_name, header_value_bytes, headers_get, headers_new, is_token,
    law_status_code, lower, name_bytes, status_code, status_of, MAX_FIELDS,
};
use crate::httpparse::{
    law_every_field_stored, names_fit, parsed_headers, store_all, try_parse, ParseResult,
    MAX_HEADERS,
};

verus! {

/// The head of a response, as far as it has arrived.
pub struct ResponseHead {
    /// What has arrived of a head that is not complete.
    pub buf: Option<Bytes>,
    pub headers: HeaderMap<HeaderValue>,
    pub status: u16,
}

/// What the standard output of an application means for the head of the response.
pub enum HeadStep {
    /// The head is complete. This is the start of the body.
    Complete(Bytes),
    /// More is needed.
    Pending,
    /// This is no head.
    Invalid,
}

/// The status that the header fields give, `other` if they give none. (CGI/1.1)
///
/// It stands in the first three characters of the status field.
pub open spec fn status_from(m: Map<Seq<u8>, Seq<Seq<u8>>>, other: u16) -> u16 {
    let name = lower(ascii("Status"@));
    if m.dom().contains(name) && m[name][0].len() >= 3 {
        match status_of(m[name][0].take(3)) {
            Some(s) => s,
            None => other,
        }
    } else {
        other
    }
}

/// The status that the header fields give, `other` if they give none.
pub fn response_status(headers: &HeaderMap<HeaderValue>, other: u16) -> (r: u16)
    ensures
        r == status_from(fields(*headers), other),
{
    let name = status_name();
    if let Some(stat) = headers_get(headers, &name) {
        //CGI1.1
        let stat = Bytes::copy_from_slice(header_value_bytes(stat));
        if stat.len() >= 3 {
            let digits = slice(&stat, 0, 3);
            assert(contents(digits) =~= contents(stat).take(3));
            if let Some(s) = status_code(chunk(&digits)) {
                return s;
            }
        }
    }
    other
}

/// The name of the status field.
fn status_name() -> (r: HeaderName)
    ensures
        name_bytes(r) == lower(ascii("Status"@)),
{
    proof {
        reveal_strlit("Status");
    }
    let name = text("Status");
    proof {
        let s = ascii("Status"@);
        assert(s.len() == 6);
        assert forall|i: int| 0 <= i < s.len() implies is_token(#[trigger] s[i]) by {
            assert(i == 0 || i == 1 || i == 2 || i == 3 || i == 4 || i == 5);
        }
    }
    header_name(chunk(&name)).unwrap()
}

impl ResponseHead {
    /// What has arrived of a head that is not complete.
    pub open spec fn left(self) -> Seq<u8> {
        match self.buf {
            Some(b) => contents(b),
            None => Seq::empty(),
        }
    }

    /// Nothing has arrived. The status is 200 until the application says otherwise.
    pub fn new() -> (r: ResponseHead)
        ensures
            r.left() == Seq::<u8>::empty(),
            fields(r.headers) == Map::<Seq<u8>, Seq<Seq<u8>>>::empty(),
            r.status == 200,
    {
        let r = ResponseHead { buf: None, headers: headers_new(), status: 200 };
        assert(fields(r.headers) =~= Map::<Seq<u8>, Seq<Seq<u8>>>::empty());
        r
    }

    /// Goes on with standard output of the application. The head is read from all that has
    /// arrived of it.
    ///
    /// Nothing is returned, and nothing happens, if the name of a field has more than 65535
    /// bytes or if there are too many fields already.
    pub fn on_data(&mut self, data: Bytes) -> (r: Option<HeadStep>)
        requires
            old(self).left().len() + contents(data).len() <= isize::MAX,
        ensures
            ({
                let all = old(self).left() + contents(data);
                let parsed = parsed_headers(all, MAX_HEADERS as nat);
                let m = fields(old(self).headers);
                &&& r is Some <==> names_fit(parsed) && m.dom().len() + MAX_HEADERS <= MAX_FIELDS
                &&& match r {
                    None => {
                        &&& final(self).left() == old(self).left()
                        &&& fields(final(self).headers) == m
                        &&& final(self).status == old(self).status
                    },
                    Some(step) => match parsed {
                        Ok(Some((pos, fs))) => {
                            &&& step matches HeadStep::Complete(rest) && contents(rest)
                                == all.skip(pos as int)
                            &&& fields(final(self).headers) == store_all(m, fs)
                            &&& final(self).status == status_from(
                                store_all(m, fs),
                                old(self).status,
                            )
                            &&& final(self).left() == Seq::<u8>::empty()
                        },
                        Ok(None) => {
                            &&& step is Pending
                            &&& fields(final(self).headers) == m
                            &&& final(self).status == old(self).status
                            &&& final(self).left() == all
                        },
                        Err(_) => {
                            &&& step is Invalid
                            &&& fields(final(self).headers) == m
                            &&& final(self).status == 500
                            &&& final(self).left() == Seq::<u8>::empty()
                        },
                    },
                }
            }),
    {
        let ghost all = self.left() + contents(data);
        let b = match &self.buf {
            Some(left) => {
                //we have old data -> concat
                let mut c = BytesMut::with_capacity(left.len() + data.len());
                put_slice(&mut c, chunk(left));
                put_slice(&mut c, chunk(&data));
                c.freeze()
            },
            None => data,
        };
        assert(contents(b) =~= all);
        match try_parse(b.clone(), &mut self.headers) {
            None => None,
            Some(ParseResult::Complete(bodydata)) => {
                self.buf = None;
                self.status = response_status(&self.headers, self.status);
                //Location header for local URIs (starting with "/") -> must be done in Webserver
                Some(HeadStep::Complete(bodydata))
            },
            Some(ParseResult::Pending) => {
                //read more
                self.buf = Some(b);
                Some(HeadStep::Pending)
            },
            Some(ParseResult::Invalid) => {
                self.buf = None;
                self.status = 500;
                Some(HeadStep::Invalid)
            },
        }
    }
}

impl<RW> InnerConnection<RW> {
    /// Takes in a step of the head for the request `id`: the start of the body is put before
    /// what waits to be read. Returns whether the head is done with.
    pub fn take_head_step(&mut self, id: u16, step: HeadStep) -> (done: bool)
        requires
            old(self).wf(),
            id > 0,
            step matches HeadStep::Complete(rest) && contents(rest).len() > 0 ==> old(
                self,
            ).running().dom().contains(key_of(id)),
        ensures
            final(self).wf(),
            final(self).io == old(self).io,
            final(self).fcgi_parser == old(self).fcgi_parser,
            final(self).early == old(self).early,
            slots(final(self).running_requests) == slots(old(self).running_requests),
            done == (step !is Pending),
            match step {
                HeadStep::Complete(rest) => if contents(rest).len() > 0 {
                    let r = old(self).running()[key_of(id)];
                    final(self).running() == old(self).running().insert(
                        key_of(id),
                        RequestView { chunks: seq![contents(rest)] + r.chunks, ..r },
                    )
                } else {
                    final(self).running() == old(self).running()
                },
                _ => final(self).running() == old(self).running(),
            },
    {
        match step {
            HeadStep::Complete(bodydata) => {
                if bodydata.len() > 0 {
                    self.push_body(id, bodydata);
                }
                true
            },
            HeadStep::Pending => false,
            HeadStep::Invalid => true,
        }
    }
}

// ---------------------------------------------------------------- laws

/// The first value of the status field decides, if it starts with three digits of which the
/// first one is not a zero: the status is the number they spell. Else it stays what it was.
pub proof fn law_status_from_field(m: Map<Seq<u8>, Seq<Seq<u8>>>, other: u16)
    ensures
        ({
            let name = ascii("status"@);
            let v = m[name][0];
            let said = m.dom().contains(name) && v.len() >= 3 && 0x31 <= v[0] <= 0x39 && 0x30
                <= v[1] <= 0x39 && 0x30 <= v[2] <= 0x39;
            &&& said ==> status_from(m, other) == 100 * (v[0] - 0x30) + 10 * (v[1] - 0x30) + (v[2]
                - 0x30)
            &&& !said ==> status_from(m, other) == other
        }),
{
    reveal_strlit("Status");
    reveal_strlit("status");
    assert(lower(ascii("Status"@)) =~= ascii("status"@));
    let v = m[ascii("status"@)][0];
    if v.len() >= 3 {
        law_status_code(v.take(3));
    }
}

/// A head that was read gives the response the status that its last status field names, for all
/// digits, and keeps the status before it where it names none.
pub proof fn law_response_status(
    m: Map<Seq<u8>, Seq<Seq<u8>>>,
    fs: Seq<(Seq<u8>, Seq<u8>)>,
    i: int,
    other: u16,
)
    requires
        0 <= i < fs.len(),
        lower(fs[i].0) == ascii("status"@),
        forall|j: int| i < j < fs.len() ==> lower((#[trigger] fs[j]).0) != ascii("status"@),
    ensures
        ({
            let v = fs[i].1;
            let said = v.len() >= 3 && 0x31 <= v[0] <= 0x39 && 0x30 <= v[1] <= 0x39 && 0x30
                <= v[2] <= 0x39;
            let status = status_from(store_all(m, fs), other);
            &&& said ==> status == 100 * (v[0] - 0x30) + 10 * (v[1] - 0x30) + (v[2] - 0x30)
            &&& !said ==> status == other
        }),
{
    law_every_field_stored(m, fs, i);
    law_status_from_field(store_all(m, fs), other);
}

/// What is left of a head that is not complete is what has arrived of it.
pub proof fn law_head_left(h: ResponseHead)
    ensures
        h.buf matches Some(b) ==> h.left() == contents(b),
        h.buf is None ==> h.left().len() == 0,
{
}

} // verus!
